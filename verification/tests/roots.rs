//! Garbage collection roots.

use kiss_cache::gcroots::{resolve_link, skips, Entry, GcRoots};
use std::path::Path;

const A: &str = "aaaaaaaaaaaaaaaaaaaaaaaaaaaaaaaa";
const B: &str = "bbbbbbbbbbbbbbbbbbbbbbbbbbbbbbbb";

fn hashes(roots: &GcRoots) -> Vec<String> {
    roots.root_hashes().iter().map(|h| h.as_str().to_string()).collect()
}

fn link(target: &str) -> Entry {
    Entry::Link(target.as_bytes().to_vec())
}

fn file(contents: &str) -> Entry {
    Entry::File(contents.as_bytes().to_vec())
}

#[test]
fn a_store_path_is_cut_to_its_root() {
    let mut roots = GcRoots::default();
    roots.enqueue(format!("/nix/store/{A}-x/bin/y").as_bytes());
    roots.enqueue(format!("/nix/store/{A}-x").as_bytes());
    roots.enqueue(format!("/nix//store/./{A}-x/").as_bytes());
    assert_eq!(roots.store_paths(), &[format!("/nix/store/{A}-x").into_bytes()]);
    assert_eq!(hashes(&roots), [A]);
    assert!(roots.next_step().is_none());
}

#[test]
fn two_store_paths_with_one_hash_are_two_roots() {
    let mut roots = GcRoots::new();
    roots.add_store_path(format!("/nix/store/{A}-x").as_bytes());
    roots.add_store_path(format!("/nix/store/{A}-y").as_bytes());
    assert_eq!(hashes(&roots), [A, A]);
}

#[test]
fn directories_are_walked_once_and_in_order() {
    let mut roots = GcRoots::new();
    roots.enqueue(b"/a");
    roots.enqueue(b"/b");
    roots.enqueue(b"/a/");
    let step = roots.next_step().unwrap();
    assert_eq!((step.path.as_slice(), step.position, step.length), (&b"/a"[..], 1, 2));
    roots.enqueue(b"/a");
    roots.scan(b"/a/up", &link("../b"));
    let step = roots.next_step().unwrap();
    assert_eq!((step.path.as_slice(), step.position, step.length), (&b"/b"[..], 2, 3));
    let step = roots.next_step().unwrap();
    assert_eq!((step.path.as_slice(), step.position, step.length), (&b"/a/../b"[..], 3, 3));
    assert!(roots.next_step().is_none());
}

#[test]
fn a_short_store_path_is_kept_but_has_no_hash() {
    let mut roots = GcRoots::new();
    roots.enqueue(b"/nix/store");
    roots.enqueue(b"/nix/store/tiny");
    assert_eq!(roots.store_paths().len(), 2);
    assert!(roots.root_hashes().is_empty());
    assert!(roots.next_step().is_none());
}

#[test]
fn links_are_resolved_as_by_std() {
    for (from, to) in [
        ("/g/l", "/nix/store/x"),
        ("/g/l", "x"),
        ("/g/l", "../x"),
        ("l", "x"),
        ("/", "x"),
        ("", "x"),
        ("g/l/", "x"),
    ] {
        let expected = match (Path::new(to).is_absolute(), Path::new(from).parent()) {
            (false, Some(parent)) => parent.join(to),
            _ => Path::new(to).to_path_buf(),
        };
        assert_eq!(
            resolve_link(from.as_bytes(), to.as_bytes()),
            expected.as_os_str().as_encoded_bytes(),
            "{from} {to}"
        );
    }
}

#[test]
fn markers_name_roots_by_line_and_by_name() {
    let mut roots = GcRoots::new();
    roots.scan(b"/g/job", &file(&format!("/nix/store/{A}-x\n\nnoise\n/nix/store/tiny\n")));
    assert_eq!(hashes(&roots), [A]);
    roots.scan(format!("/g/{B}-y").as_bytes(), &file(""));
    assert_eq!(hashes(&roots), [A, B]);
    assert_eq!(roots.store_paths()[1], format!("/nix/store/{B}-y").into_bytes());
    roots.scan(b"/g", &Entry::Other);
    roots.scan(b"/g/x", &file("relative/path\n"));
    assert_eq!(hashes(&roots), [A, B]);
}

#[test]
fn a_relative_line_is_no_root() {
    let mut roots = GcRoots::new();
    roots.scan(b"/g/job", &file(&format!("nix/store/{A}-x\n {A}\n")));
    assert!(roots.root_hashes().is_empty());
}

#[test]
fn hidden_names_are_skipped_below_the_top() {
    assert!(!skips(0, b".lock"));
    assert!(skips(1, b".lock"));
    assert!(skips(7, b".job.tmp"));
    assert!(!skips(1, b"job"));
    assert!(!skips(1, b""));
}

#[test]
fn a_whole_search_leaves_out_nothing() {
    let c = "cccccccccccccccccccccccccccccccc";
    let d = "dddddddddddddddddddddddddddddddd";
    let tree = [
        ("/g", vec![("/g/more", link("/h")), ("/g/job", file(&format!("/nix/store/{B}-b\n")))]),
        ("/h", vec![("/h/back", link("../g")), ("/h/out", link(&format!("/nix/store/{c}-c/bin")))]),
        ("/h/../g", vec![]),
        ("/elsewhere", vec![("/elsewhere/x", link(&format!("/nix/store/{d}-d")))]),
    ];
    let mut roots = GcRoots::new();
    roots.enqueue(b"/g");
    roots.enqueue(format!("/nix/store/{A}-a").as_bytes());
    let mut walked = Vec::new();
    while let Some(step) = roots.next_step() {
        let dir = String::from_utf8(step.path).unwrap();
        let (_, entries) = tree.iter().find(|(name, _)| *name == dir).unwrap();
        for (name, entry) in entries {
            roots.scan(name.as_bytes(), entry);
        }
        walked.push(dir);
    }
    assert_eq!(walked, ["/g", "/h", "/h/../g"]);
    assert_eq!(hashes(&roots), [A, B, c]);
}
