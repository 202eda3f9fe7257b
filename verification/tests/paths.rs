//! Paths and store hashes, held against `std::path`.

use kiss_cache::byte_set::ByteSet;
use kiss_cache::path::{
    absolute, component, join, key_of, last_name, parent_dir, paths_equal, split_path,
};
use kiss_cache::store_hash::{is_in_store, StoreHash};
use std::path::Path;

/// Every string of up to four of these parts.
fn samples() -> Vec<String> {
    let parts = ["/", ".", "..", "a", "b.c", "//", "/nix", "/store", "\u{e9}"];
    let mut all = vec![String::new()];
    let mut last = vec![String::new()];
    for _ in 0..4 {
        let mut next = Vec::new();
        for head in &last {
            for part in parts {
                next.push(format!("{head}{part}"));
            }
        }
        all.extend(next.iter().cloned());
        last = next;
    }
    all
}

fn bytes(p: &Path) -> Vec<u8> {
    p.as_os_str().as_encoded_bytes().to_vec()
}

#[test]
fn parents_and_names_are_those_of_std() {
    for s in samples() {
        let p = Path::new(&s);
        assert_eq!(absolute(s.as_bytes()), p.is_absolute(), "{s:?}");
        assert_eq!(parent_dir(s.as_bytes()), p.parent().map(bytes), "{s:?}");
        assert_eq!(
            last_name(s.as_bytes()),
            p.file_name().map(|n| n.as_encoded_bytes()),
            "{s:?}"
        );
    }
}

#[test]
fn components_are_those_of_std() {
    for s in samples() {
        let p = Path::new(&s);
        let cs = split_path(s.as_bytes());
        let ours: Vec<Vec<u8>> =
            (0..cs.len()).map(|k| component(s.as_bytes(), &cs, k).to_vec()).collect();
        let theirs: Vec<Vec<u8>> = p
            .components()
            .skip(usize::from(p.is_absolute()))
            .map(|c| c.as_os_str().as_encoded_bytes().to_vec())
            .collect();
        assert_eq!(ours, theirs, "{s:?}");
    }
}

#[test]
fn equality_and_keys_are_those_of_std() {
    let some: Vec<String> = samples().into_iter().step_by(23).collect();
    for a in &some {
        for b in &some {
            let same = Path::new(a) == Path::new(b);
            assert_eq!(paths_equal(a.as_bytes(), b.as_bytes()), same, "{a:?} {b:?}");
            assert_eq!(key_of(a.as_bytes()) == key_of(b.as_bytes()), same, "{a:?} {b:?}");
            assert_eq!(join(a.as_bytes(), b.as_bytes()), bytes(&Path::new(a).join(b)));
        }
    }
}

#[test]
fn the_store_is_where_std_finds_it() {
    for s in samples() {
        assert_eq!(
            is_in_store(s.as_bytes()),
            Path::new(&s).starts_with("/nix/store"),
            "{s:?}"
        );
    }
}

const HASH: &str = "0123456789abcdefghijklmnopqrsTUV";

#[test]
fn hashes_of_store_paths() {
    let found = |p: &str| StoreHash::from_store_path(p.as_bytes()).map(|h| h.as_str().to_string());
    assert_eq!(found(&format!("/nix/store/{HASH}-hello")), Some(HASH.to_string()));
    assert_eq!(found(&format!("/nix/store/{HASH}")), Some(HASH.to_string()));
    assert_eq!(found(&format!("//nix/./store//{HASH}-x/bin/y")), Some(HASH.to_string()));
    assert_eq!(found(&format!("/nix/store/{HASH}-x/.")), Some(HASH.to_string()));
    assert_eq!(found("/nix/store"), None);
    assert_eq!(found("/nix/store/"), None);
    assert_eq!(found("/nix/store/short-name"), None);
    assert_eq!(found(&format!("nix/store/{HASH}-x")), None);
    assert_eq!(found(&format!("/nix/{HASH}-x")), None);
    assert_eq!(found(&format!("/nix/store/{}-x", HASH.replace('0', "_"))), None);
    assert_eq!(found(&format!("/nix/store/{}-x", HASH.replace('0', "\u{e9}"))), None);
}

/// The hash as the first bytes below `/nix/store`.
fn reference_hash(p: &str) -> Option<String> {
    let rest = Path::new(p).strip_prefix("/nix/store").ok()?;
    let head = rest.as_os_str().as_encoded_bytes().get(..32)?;
    if head.iter().all(u8::is_ascii_alphanumeric) {
        Some(String::from_utf8(head.to_vec()).unwrap())
    } else {
        None
    }
}

#[test]
fn hashes_are_the_first_bytes_below_the_store() {
    for s in samples().into_iter().step_by(7) {
        for tail in ["", "/", "-x", "/bin", "/../y"] {
            for p in [format!("{s}{HASH}{tail}"), format!("{s}/{HASH}{tail}"), format!("{s}{tail}")]
            {
                assert_eq!(
                    StoreHash::from_store_path(p.as_bytes()).map(|h| h.as_str().to_string()),
                    reference_hash(&p),
                    "{p:?}"
                );
            }
        }
    }
}

#[test]
fn hashes_of_names_and_bytes() {
    let h = StoreHash::from_name(&format!("{HASH}-hello")).unwrap();
    assert_eq!(h.as_bytes(), HASH.as_bytes());
    assert_eq!(StoreHash::from_prefix(HASH.as_bytes()), Some(h));
    assert_eq!(StoreHash::from_bytes(*h.as_bytes()), Some(h));
    assert_eq!(StoreHash::from_name(&HASH[..31]), None);
    assert_eq!(StoreHash::from_bytes([b'-'; 32]), None);
    for b in 0..=255u8 {
        assert_eq!(StoreHash::from_bytes([b; 32]).is_some(), b.is_ascii_alphanumeric(), "{b}");
    }
}

#[test]
fn byte_sets() {
    let mut set = ByteSet::new();
    assert_eq!(set.len(), 0);
    assert!(!set.contains(b"a"));
    assert!(set.insert(b"a"));
    assert!(!set.insert(b"a"));
    assert!(set.insert(b""));
    assert!(set.contains(b"a") && set.contains(b"") && !set.contains(b"b"));
    assert_eq!(set.len(), 2);
}
