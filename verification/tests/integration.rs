//! End-to-end tests: build a fake binary cache and a gcroots tree in memory, run a prune against
//! them, and assert which files survive.

use kiss_cache::binary_cache::BinaryCache;
use kiss_cache::closure_cache::{default_path, load};
use kiss_cache::gcroots::{skips, Entry, GcRoots};
use kiss_cache::prune::{run, sweep, Config, SweptDir};
use std::collections::BTreeMap;

const HASH_ROOT: &str = "aaaaaaaaaaaaaaaaaaaaaaaaaaaaaaaa";
const HASH_DEP: &str = "bbbbbbbbbbbbbbbbbbbbbbbbbbbbbbbb";
const HASH_DRV: &str = "cccccccccccccccccccccccccccccccc";
const HASH_GARBAGE: &str = "dddddddddddddddddddddddddddddddd";

#[derive(Clone)]
enum Node {
    Dir,
    File(Vec<u8>),
    Link(String),
}

/// Resolves `.` and `..` in an absolute path.
fn normalize(path: &str) -> String {
    let mut names: Vec<&str> = Vec::new();
    for name in path.split('/') {
        match name {
            "" | "." => {}
            ".." => {
                names.pop();
            }
            _ => names.push(name),
        }
    }
    format!("/{}", names.join("/"))
}

fn text(bytes: &[u8]) -> String {
    String::from_utf8(bytes.to_vec()).unwrap()
}

struct Fixture {
    nodes: BTreeMap<String, Node>,
}

impl Fixture {
    fn new() -> Self {
        let mut fx = Fixture { nodes: BTreeMap::new() };
        for dir in ["/tmp", "/tmp/cache", "/tmp/cache/nar", "/tmp/gcroots"] {
            fx.nodes.insert(dir.to_string(), Node::Dir);
        }
        fx
    }

    fn write(&mut self, path: &str, contents: &str) {
        self.nodes.insert(path.to_string(), Node::File(contents.as_bytes().to_vec()));
    }

    fn symlink(&mut self, target: &str, path: &str) {
        self.nodes.insert(path.to_string(), Node::Link(target.to_string()));
    }

    fn mkdir(&mut self, path: &str) {
        self.nodes.insert(path.to_string(), Node::Dir);
    }

    /// Creates `<hash>.narinfo` plus its referenced `nar/<hash>.nar.xz` archive.
    fn add_narinfo(&mut self, hash: &str, name: &str, references: &[&str], deriver: Option<&str>) {
        let url = format!("nar/{hash}.nar.xz");
        let contents = "fake nar contents";
        self.write(&format!("/tmp/cache/{url}"), contents);
        let nar_size = contents.len();
        let refs = references.iter().map(|h| format!("{h}-ref")).collect::<Vec<_>>().join(" ");
        let deriver_line =
            deriver.map(|h| format!("Deriver: {h}-{name}.drv\n")).unwrap_or_default();
        let narinfo = format!(
            "StorePath: /nix/store/{hash}-{name}\n\
             URL: {url}\n\
             Compression: xz\n\
             FileHash: sha256:0000000000000000000000000000000000000000000000000000\n\
             FileSize: {nar_size}\n\
             NarHash: sha256:0000000000000000000000000000000000000000000000000000\n\
             NarSize: {nar_size}\n\
             References: {refs}\n\
             {deriver_line}"
        );
        self.write(&format!("/tmp/cache/{hash}.narinfo"), &narinfo);
    }

    /// Creates a gcroot symlink pointing at /nix/store/<hash>-<name>.
    fn add_gcroot(&mut self, link_name: &str, hash: &str, name: &str) {
        self.symlink(&format!("/nix/store/{hash}-{name}"), &format!("/tmp/gcroots/{link_name}"));
    }

    /// The names in a directory.
    fn children(&self, dir: &str) -> Vec<String> {
        let prefix = format!("{dir}/");
        self.nodes
            .keys()
            .filter_map(|p| p.strip_prefix(&prefix))
            .filter(|rest| !rest.contains('/'))
            .map(str::to_string)
            .collect()
    }

    /// Everything at and below a path that a walk comes upon.
    fn walk(&self, path: &str, depth: usize, out: &mut Vec<(String, Entry)>) {
        let real = normalize(path);
        let name = real.rsplit('/').next().unwrap().to_string();
        if skips(depth, name.as_bytes()) {
            return;
        }
        match self.nodes.get(&real) {
            None => {}
            Some(Node::File(contents)) => {
                out.push((path.to_string(), Entry::File(contents.clone())));
            }
            Some(Node::Link(target)) => {
                out.push((path.to_string(), Entry::Link(target.as_bytes().to_vec())));
            }
            Some(Node::Dir) => {
                out.push((path.to_string(), Entry::Other));
                for child in self.children(&real) {
                    self.walk(&format!("{path}/{child}"), depth + 1, out);
                }
            }
        }
    }

    fn roots(&self) -> GcRoots {
        let mut roots = GcRoots::new();
        roots.enqueue(b"/tmp/gcroots");
        while let Some(step) = roots.next_step() {
            let mut found = Vec::new();
            self.walk(&text(&step.path), 0, &mut found);
            for (path, entry) in &found {
                roots.scan(path.as_bytes(), entry);
            }
        }
        roots
    }

    fn listing(&self, dir: &str) -> Vec<(Vec<u8>, Option<u64>)> {
        self.children(dir)
            .into_iter()
            .map(|name| {
                let size = match &self.nodes[&format!("{dir}/{name}")] {
                    Node::File(contents) => Some(contents.len() as u64),
                    _ => None,
                };
                (name.into_bytes(), size)
            })
            .collect()
    }

    /// Runs a prune and returns the sizes of the garbage in both directories.
    fn run(&mut self, dry_run: bool) -> (u64, u64) {
        let config = Config {
            dry_run,
            cache_dir: b"/tmp/cache".to_vec(),
            gcroots: vec![b"/tmp/gcroots".to_vec()],
            lock_wait: 600,
        };
        let roots = self.roots();
        let cache = BinaryCache::new(config.cache_dir.clone());
        let closures_file = text(&default_path(&config.cache_dir));
        let closures = match self.nodes.get(&closures_file) {
            Some(Node::File(bytes)) => load(Some(bytes.as_slice())),
            _ => load(None),
        };
        let nodes = self.nodes.clone();
        let plan = run(&config, &roots, |step| {
            let file = text(&cache.narinfo_file(step.hash.as_str()));
            let present = nodes.contains_key(&file);
            closures.lookup(&cache, &step.hash, present, |path: &[u8]| {
                match nodes.get(&text(path)) {
                    Some(Node::File(contents)) => {
                        String::from_utf8(contents.clone()).map_err(|_| ())
                    }
                    _ => Err(()),
                }
            })
        });
        if let Some(rewrite) = plan.closures {
            let temp = text(&rewrite.temp);
            self.nodes.insert(temp.clone(), Node::File(rewrite.contents));
            let whole = self.nodes.remove(&temp).unwrap();
            self.nodes.insert(text(&rewrite.file), whole);
        }
        let mut totals = [0u64; 2];
        for (i, (dir, kind)) in
            [("/tmp/cache", SweptDir::Infos), ("/tmp/cache/nar", SweptDir::Archives)]
                .into_iter()
                .enumerate()
        {
            let (doomed, total) = sweep(&plan.keep, kind, dry_run, &self.listing(dir));
            for name in doomed {
                self.nodes.remove(&format!("{dir}/{}", text(&name)));
            }
            totals[i] = total;
        }
        (totals[0], totals[1])
    }

    fn is_there(&self, path: &str) -> bool {
        self.nodes.contains_key(path)
    }

    fn narinfo_exists(&self, hash: &str) -> bool {
        self.is_there(&format!("/tmp/cache/{hash}.narinfo"))
    }

    fn nar_exists(&self, hash: &str) -> bool {
        self.is_there(&format!("/tmp/cache/nar/{hash}.nar.xz"))
    }
}

fn standard_fixture() -> Fixture {
    let mut fx = Fixture::new();
    // root -> dep (via References), root -> drv (via Deriver)
    fx.add_narinfo(HASH_ROOT, "root", &[HASH_DEP], Some(HASH_DRV));
    fx.add_narinfo(HASH_DEP, "dep", &[], None);
    fx.add_narinfo(HASH_DRV, "root.drv", &[], None);
    // unreachable from any gcroot
    fx.add_narinfo(HASH_GARBAGE, "garbage", &[], None);
    fx.add_gcroot("my-root", HASH_ROOT, "root");
    fx
}

#[test]
fn keeps_reachable_deletes_garbage() {
    let mut fx = standard_fixture();
    fx.run(false);

    for hash in [HASH_ROOT, HASH_DEP, HASH_DRV] {
        assert!(fx.narinfo_exists(hash), "{hash}.narinfo should be kept");
        assert!(fx.nar_exists(hash), "{hash}.nar.xz should be kept");
    }
    assert!(!fx.narinfo_exists(HASH_GARBAGE), "garbage narinfo deleted");
    assert!(!fx.nar_exists(HASH_GARBAGE), "garbage nar deleted");
}

#[test]
fn dry_run_deletes_nothing() {
    let mut fx = standard_fixture();
    let (_, nars) = fx.run(true);

    for hash in [HASH_ROOT, HASH_DEP, HASH_DRV, HASH_GARBAGE] {
        assert!(fx.narinfo_exists(hash), "{hash}.narinfo untouched in dry-run");
        assert!(fx.nar_exists(hash), "{hash}.nar.xz untouched in dry-run");
    }
    assert!(!fx.is_there("/tmp/cache/.kiss-cache.closures"));
    // The garbage is still counted.
    assert_eq!(nars, 17);
}

/// A gcroot can also be a plain file whose basename is `<hash>-<name>`.
#[test]
fn gcroot_marker_file_is_a_root() {
    let mut fx = Fixture::new();
    fx.add_narinfo(HASH_ROOT, "root", &[], None);
    fx.add_narinfo(HASH_GARBAGE, "garbage", &[], None);
    fx.write(&format!("/tmp/gcroots/{HASH_ROOT}-root"), "");

    fx.run(false);
    assert!(fx.narinfo_exists(HASH_ROOT));
    assert!(!fx.narinfo_exists(HASH_GARBAGE));
}

#[test]
fn gcroot_in_nested_dir_is_followed() {
    let mut fx = Fixture::new();
    fx.add_narinfo(HASH_ROOT, "root", &[], None);
    fx.add_narinfo(HASH_GARBAGE, "garbage", &[], None);
    // gcroots are scanned recursively
    fx.mkdir("/tmp/gcroots/auto");
    fx.mkdir("/tmp/gcroots/auto/per-user");
    fx.symlink(&format!("/nix/store/{HASH_ROOT}-root"), "/tmp/gcroots/auto/per-user/result");

    fx.run(false);
    assert!(fx.narinfo_exists(HASH_ROOT));
    assert!(!fx.narinfo_exists(HASH_GARBAGE));
}

/// A gcroot symlink pointing at a store path that is too short to contain a hash is skipped.
#[test]
fn short_store_path_root_is_skipped() {
    let mut fx = standard_fixture();
    fx.symlink("/nix/store", "/tmp/gcroots/bogus-root");

    fx.run(false);
    assert!(fx.narinfo_exists(HASH_ROOT));
    assert!(!fx.narinfo_exists(HASH_GARBAGE));
}

/// A reachable but malformed narinfo must not abort the run.
#[test]
fn malformed_narinfo_is_skipped() {
    let mut fx = standard_fixture();
    // Reachable from HASH_ROOT via References, but truncated.
    fx.write(
        &format!("/tmp/cache/{HASH_DEP}.narinfo"),
        &format!("StorePath: /nix/store/{HASH_DEP}-dep\n"),
    );

    fx.run(false);
    assert!(fx.narinfo_exists(HASH_ROOT), "good root kept");
    assert!(!fx.narinfo_exists(HASH_GARBAGE), "garbage deleted");
    assert!(fx.narinfo_exists(HASH_DEP), "a reachable narinfo stays");
    assert!(!fx.nar_exists(HASH_DEP), "nothing accounts for its archive");
}

/// The file listing of a store path that can be reached stays even if its narinfo does not.
#[test]
fn listings_of_reachable_paths_are_kept() {
    let mut fx = standard_fixture();
    for hash in [HASH_ROOT, HASH_DEP, HASH_GARBAGE] {
        fx.write(&format!("/tmp/cache/{hash}.ls"), "{}");
    }
    fx.nodes.insert(format!("/tmp/cache/{HASH_DEP}.narinfo"), Node::File(vec![0xff]));

    fx.run(false);
    assert!(fx.is_there(&format!("/tmp/cache/{HASH_ROOT}.ls")));
    assert!(fx.is_there(&format!("/tmp/cache/{HASH_DEP}.ls")), "reachable, but unreadable");
    assert!(!fx.narinfo_exists(HASH_DEP), "an unreadable narinfo goes");
    assert!(!fx.is_there(&format!("/tmp/cache/{HASH_GARBAGE}.ls")));
    assert!(fx.is_there("/tmp/cache/.kiss-cache.closures"));
    assert!(!fx.is_there("/tmp/cache/.kiss-cache.closures.tmp"));
}

/// A cached entry must not keep an archive alive once its narinfo is gone.
#[test]
fn closure_cache_does_not_resurrect_deleted_narinfo() {
    let mut fx = standard_fixture();
    // First pass: deletes garbage, writes the closure cache for ROOT/DEP/DRV.
    fx.run(false);
    assert!(fx.narinfo_exists(HASH_DEP));
    assert!(fx.nar_exists(HASH_DEP));
    assert!(fx.is_there("/tmp/cache/.kiss-cache.closures"));

    // Delete DEP's narinfo out of band (e.g. cache repair, manual cleanup).
    fx.nodes.remove(&format!("/tmp/cache/{HASH_DEP}.narinfo"));

    // Second pass: DEP's narinfo is gone, so its archive is orphaned and
    // must be swept even though the closure cache remembers it.
    fx.run(false);
    assert!(!fx.nar_exists(HASH_DEP), "orphaned nar must be swept");
    assert!(fx.narinfo_exists(HASH_ROOT));
    assert!(fx.nar_exists(HASH_ROOT));
}

/// A relative symlink is resolved against its parent directory.
#[test]
fn relative_symlink_in_gcroots_is_resolved() {
    let mut fx = Fixture::new();
    fx.add_narinfo(HASH_ROOT, "root", &[], None);
    fx.add_narinfo(HASH_GARBAGE, "garbage", &[], None);

    // <tmp>/profiles/result -> /nix/store/<hash>-root
    fx.mkdir("/tmp/profiles");
    fx.symlink(&format!("/nix/store/{HASH_ROOT}-root"), "/tmp/profiles/result");
    // <tmp>/gcroots/indirect -> ../profiles  (relative!)
    fx.symlink("../profiles", "/tmp/gcroots/indirect");

    fx.run(false);
    assert!(
        fx.narinfo_exists(HASH_ROOT),
        "root reachable via relative symlink must be kept"
    );
    assert!(!fx.narinfo_exists(HASH_GARBAGE));
}

/// Every line of a marker that is a store path is a root, whatever the marker is called.
#[test]
fn marker_lines_are_roots() {
    let mut fx = Fixture::new();
    for (hash, name) in [(HASH_ROOT, "root"), (HASH_DEP, "dep"), (HASH_GARBAGE, "garbage")] {
        fx.add_narinfo(hash, name, &[], None);
    }
    fx.write(
        "/tmp/gcroots/ci-job-7",
        &format!("not a store path\n/nix/store/{HASH_ROOT}-root\r\n/nix/store/{HASH_DEP}-dep"),
    );

    fx.run(false);
    assert!(fx.narinfo_exists(HASH_ROOT));
    assert!(fx.narinfo_exists(HASH_DEP));
    assert!(!fx.narinfo_exists(HASH_GARBAGE));
}

/// Dotfiles, the lock directory among them, hold no roots.
#[test]
fn hidden_markers_are_skipped() {
    let mut fx = standard_fixture();
    fx.mkdir("/tmp/gcroots/.lock");
    fx.write("/tmp/gcroots/.lock/job", &format!("/nix/store/{HASH_GARBAGE}-garbage\n"));
    fx.write("/tmp/gcroots/.job.tmp", &format!("/nix/store/{HASH_GARBAGE}-garbage\n"));

    fx.run(false);
    assert!(fx.narinfo_exists(HASH_ROOT));
    assert!(!fx.narinfo_exists(HASH_GARBAGE));
}

/// File listings go with their narinfos; other files stay.
#[test]
fn listings_are_swept_and_other_files_stay() {
    let mut fx = standard_fixture();
    fx.write(&format!("/tmp/cache/{HASH_ROOT}.ls"), "{}");
    fx.write(&format!("/tmp/cache/{HASH_GARBAGE}.ls"), "{}");
    fx.write("/tmp/cache/nix-cache-info", "StoreDir: /nix/store\n");
    fx.mkdir("/tmp/cache/log");
    fx.write("/tmp/cache/log/x.drv", "log");

    fx.run(false);
    assert!(fx.is_there(&format!("/tmp/cache/{HASH_ROOT}.ls")));
    assert!(!fx.is_there(&format!("/tmp/cache/{HASH_GARBAGE}.ls")));
    assert!(fx.is_there("/tmp/cache/nix-cache-info"));
    assert!(fx.is_there("/tmp/cache/log/x.drv"));
    assert!(fx.is_there("/tmp/cache/.kiss-cache.closures"));
}

/// A second run over an unchanged cache changes nothing, whether or not the closure cache is
/// there.
#[test]
fn a_second_run_changes_nothing() {
    let mut fx = standard_fixture();
    fx.run(false);
    let names: Vec<String> = fx.nodes.keys().cloned().collect();
    assert_eq!(fx.run(false), (0, 0));
    assert_eq!(fx.nodes.keys().cloned().collect::<Vec<_>>(), names);
    fx.nodes.remove("/tmp/cache/.kiss-cache.closures");
    assert_eq!(fx.run(false), (0, 0));
    assert_eq!(fx.nodes.keys().cloned().collect::<Vec<_>>(), names);
}
