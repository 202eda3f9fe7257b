//! What a run keeps.

use kiss_cache::binary_cache::NarInfo;
use kiss_cache::dep_scan::Closure;
use kiss_cache::prune::{
    listing_name, malformed_warning, narinfo_name, sweep, Fate, KeepSet, Sweep, SweptDir,
};
use kiss_cache::store_hash::StoreHash;

const A: &str = "aaaaaaaaaaaaaaaaaaaaaaaaaaaaaaaa";
const B: &str = "bbbbbbbbbbbbbbbbbbbbbbbbbbbbbbbb";

fn hash(s: &str) -> StoreHash {
    StoreHash::from_name(s).unwrap()
}

fn info(url: Option<&str>, file_size: u64, nar_size: u64) -> NarInfo {
    NarInfo {
        url: url.map(str::to_string),
        file_size,
        nar_size,
        references: Vec::new(),
        deriver: None,
    }
}

#[test]
fn names() {
    assert_eq!(narinfo_name(hash(A)), format!("{A}.narinfo").into_bytes());
    assert_eq!(listing_name(hash(A)), format!("{A}.ls").into_bytes());
    assert_eq!(
        malformed_warning(&hash(A)),
        format!("Malformed narinfo (missing URL): {A}.narinfo")
    );
}

#[test]
fn sizes_add_up_and_wrap() {
    let keep = KeepSet::keep_all(&Closure {
        hashes: vec![hash(A), hash(B)],
        infos: vec![
            (hash(A), info(Some("nar/a.nar"), 1024, 1536)),
            (hash(B), info(Some("nar/b.nar"), 1024, 512)),
        ],
    });
    assert_eq!((keep.file_size(), keep.nar_size()), (2048, 2048));
    assert_eq!(keep.message(), "2.00 KiB in 2.00 KiB archive files");
    let mut keep = KeepSet::new();
    assert_eq!(keep.message(), "0 B in 0 B archive files");
    keep.keep(hash(A), &info(None, u64::MAX, 1));
    keep.keep(hash(B), &info(None, 3, 1));
    assert_eq!((keep.file_size(), keep.nar_size()), (2, 2));
}

#[test]
fn a_store_path_without_an_archive_is_noted_and_kept() {
    let mut keep = KeepSet::new();
    keep.keep(hash(A), &info(None, 0, 0));
    keep.keep(hash(B), &info(Some("nar/.."), 0, 0));
    assert_eq!(keep.malformed(), &[hash(A), hash(B)]);
    for h in [A, B] {
        assert!(!keep.should_delete(SweptDir::Infos, format!("{h}.narinfo").as_bytes()));
    }
    assert!(keep.should_delete(SweptDir::Archives, b"x.nar"));
}

#[test]
fn a_closure_keeps_all_its_listings() {
    let keep = KeepSet::keep_all(&Closure {
        hashes: vec![hash(A), hash(B)],
        infos: vec![(hash(A), info(None, 0, 0))],
    });
    let goes = |name: String| keep.should_delete(SweptDir::Infos, name.as_bytes());
    assert!(!goes(format!("{A}.narinfo")) && !goes(format!("{A}.ls")));
    assert!(goes(format!("{B}.narinfo")) && !goes(format!("{B}.ls")));
    let mut keep = KeepSet::new();
    keep.keep_listing(hash(B));
    assert!(!keep.should_delete(SweptDir::Infos, format!("{B}.ls").as_bytes()));
    assert!(keep.should_delete(SweptDir::Infos, format!("{A}.ls").as_bytes()));
}

#[test]
fn only_the_last_name_of_a_url_counts() {
    let mut keep = KeepSet::new();
    keep.keep(hash(A), &info(Some("https://elsewhere/nar/x.nar.zst"), 0, 0));
    assert!(!keep.should_delete(SweptDir::Archives, b"x.nar.zst"));
    assert!(keep.should_delete(SweptDir::Archives, b"nar/x.nar.zst"));
    assert!(keep.malformed().is_empty());
}

#[test]
fn only_narinfos_and_listings_are_swept_at_the_top() {
    let keep = KeepSet::new();
    for name in ["x.narinfo", ".narinfo", "x.ls", "x.y.ls"] {
        assert!(keep.should_delete(SweptDir::Infos, name.as_bytes()), "{name}");
    }
    for name in
        ["nix-cache-info", "x.narinfo.tmp", "ls", "nar", "log", ".kiss-cache.closures", ""]
    {
        assert!(!keep.should_delete(SweptDir::Infos, name.as_bytes()), "{name}");
    }
    assert!(keep.should_delete(SweptDir::Archives, b"anything"));
}

#[test]
fn a_sweep_counts_what_it_can_and_removes_all_garbage() {
    let mut keep = KeepSet::new();
    keep.keep(hash(A), &info(Some("nar/a.nar"), 0, 0));
    let files = vec![
        (b"a.nar".to_vec(), Some(1)),
        (b"b.nar".to_vec(), Some(20)),
        (b"c.nar".to_vec(), None),
        (b"d.nar".to_vec(), Some(300)),
    ];
    let (removed, total) = sweep(&keep, SweptDir::Archives, false, &files);
    assert_eq!(removed, [b"b.nar".to_vec(), b"c.nar".to_vec(), b"d.nar".to_vec()]);
    assert_eq!(total, 320);
    let (removed, total) = sweep(&keep, SweptDir::Archives, true, &files);
    assert!(removed.is_empty());
    assert_eq!(total, 320);
}

#[test]
fn a_sweep_decides_file_by_file() {
    let mut keep = KeepSet::new();
    keep.keep(hash(A), &info(None, 0, 0));
    let kept = format!("{A}.narinfo");
    let gone = format!("{B}.narinfo");
    let mut wet = Sweep::new(&keep, SweptDir::Infos, false);
    assert!(!wet.wants(kept.as_bytes()) && wet.wants(gone.as_bytes()));
    assert_eq!(wet.meet(kept.as_bytes(), Some(5)), Fate::Kept);
    assert_eq!(wet.meet(gone.as_bytes(), Some(7)), Fate::Removed);
    assert_eq!(wet.meet(gone.as_bytes(), None), Fate::Removed);
    assert_eq!(wet.total(), 7);
    let mut dry = Sweep::new(&keep, SweptDir::Infos, true);
    assert_eq!(dry.meet(gone.as_bytes(), Some(u64::MAX)), Fate::Counted);
    assert_eq!(dry.meet(gone.as_bytes(), Some(2)), Fate::Counted);
    assert_eq!(dry.total(), 1);
}
