//! Narinfos and the cache that they are kept in.

use kiss_cache::binary_cache::{BinaryCache, Info, InfoError, NarInfo};
use kiss_cache::closure_cache::{
    default_path, load, read_n, rewrite, save, take, try_load, ClosureMap,
};
use kiss_cache::dep_scan::DependencyScanner;
use kiss_cache::store_hash::StoreHash;
use std::cell::RefCell;

const A: &str = "aaaaaaaaaaaaaaaaaaaaaaaaaaaaaaaa";
const B: &str = "bbbbbbbbbbbbbbbbbbbbbbbbbbbbbbbb";
const C: &str = "cccccccccccccccccccccccccccccccc";
const D: &str = "dddddddddddddddddddddddddddddddd";

fn hash(s: &str) -> StoreHash {
    StoreHash::from_name(s).unwrap()
}

fn info(url: Option<&str>, references: &[&str], deriver: Option<&str>) -> NarInfo {
    NarInfo {
        url: url.map(str::to_string),
        file_size: 12,
        nar_size: 34,
        references: references.iter().map(|r| hash(r)).collect(),
        deriver: deriver.map(hash),
    }
}

/// Everything in a narinfo, to compare.
fn parts(i: &NarInfo) -> (Option<String>, u64, u64, Vec<StoreHash>, Option<StoreHash>) {
    (i.url.clone(), i.file_size, i.nar_size, i.references.clone(), i.deriver)
}

#[test]
fn parses_the_fields() {
    let text = format!(
        "StorePath: /nix/store/{A}-x\nURL: nar/x.nar.xz\nCompression: xz\nFileSize: 12345\n\
         NarSize: 67890\r\nReferences: {B}-b  {C}-c bogus \nDeriver: {D}-x.drv \nSig: k:AAAA\n"
    );
    let i = Info::parse(b"/cache/x.narinfo", &text);
    assert_eq!(i.path, b"/cache/x.narinfo");
    assert_eq!(i.url(), Some("nar/x.nar.xz"));
    assert_eq!(i.file_size(), 12345);
    assert_eq!(i.nar_size(), 67890);
    assert_eq!(i.references(), &[format!("{B}-b"), format!("{C}-c"), "bogus".to_string()]);
    assert_eq!(i.deriver(), Some(format!("{D}-x.drv").as_str()));
    let n = i.to_nar_info();
    assert_eq!(
        parts(&n),
        (Some("nar/x.nar.xz".to_string()), 12345, 67890, vec![hash(B), hash(C)], Some(hash(D)))
    );
    assert_eq!(parts(&n.clone()), parts(&n));
}

#[test]
fn missing_and_malformed_fields_count_for_nothing() {
    let i = Info::parse(b"p", "URL:nar/x\nFileSize: many\nNarSize: -1\nDeriver: \nno colon\n");
    assert_eq!(i.url(), None);
    assert_eq!(i.file_size(), 0);
    assert_eq!(i.nar_size(), 0);
    assert_eq!(i.deriver(), None);
    assert!(i.references().is_empty());
}

#[test]
fn the_last_of_several_fields_counts() {
    let i = Info::parse(b"p", "URL: a\nURL: b\nFileSize: 1\nFileSize: x\nDeriver: d\nDeriver: \n");
    assert_eq!(i.url(), Some("b"));
    assert_eq!(i.file_size(), 0);
    assert_eq!(i.deriver(), Some("d"));
    let i = Info::parse(b"p", &format!("References: {A}-a\nReferences: \n"));
    assert!(i.references().is_empty());
}

#[test]
fn a_value_may_hold_a_colon() {
    let i = Info::parse(b"p", "URL: http://x: y\n");
    assert_eq!(i.url(), Some("http://x: y"));
}

#[test]
fn opens_by_hash_and_by_store_path() {
    let cache = BinaryCache::new(b"/cache".to_vec());
    let asked = RefCell::new(Vec::new());
    let read = |path: &[u8]| -> Result<String, String> {
        asked.borrow_mut().push(String::from_utf8(path.to_vec()).unwrap());
        Ok("URL: u\n".to_string())
    };
    assert_eq!(cache.get_info_by_hash(A, read).unwrap().url(), Some("u"));
    let store_path = format!("/nix/store/{B}-hello/bin/hello");
    assert_eq!(cache.get_info_by_store_path(store_path.as_bytes(), read).unwrap().url(), Some("u"));
    assert_eq!(
        *asked.borrow(),
        [format!("/cache/{A}.narinfo"), format!("/cache/{B}.narinfo")]
    );
    assert_eq!(Info::open(b"/x", |_: &[u8]| Ok::<_, ()>(String::new())).unwrap().path, b"/x");
}

#[test]
fn what_is_not_a_store_path_is_refused_unread() {
    let cache = BinaryCache::new(b"/cache".to_vec());
    let read = |_: &[u8]| -> Result<String, ()> { panic!("read") };
    for path in ["/nix/store", "/nix/store/short", "/tmp/x", ""] {
        assert!(matches!(
            cache.get_info_by_store_path(path.as_bytes(), read),
            Err(InfoError::NotAStorePath(_))
        ));
    }
    let mut path = format!("/nix/store/{A}-").into_bytes();
    path.push(0xff);
    assert!(matches!(cache.get_info_by_store_path(&path, read), Err(InfoError::NotAStorePath(_))));
}

#[test]
fn errors_can_be_told() {
    let cache = BinaryCache::new(b"/cache".to_vec());
    let show = |e: &&str| e.to_string();
    let refused = |path: &[u8]| match cache.get_info_by_store_path(path, |_: &[u8]| Err("gone")) {
        Err(e) => e.to_text(show),
        Ok(_) => String::new(),
    };
    assert_eq!(refused(b"/tmp/x"), "not a store path: /tmp/x");
    assert_eq!(refused(b"/tmp/\xff"), "not a store path: /tmp/\u{fffd}");
    assert_eq!(refused(format!("/nix/store/{A}-x").as_bytes()), "gone");
}

#[test]
fn errors_of_reading_come_back() {
    let cache = BinaryCache::new(b"/cache".to_vec());
    let fail = |_: &[u8]| -> Result<String, &'static str> { Err("gone") };
    assert!(matches!(cache.get_info_by_hash(A, fail), Err("gone")));
    assert!(matches!(
        cache.get_info_by_store_path(format!("/nix/store/{A}-x").as_bytes(), fail),
        Err(InfoError::Io("gone"))
    ));
}

#[test]
fn lookups_trust_the_map_only_where_the_file_is() {
    let cache = BinaryCache::new(b"/cache".to_vec());
    let mut map = ClosureMap::new();
    map.insert(hash(A), info(Some("from-map"), &[], None));
    let read = |_: &[u8]| -> Result<String, ()> { Ok("URL: from-file\n".to_string()) };
    let url = |m: &ClosureMap, h: &str, present: bool| {
        m.lookup(&cache, &hash(h), present, read).map(|i| i.url)
    };
    assert_eq!(url(&map, A, true), Some(Some("from-map".to_string())));
    assert_eq!(url(&map, A, false), None);
    assert_eq!(url(&map, B, true), Some(Some("from-file".to_string())));
    assert_eq!(url(&map, B, false), None);
    let fail = |_: &[u8]| -> Result<String, ()> { Err(()) };
    assert!(map.lookup(&cache, &hash(B), true, fail).is_none());
}

#[test]
fn closures_are_written_byte_by_byte() {
    let bytes = save(&vec![(hash(A), info(Some("nar/x"), &[B], Some(C)))]);
    let mut expected = b"NCCCLOS\x01".to_vec();
    expected.extend_from_slice(A.as_bytes());
    expected.extend_from_slice(&[5, 0]);
    expected.extend_from_slice(b"nar/x");
    expected.extend_from_slice(&12u64.to_le_bytes());
    expected.extend_from_slice(&34u64.to_le_bytes());
    expected.push(1);
    expected.extend_from_slice(C.as_bytes());
    expected.extend_from_slice(&[1, 0]);
    expected.extend_from_slice(B.as_bytes());
    assert_eq!(bytes, expected);
    assert_eq!(save(&Vec::new()), b"NCCCLOS\x01");
    assert_eq!(default_path(b"/var/cache"), b"/var/cache/.kiss-cache.closures");
    let infos = vec![(hash(A), info(Some("nar/x"), &[B], Some(C)))];
    let it = rewrite(b"/var/cache", &infos);
    assert_eq!(it.temp, b"/var/cache/.kiss-cache.closures.tmp");
    assert_eq!(it.file, b"/var/cache/.kiss-cache.closures");
    assert_eq!(it.contents, bytes);
}

#[test]
fn what_is_saved_is_loaded() {
    let infos = vec![
        (hash(A), info(Some("nar/\u{e9}.nar"), &[B, C], Some(D))),
        (hash(B), info(None, &[], None)),
        (hash(C), info(Some(""), &[A], None)),
        (hash(D), info(Some(&"u".repeat(70_000)), &[], None)),
    ];
    let map = load(Some(save(&infos).as_slice()));
    for (h, i) in &infos[..2] {
        assert_eq!(parts(map.get(h).unwrap()), parts(i));
    }
    // An empty URL, and one too long for its count, are dropped.
    assert_eq!(map.get(&hash(C)).unwrap().url, None);
    assert_eq!(map.get(&hash(C)).unwrap().references, [hash(A)]);
    assert_eq!(map.get(&hash(D)).unwrap().url, None);
}

#[test]
fn references_that_their_count_cannot_say_are_dropped() {
    let mut long = info(None, &[], None);
    long.references = vec![hash(B); 65_536];
    let map = load(Some(save(&vec![(hash(A), long)]).as_slice()));
    assert_eq!(map.get(&hash(A)).unwrap().references.len(), 65_535);
}

#[test]
fn the_last_of_several_entries_counts() {
    let infos = vec![
        (hash(A), info(Some("first"), &[], None)),
        (hash(A), info(Some("second"), &[], None)),
    ];
    let map = load(Some(save(&infos).as_slice()));
    assert_eq!(map.get(&hash(A)).unwrap().url, Some("second".to_string()));
}

#[test]
fn what_cannot_be_read_counts_as_empty() {
    let bytes = save(&vec![(hash(A), info(Some("nar/x"), &[B], Some(C)))]);
    assert!(try_load(&bytes).is_some());
    assert!(try_load(b"NCCCLOS\x01").is_some());
    for cut in 0..bytes.len() {
        assert_eq!(try_load(&bytes[..cut]).is_some(), cut == 8, "{cut}");
    }
    let mut wrong = bytes.clone();
    wrong[0] = b'X';
    assert!(try_load(&wrong).is_none());
    let mut wrong = bytes.clone();
    wrong[8] = b'-';
    assert!(try_load(&wrong).is_none(), "a key that is no hash");
    let mut wrong = bytes.clone();
    wrong[42] = 0xff;
    assert!(try_load(&wrong).is_none(), "a URL that is no text");
    let mut wrong = bytes.clone();
    wrong[8 + 32 + 2 + 5 + 16 + 1] = b'-';
    assert!(try_load(&wrong).is_none(), "a deriver that is no hash");
    let mut lone = b"NCCCLOS\x01".to_vec();
    lone.extend_from_slice(&[b'a'; 32]);
    lone.extend_from_slice(&[0; 18]);
    lone.push(1);
    lone.extend_from_slice(&[b'-'; 32]);
    lone.extend_from_slice(&[0, 0]);
    assert!(try_load(&lone).is_none());
    assert!(load(Some(lone.as_slice())).get(&hash(&"a".repeat(32))).is_none());
    assert!(load(None).get(&hash(A)).is_none());
    assert!(load(Some(b"junk")).get(&hash(A)).is_none());
}

#[test]
fn a_file_cut_short_loads_whole_entries() {
    let infos = vec![
        (hash(A), info(Some("nar/a"), &[B, C], Some(D))),
        (hash(B), info(None, &[], None)),
        (hash(C), info(Some("nar/c"), &[A], None)),
    ];
    let bytes = save(&infos);
    let ends: Vec<usize> = (0..=3)
        .map(|n| {
            let first = infos[..n].iter().map(|(h, i)| (*h, i.clone())).collect();
            save(&first).len()
        })
        .collect();
    assert_eq!(ends[0], 8);
    for cut in 0..=bytes.len() {
        match (ends.iter().position(|end| *end == cut), try_load(&bytes[..cut])) {
            (None, loaded) => assert!(loaded.is_none(), "{cut}"),
            (Some(n), Some(map)) => {
                for (k, (h, i)) in infos.iter().enumerate() {
                    assert_eq!(map.get(h).map(parts), (k < n).then_some(parts(i)), "{cut}");
                }
            }
            (Some(_), None) => panic!("{cut}"),
        }
    }
}

#[test]
fn bytes_are_taken_from_the_front() {
    let mut r: &[u8] = b"abcde";
    assert_eq!(take(&mut r, 2), Some(&b"ab"[..]));
    assert_eq!(read_n::<2>(&mut r), Some(*b"cd"));
    assert_eq!(take(&mut r, 2), None);
    assert_eq!(r, b"e");
    assert_eq!(take(&mut r, 1), Some(&b"e"[..]));
    assert_eq!(take(&mut r, 0), Some(&b""[..]));
}

#[test]
fn a_scan_walks_the_closure_once() {
    let asked = RefCell::new(Vec::new());
    let mut scanner = DependencyScanner::default();
    scanner.enqueue(hash(A));
    scanner.enqueue(hash(A));
    let found = scanner.scan(|step| {
        asked.borrow_mut().push((step.hash.as_str().to_string(), step.position, step.length));
        match step.hash.as_str() {
            // A needs B twice and C; B needs A again; C has no narinfo.
            A => Some(info(Some("a"), &[B, B], Some(C))),
            B => Some(info(Some("b"), &[A], None)),
            _ => None,
        }
    });
    assert_eq!(
        *asked.borrow(),
        [(A.to_string(), 1, 1), (B.to_string(), 2, 3), (C.to_string(), 3, 3)]
    );
    let hashes: Vec<&str> = found.iter().map(|(h, _)| h.as_str()).collect();
    assert_eq!(hashes, [A, B]);
}

#[test]
fn a_closure_holds_hashes_without_metadata_too() {
    let mut scanner = DependencyScanner::new();
    scanner.enqueue(hash(A));
    let closure = scanner.closure(|step| match step.hash.as_str() {
        A => Some(info(None, &[B, C], Some(D))),
        C => Some(info(None, &[A], None)),
        _ => None,
    });
    assert_eq!(closure.hashes, [hash(A), hash(B), hash(C), hash(D)]);
    let found: Vec<StoreHash> = closure.infos.iter().map(|(h, _)| *h).collect();
    assert_eq!(found, [hash(A), hash(C)]);
}

#[test]
fn an_empty_scan_asks_nothing() {
    let found = DependencyScanner::new().scan(|_| panic!("asked"));
    assert!(found.is_empty());
}

#[test]
fn a_large_closure_is_found_whole() {
    let name = |i: u32| format!("{i:0>32x}");
    let mut scanner = DependencyScanner::new();
    scanner.enqueue(hash(&name(0)));
    let found = scanner.scan(|step| {
        let i = u32::from_str_radix(step.hash.as_str(), 16).unwrap();
        let refs: Vec<String> = (1..=8).map(|j| i + j).filter(|r| *r < 2000).map(name).collect();
        let refs: Vec<&str> = refs.iter().map(String::as_str).collect();
        Some(info(None, &refs, None))
    });
    assert_eq!(found.len(), 2000);
}
