//! Persistent cache of parsed narinfo metadata, keyed by store hash.
//!
//! A narinfo's URL, sizes, References and Deriver never change once the file is written.
//! Keeping them on disk lets later runs skip parsing the narinfo of every hash already seen.
//! The cache is purely an optimization: one that cannot be read counts as empty.

use crate::binary_cache;
use crate::binary_cache::{BinaryCache, NarInfo, NarInfoView};
use crate::path;
use crate::path::join;
use crate::store_hash;
use crate::store_hash::StoreHash;
use crate::text;
use crate::text::{append_run, same_run, utf8_text};
use rustc_hash::FxHashMap;
use vstd::prelude::*;
use vstd::slice::{slice_subrange, slice_to_vec};
use vstd::utf8::*;

verus! {

// ---------------------------------------------------------------------------------------------
// The map
// ---------------------------------------------------------------------------------------------
/// What a hash map says of each hash in it.
pub uninterp spec fn fx_entries(map: FxHashMap<[u8; 32], NarInfo>) -> Map<Seq<u8>, NarInfoView>;

/// A map with nothing in it.
pub open spec fn no_entries() -> Map<Seq<u8>, NarInfoView> {
    Map::empty()
}

/// `FxHashMap::default`: a map with nothing in it.
#[verifier::external_body]
fn fx_map_new() -> (r: FxHashMap<[u8; 32], NarInfo>)
    ensures
        fx_entries(r) == no_entries(),
{
    FxHashMap::default()
}

/// `FxHashMap::insert`: sets what the map says of a hash and returns what it said before.
#[verifier::external_body]
fn fx_map_insert(map: &mut FxHashMap<[u8; 32], NarInfo>, hash: [u8; 32], info: NarInfo) -> (r:
    Option<NarInfo>)
    ensures
        fx_entries(*final(map)) == fx_entries(*old(map)).insert(hash@, info@),
        match r {
            Some(i) => fx_entries(*old(map)).contains_key(hash@) && i@ == fx_entries(
                *old(map),
            )[hash@],
            None => !fx_entries(*old(map)).contains_key(hash@),
        },
{
    map.insert(hash, info)
}

/// `FxHashMap::get`: what the map says of a hash.
#[verifier::external_body]
fn fx_map_get<'a>(map: &'a FxHashMap<[u8; 32], NarInfo>, hash: &[u8; 32]) -> (r: Option<
    &'a NarInfo,
>)
    ensures
        match r {
            Some(i) => fx_entries(*map).contains_key(hash@) && i@ == fx_entries(*map)[hash@],
            None => !fx_entries(*map).contains_key(hash@),
        },
{
    map.get(hash)
}

/// Narinfo metadata by store hash.
pub struct ClosureMap {
    map: FxHashMap<[u8; 32], NarInfo>,
}

impl View for ClosureMap {
    type V = Map<Seq<u8>, NarInfoView>;

    closed spec fn view(&self) -> Map<Seq<u8>, NarInfoView> {
        fx_entries(self.map)
    }
}

impl ClosureMap {
    /// The empty map.
    pub fn new() -> (r: Self)
        ensures
            r@ == no_entries(),
    {
        ClosureMap { map: fx_map_new() }
    }

    /// Sets the metadata of a hash.
    pub fn insert(&mut self, hash: StoreHash, info: NarInfo)
        ensures
            final(self)@ == old(self)@.insert(hash@, info@),
    {
        let _ = fx_map_insert(&mut self.map, *hash.as_bytes(), info);
    }

    /// The metadata of a hash.
    pub fn get(&self, hash: &StoreHash) -> (r: Option<&NarInfo>)
        ensures
            match r {
                Some(i) => self@.contains_key(hash@) && i@ == self@[hash@],
                None => !self@.contains_key(hash@),
            },
    {
        fx_map_get(&self.map, hash.as_bytes())
    }

    /// The metadata of a hash in a cache. Where the narinfo file of the hash is present, what the
    /// map says of it is trusted, and the file is read only if the map says nothing. Without the
    /// file the hash has no metadata, whatever the map says; nor where the file cannot be read.
    pub fn lookup<E, F: FnOnce(&[u8]) -> Result<String, E>>(
        &self,
        cache: &BinaryCache,
        hash: &StoreHash,
        present: bool,
        read: F,
    ) -> (r: Option<NarInfo>)
        requires
            forall|file: &[u8]| #[trigger] call_requires(read, (file,)),
        ensures
            !present ==> r is None,
            present && self@.contains_key(hash@) ==> r is Some && r->0@ == self@[hash@],
            present && !self@.contains_key(hash@) ==> exists|
                file: &[u8],
                text: Result<String, E>,
            |
                {
                    &&& #[trigger] call_ensures(read, (file,), text)
                    &&& file@ == binary_cache::narinfo_path(cache.path@, hash@)
                    &&& match text {
                        Ok(t) => r is Some && r->0@ == binary_cache::nar_info_of(
                            binary_cache::info_of(file@, t@).fields,
                        ),
                        Err(e) => r is None,
                    }
                },
    {
        if !present {
            return None;
        }
        match self.get(hash) {
            Some(info) => Some(info.clone()),
            None => match cache.get_info_by_hash(hash.as_str(), read) {
                Ok(info) => Some(info.to_nar_info()),
                Err(_) => None,
            },
        }
    }
}

// ---------------------------------------------------------------------------------------------
// The format
// ---------------------------------------------------------------------------------------------
/// What a cache file begins with.
pub open spec fn magic() -> Seq<u8> {
    seq![0x4eu8, 0x43, 0x43, 0x43, 0x4c, 0x4f, 0x53, 0x01]
}

/// The most that a two-byte count can say.
pub const COUNT_MAX: usize = 0xffff;

/// A number in `width` bytes, the lowest first.
pub open spec fn le_bytes(n: nat, width: nat) -> Seq<u8>
    decreases width,
{
    if width == 0 {
        Seq::empty()
    } else {
        seq![(n % 256) as u8] + le_bytes(n / 256, (width - 1) as nat)
    }
}

/// The number that bytes stand for, the lowest first.
pub open spec fn le_value(b: Seq<u8>) -> nat
    decreases b.len(),
{
    if b.len() == 0 {
        0
    } else {
        b[0] as nat + 256 * le_value(b.drop_first())
    }
}

/// The bytes of a URL in the file. One that is too long for its count is left out.
pub open spec fn url_bytes(url: Option<Seq<char>>) -> Seq<u8> {
    match url {
        Some(u) => if encode_utf8(u).len() <= COUNT_MAX {
            encode_utf8(u)
        } else {
            Seq::empty()
        },
        None => Seq::empty(),
    }
}

/// The references in the file: as many as their count can say.
pub open spec fn kept_references(refs: Seq<Seq<u8>>) -> Seq<Seq<u8>> {
    if refs.len() <= COUNT_MAX {
        refs
    } else {
        refs.take(COUNT_MAX as int)
    }
}

/// Byte strings one after another.
pub open spec fn concat(parts: Seq<Seq<u8>>) -> Seq<u8>
    decreases parts.len(),
{
    if parts.len() == 0 {
        Seq::empty()
    } else {
        concat(parts.drop_last()) + parts.last()
    }
}

/// The bytes of an optional hash: a flag, and the hash where there is one.
pub open spec fn deriver_bytes(deriver: Option<Seq<u8>>) -> Seq<u8> {
    match deriver {
        Some(d) => seq![1u8] + d,
        None => seq![0u8],
    }
}

/// The bytes of one entry.
pub open spec fn entry_bytes(hash: Seq<u8>, info: NarInfoView) -> Seq<u8> {
    let url = url_bytes(info.url);
    let refs = kept_references(info.references);
    hash + le_bytes(url.len(), 2) + url + le_bytes(info.file_size as nat, 8)
        + le_bytes(info.nar_size as nat, 8) + deriver_bytes(info.deriver) + le_bytes(
        refs.len(),
        2,
    ) + concat(refs)
}

/// The bytes of entries one after another.
pub open spec fn entries_bytes(entries: Seq<(Seq<u8>, NarInfoView)>) -> Seq<u8>
    decreases entries.len(),
{
    if entries.len() == 0 {
        Seq::empty()
    } else {
        entries_bytes(entries.drop_last()) + entry_bytes(entries.last().0, entries.last().1)
    }
}

/// A whole cache file.
pub open spec fn file_bytes(entries: Seq<(Seq<u8>, NarInfoView)>) -> Seq<u8> {
    magic() + entries_bytes(entries)
}

/// Hashes and metadata as they stand in a list.
pub open spec fn entries(v: Seq<(StoreHash, NarInfo)>) -> Seq<(Seq<u8>, NarInfoView)> {
    v.map_values(|e: (StoreHash, NarInfo)| (e.0@, e.1@))
}

/// The first `n` bytes, and the rest.
pub open spec fn cut(b: Seq<u8>, n: int) -> Option<(Seq<u8>, Seq<u8>)> {
    if b.len() >= n {
        Some((b.take(n), b.skip(n)))
    } else {
        None
    }
}

/// A hash, and the rest.
pub open spec fn cut_hash(b: Seq<u8>) -> Option<(Seq<u8>, Seq<u8>)> {
    match cut(b, 32) {
        Some((h, rest)) => if store_hash::is_hash(h) {
            Some((h, rest))
        } else {
            None
        },
        None => None,
    }
}

/// A number of `width` bytes, and the rest.
pub open spec fn cut_number(b: Seq<u8>, width: int) -> Option<(nat, Seq<u8>)> {
    match cut(b, width) {
        Some((n, rest)) => Some((le_value(n), rest)),
        None => None,
    }
}

/// A counted URL, and the rest. A count of zero stands for no URL.
pub open spec fn cut_url(b: Seq<u8>) -> Option<(Option<Seq<char>>, Seq<u8>)> {
    match cut_number(b, 2) {
        None => None,
        Some((n, rest)) => if n == 0 {
            Some((None, rest))
        } else {
            match cut(rest, n as int) {
                None => None,
                Some((url, rest)) => if valid_utf8(url) {
                    Some((Some(decode_utf8(url)), rest))
                } else {
                    None
                },
            }
        },
    }
}

/// A flagged hash, and the rest. A flag of zero stands for no hash.
pub open spec fn cut_deriver(b: Seq<u8>) -> Option<(Option<Seq<u8>>, Seq<u8>)> {
    match cut(b, 1) {
        None => None,
        Some((flag, rest)) => if flag[0] == 0 {
            Some((None, rest))
        } else {
            match cut_hash(rest) {
                None => None,
                Some((h, rest)) => Some((Some(h), rest)),
            }
        },
    }
}

/// `n` hashes, and the rest.
pub open spec fn cut_hashes(b: Seq<u8>, n: nat) -> Option<(Seq<Seq<u8>>, Seq<u8>)>
    decreases n,
{
    if n == 0 {
        Some((Seq::empty(), b))
    } else {
        match cut_hashes(b, (n - 1) as nat) {
            None => None,
            Some((hs, rest)) => match cut_hash(rest) {
                None => None,
                Some((h, rest)) => Some((hs.push(h), rest)),
            },
        }
    }
}

/// Counted references, and the rest.
pub open spec fn cut_references(b: Seq<u8>) -> Option<(Seq<Seq<u8>>, Seq<u8>)> {
    match cut_number(b, 2) {
        None => None,
        Some((n, rest)) => cut_hashes(rest, n),
    }
}

/// The metadata of an entry, and the rest.
pub open spec fn cut_info(b: Seq<u8>) -> Option<(NarInfoView, Seq<u8>)> {
    match cut_url(b) {
        None => None,
        Some((url, b)) => match cut_number(b, 8) {
            None => None,
            Some((file_size, b)) => match cut_number(b, 8) {
                None => None,
                Some((nar_size, b)) => match cut_deriver(b) {
                    None => None,
                    Some((deriver, b)) => match cut_references(b) {
                        None => None,
                        Some((references, b)) => Some(
                            (
                                NarInfoView {
                                    url,
                                    file_size: file_size as u64,
                                    nar_size: nar_size as u64,
                                    references,
                                    deriver,
                                },
                                b,
                            ),
                        ),
                    },
                },
            },
        },
    }
}

/// An entry, and the rest.
pub open spec fn cut_entry(b: Seq<u8>) -> Option<(Seq<u8>, NarInfoView, Seq<u8>)> {
    match cut_hash(b) {
        None => None,
        Some((hash, b)) => match cut_info(b) {
            None => None,
            Some((info, b)) => Some((hash, info, b)),
        },
    }
}

/// Reading references never makes more bytes.
proof fn lemma_hashes_shrink(b: Seq<u8>, n: nat)
    ensures
        cut_hashes(b, n) matches Some((hs, rest)) ==> rest.len() <= b.len(),
    decreases n,
{
    if n > 0 {
        lemma_hashes_shrink(b, (n - 1) as nat);
    }
}

/// Reading an entry uses up bytes.
pub proof fn lemma_entry_shrinks(b: Seq<u8>)
    ensures
        cut_entry(b) matches Some((h, i, rest)) ==> rest.len() < b.len(),
{
    assert forall|b: Seq<u8>, n: nat| #[trigger] cut_hashes(b, n) matches Some((hs, rest)) implies {
        cut_hashes(b, n) matches Some((hs, rest)) ==> rest.len() <= b.len()
    } by {
        lemma_hashes_shrink(b, n);
    }
}

/// The entries in `b`, put into `m` in order: where a hash comes twice, the later entry holds.
/// Anything that is not a whole number of entries is no cache.
pub open spec fn decoded_into(b: Seq<u8>, m: Map<Seq<u8>, NarInfoView>) -> Option<
    Map<Seq<u8>, NarInfoView>,
>
    decreases b.len(),
{
    if b.len() == 0 {
        Some(m)
    } else {
        proof {
            lemma_entry_shrinks(b);
        }
        match cut_entry(b) {
            None => None,
            Some((hash, info, rest)) => decoded_into(rest, m.insert(hash, info)),
        }
    }
}

/// What a cache file says, where it is one.
pub open spec fn decoded(b: Seq<u8>) -> Option<Map<Seq<u8>, NarInfoView>> {
    match cut(b, 8) {
        None => None,
        Some((head, rest)) => if head == magic() {
            decoded_into(rest, no_entries())
        } else {
            None
        },
    }
}

// ---------------------------------------------------------------------------------------------
// Reading
// ---------------------------------------------------------------------------------------------
/// Takes the first `n` bytes off `r`. Where there are fewer, nothing is taken.
pub fn take<'a>(r: &mut &'a [u8], n: usize) -> (head: Option<&'a [u8]>)
    ensures
        match head {
            Some(h) => cut(old(r)@, n as int) == Some((h@, final(r)@)),
            None => cut(old(r)@, n as int) is None && final(r)@ == old(r)@,
        },
{
    let all: &'a [u8] = *r;
    if all.len() < n {
        return None;
    }
    *r = slice_subrange(all, n, all.len());
    let head = slice_subrange(all, 0, n);
    assert(head@ =~= all@.take(n as int));
    assert((*r)@ =~= all@.skip(n as int));
    Some(head)
}

/// Takes an array of `N` bytes off `r`.
pub fn read_n<const N: usize>(r: &mut &[u8]) -> (out: Option<[u8; N]>)
    ensures
        match out {
            Some(a) => cut(old(r)@, N as int) == Some((a@, final(r)@)),
            None => cut(old(r)@, N as int) is None && final(r)@ == old(r)@,
        },
{
    let head = match take(r, N) {
        Some(h) => h,
        None => return None,
    };
    let mut out: [u8; N] = [0u8; N];
    let mut i: usize = 0;
    while i < N
        invariant
            head@.len() == N,
            i <= N,
            forall|j: int| 0 <= j < i ==> out@[j] == head@[j],
        decreases N - i,
    {
        out[i] = head[i];
        i = i + 1;
    }
    assert(out@ =~= head@);
    Some(out)
}

/// How many numbers `width` bytes can say.
pub open spec fn le_bound(width: nat) -> nat
    decreases width,
{
    if width == 0 {
        1
    } else {
        256 * le_bound((width - 1) as nat)
    }
}

/// Up to eight bytes stand for a number of 64 bits.
pub proof fn lemma_value_fits(b: Seq<u8>)
    requires
        b.len() <= 8,
    ensures
        le_value(b) <= u64::MAX,
{
    lemma_value_bound(b);
    reveal_with_fuel(le_bound, 9);
}

/// Bytes stand for a number that as many bytes can say.
pub proof fn lemma_value_bound(b: Seq<u8>)
    ensures
        le_value(b) < le_bound(b.len()),
    decreases b.len(),
{
    if b.len() > 0 {
        lemma_value_bound(b.drop_first());
    }
}

/// Takes a number of `width` bytes off `r`.
fn read_number(r: &mut &[u8], width: usize) -> (out: Option<u64>)
    requires
        width <= 8,
    ensures
        match out {
            Some(n) => cut_number(old(r)@, width as int) == Some((n as nat, final(r)@)),
            None => cut_number(old(r)@, width as int) is None,
        },
{
    let head = match take(r, width) {
        Some(h) => h,
        None => return None,
    };
    let mut value: u64 = 0;
    let mut i: usize = width;
    assert(head@.skip(width as int) =~= Seq::<u8>::empty());
    while i > 0
        invariant
            head@.len() == width <= 8,
            i <= width,
            value == le_value(head@.skip(i as int)),
        decreases i,
    {
        assert(head@.skip(i - 1).drop_first() =~= head@.skip(i as int));
        proof {
            lemma_value_fits(head@.skip(i - 1));
        }
        i = i - 1;
        value = head[i] as u64 + 256 * value;
    }
    assert(head@.skip(0) =~= head@);
    Some(value)
}

/// Takes a counted URL off `r`.
fn read_url(r: &mut &[u8]) -> (out: Option<Option<String>>)
    ensures
        match out {
            Some(url) => cut_url(old(r)@) == Some((text::opt_text(url), final(r)@)),
            None => cut_url(old(r)@) is None,
        },
{
    proof {
        lemma_count_fits(old(r)@);
    }
    let n = match read_number(r, 2) {
        Some(n) => n as usize,
        None => return None,
    };
    if n == 0 {
        return Some(None);
    }
    let url = match take(r, n) {
        Some(u) => u,
        None => return None,
    };
    match utf8_text(url) {
        Some(text) => Some(Some(text.to_owned())),
        None => None,
    }
}

/// Two bytes never say more than the largest count.
pub proof fn lemma_count_fits(b: Seq<u8>)
    ensures
        cut_number(b, 2) matches Some((n, rest)) ==> n <= COUNT_MAX,
{
    if b.len() >= 2 {
        lemma_value_bound(b.take(2));
        reveal_with_fuel(le_bound, 3);
    }
}

/// Takes a hash off `r`.
fn read_hash(r: &mut &[u8]) -> (out: Option<StoreHash>)
    ensures
        match out {
            Some(h) => cut_hash(old(r)@) == Some((h@, final(r)@)),
            None => cut_hash(old(r)@) is None,
        },
{
    match read_n::<32>(r) {
        Some(h) => StoreHash::from_bytes(h),
        None => None,
    }
}

/// Takes a flagged hash off `r`.
fn read_deriver(r: &mut &[u8]) -> (out: Option<Option<StoreHash>>)
    ensures
        match out {
            Some(d) => cut_deriver(old(r)@) == Some((binary_cache::opt_hash(d), final(r)@)),
            None => cut_deriver(old(r)@) is None,
        },
{
    let flag = match read_n::<1>(r) {
        Some(f) => f,
        None => return None,
    };
    if flag[0] == 0 {
        return Some(None);
    }
    match read_hash(r) {
        Some(h) => Some(Some(h)),
        None => None,
    }
}

/// Once a hash is missing, more of them cannot be had either.
proof fn lemma_hashes_stuck(b: Seq<u8>, k: nat, n: nat)
    requires
        k <= n,
        cut_hashes(b, k) is None,
    ensures
        cut_hashes(b, n) is None,
    decreases n,
{
    if k < n {
        lemma_hashes_stuck(b, k, (n - 1) as nat);
    }
}

/// Takes counted references off `r`.
fn read_references(r: &mut &[u8]) -> (out: Option<Vec<StoreHash>>)
    ensures
        match out {
            Some(v) => cut_references(old(r)@) == Some((binary_cache::hashes(v@), final(r)@)),
            None => cut_references(old(r)@) is None,
        },
{
    proof {
        lemma_count_fits(old(r)@);
    }
    let n = match read_number(r, 2) {
        Some(n) => n as usize,
        None => return None,
    };
    let ghost start = (*r)@;
    let mut out: Vec<StoreHash> = Vec::new();
    let mut i: usize = 0;
    assert(binary_cache::hashes(out@) =~= Seq::<Seq<u8>>::empty());
    while i < n
        invariant
            i <= n,
            cut_number(old(r)@, 2) == Some((n as nat, start)),
            cut_hashes(start, i as nat) == Some((binary_cache::hashes(out@), (*r)@)),
        decreases n - i,
    {
        let ghost before = out@;
        match read_hash(r) {
            Some(h) => {
                out.push(h);
                assert(binary_cache::hashes(out@) =~= binary_cache::hashes(before).push(h@));
            },
            None => {
                proof {
                    lemma_hashes_stuck(start, (i + 1) as nat, n as nat);
                }
                return None;
            },
        }
        i = i + 1;
    }
    Some(out)
}

/// Takes the metadata of an entry off `r`.
fn read_info(r: &mut &[u8]) -> (out: Option<NarInfo>)
    ensures
        match out {
            Some(i) => cut_info(old(r)@) == Some((i@, final(r)@)),
            None => cut_info(old(r)@) is None,
        },
{
    let url = match read_url(r) {
        Some(u) => u,
        None => return None,
    };
    let file_size = match read_number(r, 8) {
        Some(n) => n,
        None => return None,
    };
    let nar_size = match read_number(r, 8) {
        Some(n) => n,
        None => return None,
    };
    let deriver = match read_deriver(r) {
        Some(d) => d,
        None => return None,
    };
    let references = match read_references(r) {
        Some(v) => v,
        None => return None,
    };
    Some(NarInfo { url, file_size, nar_size, references, deriver })
}

/// Reads a cache file.
pub fn try_load(buf: &[u8]) -> (r: Option<ClosureMap>)
    ensures
        match r {
            Some(m) => decoded(buf@) == Some(m@),
            None => decoded(buf@) is None,
        },
{
    let mut rest: &[u8] = buf;
    let head = match read_n::<8>(&mut rest) {
        Some(h) => h,
        None => return None,
    };
    let expected: [u8; 8] = [0x4e, 0x43, 0x43, 0x43, 0x4c, 0x4f, 0x53, 0x01];
    assert(expected@ =~= magic());
    if !same_run(head.as_slice(), expected.as_slice()) {
        return None;
    }
    let mut map = ClosureMap::new();
    while rest.len() > 0
        invariant
            decoded(buf@) == decoded_into(rest@, map@),
        decreases rest@.len(),
    {
        proof {
            lemma_entry_shrinks(rest@);
        }
        let hash = match read_hash(&mut rest) {
            Some(h) => h,
            None => return None,
        };
        let info = match read_info(&mut rest) {
            Some(i) => i,
            None => return None,
        };
        map.insert(hash, info);
    }
    Some(map)
}

/// Loads the cache from the contents of its file. Where there are none, or they do not parse,
/// the result is an empty map.
#[must_use]
pub fn load(contents: Option<&[u8]>) -> (r: ClosureMap)
    ensures
        r@ == loaded(match contents {
            Some(buf) => Some(buf@),
            None => None,
        }),
{
    match contents {
        Some(buf) => match try_load(buf) {
            Some(map) => map,
            None => ClosureMap::new(),
        },
        None => ClosureMap::new(),
    }
}

/// The cache that is loaded from the contents of a file.
pub open spec fn loaded(contents: Option<Seq<u8>>) -> Map<Seq<u8>, NarInfoView> {
    match contents {
        Some(b) => match decoded(b) {
            Some(m) => m,
            None => no_entries(),
        },
        None => no_entries(),
    }
}

/// The file that holds the cache of a cache directory.
#[must_use]
pub fn default_path(cache_dir: &[u8]) -> (r: Vec<u8>)
    ensures
        r@ == path::joined(cache_dir@, encode_utf8(".kiss-cache.closures"@)),
{
    join(cache_dir, ".kiss-cache.closures".as_bytes())
}

// ---------------------------------------------------------------------------------------------
// Writing
// ---------------------------------------------------------------------------------------------
/// Appends a number in `width` bytes.
fn write_number(out: &mut Vec<u8>, n: u64, width: usize)
    ensures
        final(out)@ == old(out)@ + le_bytes(n as nat, width as nat),
    decreases width,
{
    if width > 0 {
        out.push((n % 256) as u8);
        write_number(out, n / 256, width - 1);
        assert(out@ =~= old(out)@ + le_bytes(n as nat, width as nat));
    }
    assert(out@ =~= old(out)@ + le_bytes(n as nat, width as nat));
}

/// Appends a counted URL.
fn write_url(out: &mut Vec<u8>, url: &Option<String>)
    ensures
        final(out)@ == old(out)@ + (le_bytes(
            url_bytes(text::opt_text(*url)).len(),
            2,
        ) + url_bytes(text::opt_text(*url))),
{
    match url {
        Some(u) => {
            let bytes = u.as_str().as_bytes();
            if bytes.len() <= COUNT_MAX {
                write_number(out, bytes.len() as u64, 2);
                append_run(out, bytes);
            } else {
                write_number(out, 0, 2);
            }
        },
        None => write_number(out, 0, 2),
    }
    assert(out@ =~= old(out)@ + (le_bytes(
        url_bytes(text::opt_text(*url)).len(),
        2,
    ) + url_bytes(text::opt_text(*url))));
}

/// Appends a flagged hash.
fn write_deriver(out: &mut Vec<u8>, deriver: &Option<StoreHash>)
    ensures
        final(out)@ == old(out)@ + deriver_bytes(binary_cache::opt_hash(*deriver)),
{
    match deriver {
        Some(d) => {
            out.push(1);
            append_run(out, d.as_bytes().as_slice());
        },
        None => out.push(0),
    }
    assert(out@ =~= old(out)@ + deriver_bytes(binary_cache::opt_hash(*deriver)));
}

/// Appends counted references.
fn write_references(out: &mut Vec<u8>, references: &Vec<StoreHash>)
    ensures
        final(out)@ == old(out)@ + (le_bytes(
            kept_references(binary_cache::hashes(references@)).len(),
            2,
        ) + concat(kept_references(binary_cache::hashes(references@)))),
{
    let n: usize = if references.len() <= COUNT_MAX {
        references.len()
    } else {
        COUNT_MAX
    };
    let ghost kept = kept_references(binary_cache::hashes(references@));
    write_number(out, n as u64, 2);
    let ghost counted = out@;
    let mut i: usize = 0;
    assert(kept.take(0) =~= Seq::<Seq<u8>>::empty());
    while i < n
        invariant
            n <= references@.len(),
            kept == kept_references(binary_cache::hashes(references@)),
            kept.len() == n,
            i <= n,
            out@ == counted + concat(kept.take(i as int)),
        decreases n - i,
    {
        append_run(out, references[i].as_bytes().as_slice());
        assert(kept.take(i + 1).drop_last() =~= kept.take(i as int));
        assert(kept[i as int] == references@[i as int]@);
        assert(out@ =~= counted + concat(kept.take(i + 1)));
        i = i + 1;
    }
    assert(kept.take(n as int) =~= kept);
    assert(out@ =~= old(out)@ + (le_bytes(kept.len(), 2) + concat(kept)));
}

/// Appends one entry.
fn write_entry(out: &mut Vec<u8>, hash: &StoreHash, info: &NarInfo)
    ensures
        final(out)@ == old(out)@ + entry_bytes(hash@, info@),
{
    append_run(out, hash.as_bytes().as_slice());
    write_url(out, &info.url);
    write_number(out, info.file_size, 8);
    write_number(out, info.nar_size, 8);
    write_deriver(out, &info.deriver);
    write_references(out, &info.references);
    assert(out@ =~= old(out)@ + entry_bytes(hash@, info@));
}

/// The contents of a cache file that holds the given metadata.
pub fn save(infos: &Vec<(StoreHash, NarInfo)>) -> (r: Vec<u8>)
    ensures
        r@ == file_bytes(entries(infos@)),
{
    let head: [u8; 8] = [0x4e, 0x43, 0x43, 0x43, 0x4c, 0x4f, 0x53, 0x01];
    assert(head@ =~= magic());
    let mut out = slice_to_vec(head.as_slice());
    let ghost all = entries(infos@);
    let mut i: usize = 0;
    assert(all.take(0) =~= Seq::<(Seq<u8>, NarInfoView)>::empty());
    assert(out@ =~= magic() + entries_bytes(all.take(0)));
    while i < infos.len()
        invariant
            i <= infos@.len(),
            all == entries(infos@),
            out@ == magic() + entries_bytes(all.take(i as int)),
        decreases infos@.len() - i,
    {
        write_entry(&mut out, &infos[i].0, &infos[i].1);
        assert(all.take(i + 1).drop_last() =~= all.take(i as int));
        assert(out@ =~= magic() + entries_bytes(all.take(i + 1)));
        i = i + 1;
    }
    assert(all.take(i as int) =~= all);
    out
}

/// How the cache file is rewritten: the contents go to a temporary file, which then takes the place
/// of the cache file.
pub struct Rewrite {
    pub temp: Vec<u8>,
    pub contents: Vec<u8>,
    pub file: Vec<u8>,
}

/// How the cache file is rewritten.
#[verifier::ext_equal]
pub struct RewriteView {
    pub temp: Seq<u8>,
    pub contents: Seq<u8>,
    pub file: Seq<u8>,
}

impl View for Rewrite {
    type V = RewriteView;

    open spec fn view(&self) -> RewriteView {
        RewriteView { temp: self.temp@, contents: self.contents@, file: self.file@ }
    }
}

/// How the cache file of a cache directory is rewritten to hold the given metadata.
pub open spec fn rewriting(
    cache_dir: Seq<u8>,
    entries: Seq<(Seq<u8>, NarInfoView)>,
) -> RewriteView {
    RewriteView {
        temp: path::joined(cache_dir, encode_utf8(".kiss-cache.closures.tmp"@)),
        contents: file_bytes(entries),
        file: path::joined(cache_dir, encode_utf8(".kiss-cache.closures"@)),
    }
}

/// How the cache file of a cache directory is rewritten from the given metadata.
pub fn rewrite(cache_dir: &[u8], infos: &Vec<(StoreHash, NarInfo)>) -> (r: Rewrite)
    ensures
        r@ == rewriting(cache_dir@, entries(infos@)),
{
    Rewrite {
        temp: join(cache_dir, ".kiss-cache.closures.tmp".as_bytes()),
        contents: save(infos),
        file: default_path(cache_dir),
    }
}

/// The cache file holds its old contents or all of the new ones, never a part of them. While they
/// are written, however much of them has been, the cache file is as it was. Once the temporary
/// file is renamed, the cache file holds all of them, the temporary file is gone, and nothing else
/// has changed.
pub proof fn the_cache_is_rewritten_as_a_whole(
    cache_dir: Seq<u8>,
    entries: Seq<(Seq<u8>, NarInfoView)>,
    files: Map<Seq<u8>, Seq<u8>>,
    part: Seq<u8>,
    other: Seq<u8>,
)
    ensures
        ({
            let rewrite = rewriting(cache_dir, entries);
            let during = path::files_written(files, rewrite.temp, part);
            let after = path::files_renamed(
                path::files_written(files, rewrite.temp, rewrite.contents),
                rewrite.temp,
                rewrite.file,
            );
            &&& during.contains_key(rewrite.file) == files.contains_key(rewrite.file)
            &&& during[rewrite.file] == files[rewrite.file]
            &&& after.contains_key(rewrite.file)
            &&& after[rewrite.file] == file_bytes(entries)
            &&& !after.contains_key(rewrite.temp)
            &&& other != rewrite.temp && other != rewrite.file ==> after.contains_key(other)
                == files.contains_key(other) && after[other] == files[other]
        }),
{
    reveal_strlit(".kiss-cache.closures");
    reveal_strlit(".kiss-cache.closures.tmp");
    is_ascii_chars_encode_utf8(".kiss-cache.closures"@);
    is_ascii_chars_encode_utf8(".kiss-cache.closures.tmp"@);
    let rewrite = rewriting(cache_dir, entries);
    assert(rewrite.temp.len() == rewrite.file.len() + 4);
}

// ---------------------------------------------------------------------------------------------
// What is written can be read
// ---------------------------------------------------------------------------------------------
/// Metadata that names hashes where it should.
pub open spec fn well_formed(info: NarInfoView) -> bool {
    &&& forall|k: int|
        0 <= k < info.references.len() ==> store_hash::is_hash(#[trigger] info.references[k])
    &&& info.deriver matches Some(d) ==> store_hash::is_hash(d)
}

/// What the file keeps of metadata: an empty URL, or one too long for its count, is dropped, and
/// so are references that their count cannot say.
pub open spec fn stored(info: NarInfoView) -> NarInfoView {
    NarInfoView {
        url: if url_bytes(info.url).len() == 0 {
            None
        } else {
            info.url
        },
        references: kept_references(info.references),
        ..info
    }
}

/// The map that holds what the file keeps of each entry, the later ones over the earlier.
pub open spec fn stored_map(
    entries: Seq<(Seq<u8>, NarInfoView)>,
    m: Map<Seq<u8>, NarInfoView>,
) -> Map<Seq<u8>, NarInfoView>
    decreases entries.len(),
{
    if entries.len() == 0 {
        m
    } else {
        stored_map(entries.drop_last(), m).insert(entries.last().0, stored(entries.last().1))
    }
}

proof fn lemma_number_read(n: nat, width: nat)
    requires
        n < le_bound(width),
    ensures
        le_bytes(n, width).len() == width,
        le_value(le_bytes(n, width)) == n,
    decreases width,
{
    if width > 0 {
        lemma_number_read(n / 256, (width - 1) as nat);
        assert(le_bytes(n, width).drop_first() =~= le_bytes(n / 256, (width - 1) as nat));
    }
}

proof fn lemma_cut(head: Seq<u8>, rest: Seq<u8>)
    ensures
        cut(head + rest, head.len() as int) == Some((head, rest)),
{
    assert((head + rest).take(head.len() as int) =~= head);
    assert((head + rest).skip(head.len() as int) =~= rest);
}

proof fn lemma_cut_number(n: nat, width: nat, rest: Seq<u8>)
    requires
        n < le_bound(width),
    ensures
        cut_number(le_bytes(n, width) + rest, width as int) == Some((n, rest)),
{
    lemma_number_read(n, width);
    lemma_cut(le_bytes(n, width), rest);
}

proof fn lemma_cut_url(url: Option<Seq<char>>, rest: Seq<u8>)
    ensures
        cut_url(le_bytes(url_bytes(url).len(), 2) + (url_bytes(url) + rest)) == Some(
            (
                if url_bytes(url).len() == 0 {
                    None
                } else {
                    url
                },
                rest,
            ),
        ),
{
    reveal_with_fuel(le_bound, 3);
    lemma_cut_number(url_bytes(url).len(), 2, url_bytes(url) + rest);
    if url_bytes(url).len() == 0 {
        assert(url_bytes(url) + rest =~= rest);
    } else {
        lemma_cut(url_bytes(url), rest);
        encode_utf8_valid_utf8(url.unwrap());
        encode_utf8_decode_utf8(url.unwrap());
    }
}

proof fn lemma_cut_deriver(deriver: Option<Seq<u8>>, rest: Seq<u8>)
    requires
        deriver matches Some(d) ==> store_hash::is_hash(d),
    ensures
        cut_deriver(deriver_bytes(deriver) + rest) == Some((deriver, rest)),
{
    match deriver {
        Some(d) => {
            lemma_cut(seq![1u8], d + rest);
            assert(deriver_bytes(deriver) + rest =~= seq![1u8] + (d + rest));
            lemma_cut(d, rest);
        },
        None => lemma_cut(seq![0u8], rest),
    }
}

proof fn lemma_cut_hashes(refs: Seq<Seq<u8>>, rest: Seq<u8>)
    requires
        forall|k: int| 0 <= k < refs.len() ==> store_hash::is_hash(#[trigger] refs[k]),
    ensures
        cut_hashes(concat(refs) + rest, refs.len()) == Some((refs, rest)),
    decreases refs.len(),
{
    if refs.len() == 0 {
        assert(concat(refs) + rest =~= rest);
    } else {
        let last = refs.last();
        lemma_cut_hashes(refs.drop_last(), last + rest);
        assert(concat(refs) + rest =~= concat(refs.drop_last()) + (last + rest));
        assert(store_hash::is_hash(refs[refs.len() - 1]));
        lemma_cut(last, rest);
        assert(refs.drop_last().push(last) =~= refs);
    }
}

proof fn lemma_cut_references(refs: Seq<Seq<u8>>, rest: Seq<u8>)
    requires
        refs.len() <= COUNT_MAX,
        forall|k: int| 0 <= k < refs.len() ==> store_hash::is_hash(#[trigger] refs[k]),
    ensures
        cut_references(le_bytes(refs.len(), 2) + (concat(refs) + rest)) == Some((refs, rest)),
{
    reveal_with_fuel(le_bound, 3);
    lemma_cut_number(refs.len(), 2, concat(refs) + rest);
    lemma_cut_hashes(refs, rest);
}

/// What follows the hash in an entry, with `rest` behind it.
spec fn info_bytes(info: NarInfoView, rest: Seq<u8>) -> Seq<u8> {
    let url = url_bytes(info.url);
    let refs = kept_references(info.references);
    let b5 = le_bytes(refs.len(), 2) + (concat(refs) + rest);
    let b4 = deriver_bytes(info.deriver) + b5;
    let b3 = le_bytes(info.nar_size as nat, 8) + b4;
    let b2 = le_bytes(info.file_size as nat, 8) + b3;
    le_bytes(url.len(), 2) + (url + b2)
}

proof fn lemma_entry_in_parts(hash: Seq<u8>, info: NarInfoView, rest: Seq<u8>)
    ensures
        entry_bytes(hash, info) + rest == hash + info_bytes(info, rest),
{
    assert(entry_bytes(hash, info) + rest =~= hash + info_bytes(info, rest));
}

proof fn lemma_cut_info(info: NarInfoView, rest: Seq<u8>)
    requires
        well_formed(info),
    ensures
        cut_info(info_bytes(info, rest)) == Some((stored(info), rest)),
{
    let refs = kept_references(info.references);
    let b5 = le_bytes(refs.len(), 2) + (concat(refs) + rest);
    let b4 = deriver_bytes(info.deriver) + b5;
    let b3 = le_bytes(info.nar_size as nat, 8) + b4;
    let b2 = le_bytes(info.file_size as nat, 8) + b3;
    assert(u64::MAX < le_bound(8)) by {
        reveal_with_fuel(le_bound, 9);
    }
    lemma_cut_url(info.url, b2);
    lemma_cut_number(info.file_size as nat, 8, b3);
    lemma_cut_number(info.nar_size as nat, 8, b4);
    lemma_cut_deriver(info.deriver, b5);
    assert forall|k: int| 0 <= k < refs.len() implies store_hash::is_hash(#[trigger] refs[k]) by {
        assert(refs[k] == info.references[k]);
    }
    lemma_cut_references(refs, rest);
}

proof fn lemma_cut_entry(hash: Seq<u8>, info: NarInfoView, rest: Seq<u8>)
    requires
        store_hash::is_hash(hash),
        well_formed(info),
    ensures
        cut_entry(entry_bytes(hash, info) + rest) == Some((hash, stored(info), rest)),
{
    lemma_entry_in_parts(hash, info, rest);
    lemma_cut(hash, info_bytes(info, rest));
    lemma_cut_info(info, rest);
}

proof fn lemma_decode_entries(
    es: Seq<(Seq<u8>, NarInfoView)>,
    tail: Seq<u8>,
    m: Map<Seq<u8>, NarInfoView>,
)
    requires
        forall|k: int|
            0 <= k < es.len() ==> store_hash::is_hash((#[trigger] es[k]).0) && well_formed(es[k].1),
    ensures
        decoded_into(entries_bytes(es) + tail, m) == decoded_into(tail, stored_map(es, m)),
    decreases es.len(),
{
    if es.len() == 0 {
        assert(entries_bytes(es) + tail =~= tail);
    } else {
        let (hash, info) = es.last();
        let here = entry_bytes(hash, info) + tail;
        assert(es[es.len() - 1] == es.last());
        lemma_decode_entries(es.drop_last(), here, m);
        assert(entries_bytes(es) + tail =~= entries_bytes(es.drop_last()) + here);
        lemma_cut_entry(hash, info, tail);
        lemma_entry_shrinks(here);
    }
}

proof fn lemma_decoded_file(es: Seq<(Seq<u8>, NarInfoView)>, tail: Seq<u8>)
    requires
        forall|k: int|
            0 <= k < es.len() ==> store_hash::is_hash((#[trigger] es[k]).0) && well_formed(es[k].1),
    ensures
        decoded(file_bytes(es) + tail) == decoded_into(tail, stored_map(es, no_entries())),
{
    let rest = entries_bytes(es) + tail;
    assert(file_bytes(es) + tail =~= magic() + rest);
    assert(magic().len() == 8);
    lemma_cut(magic(), rest);
    lemma_decode_entries(es, tail, no_entries());
}

/// Loading what was saved gives back the metadata of every hash: all of it, but for an empty URL
/// or one of more than 65535 bytes and for references past the first 65535.
pub proof fn load_gives_back_what_save_wrote(es: Seq<(Seq<u8>, NarInfoView)>)
    requires
        forall|k: int|
            0 <= k < es.len() ==> store_hash::is_hash((#[trigger] es[k]).0) && well_formed(es[k].1),
    ensures
        loaded(Some(file_bytes(es))) == stored_map(es, no_entries()),
{
    lemma_decoded_file(es, Seq::empty());
    assert(file_bytes(es) + Seq::<u8>::empty() =~= file_bytes(es));
}

/// Where no hash comes twice, the map that is loaded holds what the file keeps of each entry, and
/// nothing else.
pub proof fn a_loaded_map_holds_each_entry(es: Seq<(Seq<u8>, NarInfoView)>)
    requires
        forall|i: int, j: int| 0 <= i < j < es.len() ==> (#[trigger] es[i]).0 != (#[trigger] es[j]).0,
    ensures
        forall|i: int|
            0 <= i < es.len() ==> {
                let m = stored_map(es, no_entries());
                &&& m.contains_key((#[trigger] es[i]).0)
                &&& m[es[i].0] == stored(es[i].1)
            },
        forall|hash: Seq<u8>| #[trigger]
            stored_map(es, no_entries()).contains_key(hash) ==> exists|i: int|
                0 <= i < es.len() && (#[trigger] es[i]).0 == hash,
    decreases es.len(),
{
    if es.len() > 0 {
        let fewer = es.drop_last();
        a_loaded_map_holds_each_entry(fewer);
        let m = stored_map(es, no_entries());
        let last = es.len() - 1;
        assert forall|i: int| 0 <= i < es.len() implies m.contains_key((#[trigger] es[i]).0)
            && m[es[i].0] == stored(es[i].1) by {
            if i < last {
                assert(fewer[i] == es[i]);
                assert(es[i].0 != es[last].0);
            }
        }
        assert forall|hash: Seq<u8>| #[trigger] m.contains_key(hash) implies exists|i: int|
            0 <= i < es.len() && (#[trigger] es[i]).0 == hash by {
            if hash == es[last].0 {
            } else {
                assert(stored_map(fewer, no_entries()).contains_key(hash));
                let i = choose|i: int| 0 <= i < fewer.len() && (#[trigger] fewer[i]).0 == hash;
                assert(es[i].0 == hash);
            }
        }
    }
}

/// What can be cut off the front does not depend on what is behind it.
proof fn lemma_more_behind(b: Seq<u8>, n: nat, more: Seq<u8>)
    ensures
        cut(b, n as int) matches Some((head, rest)) ==> cut(b + more, n as int) == Some(
            (head, rest + more),
        ),
{
    if b.len() >= n {
        assert((b + more).take(n as int) =~= b.take(n as int));
        assert((b + more).skip(n as int) =~= b.skip(n as int) + more);
    }
}

proof fn lemma_more_behind_hashes(b: Seq<u8>, n: nat, more: Seq<u8>)
    ensures
        cut_hashes(b, n) matches Some((hs, rest)) ==> cut_hashes(b + more, n) == Some(
            (hs, rest + more),
        ),
    decreases n,
{
    if n > 0 {
        lemma_more_behind_hashes(b, (n - 1) as nat, more);
        if let Some((hs, rest)) = cut_hashes(b, (n - 1) as nat) {
            lemma_more_behind(rest, 32, more);
        }
    }
}

proof fn lemma_more_behind_url(b: Seq<u8>, more: Seq<u8>)
    ensures
        cut_url(b) matches Some((url, rest)) ==> cut_url(b + more) == Some((url, rest + more)),
{
    lemma_more_behind(b, 2, more);
    if let Some((n, rest)) = cut_number(b, 2) {
        lemma_more_behind(rest, n, more);
    }
}

proof fn lemma_more_behind_deriver(b: Seq<u8>, more: Seq<u8>)
    ensures
        cut_deriver(b) matches Some((deriver, rest)) ==> cut_deriver(b + more) == Some(
            (deriver, rest + more),
        ),
{
    lemma_more_behind(b, 1, more);
    if let Some((flag, rest)) = cut(b, 1) {
        lemma_more_behind(rest, 32, more);
    }
}

proof fn lemma_more_behind_references(b: Seq<u8>, more: Seq<u8>)
    ensures
        cut_references(b) matches Some((hs, rest)) ==> cut_references(b + more) == Some(
            (hs, rest + more),
        ),
{
    lemma_more_behind(b, 2, more);
    if let Some((n, rest)) = cut_number(b, 2) {
        lemma_more_behind_hashes(rest, n, more);
    }
}

/// An entry that can be read is read the same with more bytes behind it.
proof fn lemma_more_behind_entry(b: Seq<u8>, more: Seq<u8>)
    ensures
        cut_entry(b) matches Some((hash, info, rest)) ==> cut_entry(b + more) == Some(
            (hash, info, rest + more),
        ),
{
    if cut_entry(b) is Some {
        let b1 = (cut_hash(b)->0).1;
        let b2 = (cut_url(b1)->0).1;
        let b3 = (cut_number(b2, 8)->0).1;
        let b4 = (cut_number(b3, 8)->0).1;
        let b5 = (cut_deriver(b4)->0).1;
        lemma_more_behind(b, 32, more);
        lemma_more_behind_url(b1, more);
        lemma_more_behind(b2, 8, more);
        lemma_more_behind(b3, 8, more);
        lemma_more_behind_deriver(b4, more);
        lemma_more_behind_references(b5, more);
    }
}

/// A part of an entry is no entry.
proof fn lemma_part_of_entry(hash: Seq<u8>, info: NarInfoView, k: int)
    requires
        store_hash::is_hash(hash),
        well_formed(info),
        0 <= k < entry_bytes(hash, info).len(),
    ensures
        cut_entry(entry_bytes(hash, info).take(k)) is None,
{
    let whole = entry_bytes(hash, info);
    let more = whole.skip(k);
    assert(whole.take(k) + more =~= whole);
    lemma_more_behind_entry(whole.take(k), more);
    lemma_cut_entry(hash, info, Seq::empty());
    assert(whole + Seq::<u8>::empty() =~= whole);
}

proof fn lemma_fewer_are_shorter(es: Seq<(Seq<u8>, NarInfoView)>, n: int)
    requires
        0 <= n <= es.len(),
    ensures
        file_bytes(es.take(n)).len() <= file_bytes(es).len(),
    decreases es.len(),
{
    if n == es.len() {
        assert(es.take(n) =~= es);
    } else {
        assert(es.take(n) =~= es.drop_last().take(n));
        lemma_fewer_are_shorter(es.drop_last(), n);
    }
}

/// The file with the first `n` entries ends after `k` bytes.
pub open spec fn ends_entry(es: Seq<(Seq<u8>, NarInfoView)>, n: int, k: int) -> bool {
    0 <= n <= es.len() && k == file_bytes(es.take(n)).len()
}

/// Behind the start of the last entry, only the whole file is a cache.
proof fn lemma_cut_in_last_entry(es: Seq<(Seq<u8>, NarInfoView)>, k: int)
    requires
        es.len() > 0,
        forall|i: int|
            0 <= i < es.len() ==> store_hash::is_hash((#[trigger] es[i]).0) && well_formed(es[i].1),
        file_bytes(es.drop_last()).len() < k <= file_bytes(es).len(),
    ensures
        decoded(file_bytes(es).take(k)) == if k == file_bytes(es).len() {
            Some(stored_map(es, no_entries()))
        } else {
            None
        },
{
    let all = file_bytes(es);
    let fewer = es.drop_last();
    let (hash, info) = es.last();
    let entry = entry_bytes(hash, info);
    let start = file_bytes(fewer).len();
    assert(es[es.len() - 1] == es.last());
    assert(all =~= file_bytes(fewer) + entry);
    if k < all.len() {
        let part = entry.take(k - start);
        assert(all.take(k) =~= file_bytes(fewer) + part);
        lemma_decoded_file(fewer, part);
        lemma_part_of_entry(hash, info, k - start);
    } else {
        assert(all.take(k) =~= all + Seq::<u8>::empty());
        lemma_decoded_file(es, Seq::empty());
    }
}

/// Where the first `n` entries end: before the last one starts, or at the end of the file.
proof fn lemma_ends(es: Seq<(Seq<u8>, NarInfoView)>, n: int)
    requires
        es.len() > 0,
        0 <= n <= es.len(),
        es.last().0.len() > 0,
    ensures
        file_bytes(es.drop_last()).len() < file_bytes(es).len(),
        n == es.len() ==> es.take(n) == es,
        n < es.len() ==> es.take(n) == es.drop_last().take(n) && file_bytes(es.take(n)).len()
            <= file_bytes(es.drop_last()).len(),
{
    if n == es.len() {
        assert(es.take(n) =~= es);
    } else {
        assert(es.take(n) =~= es.drop_last().take(n));
        lemma_fewer_are_shorter(es.drop_last(), n);
    }
}

/// A cache file that was cut short loads the entries before the cut where the cut is at the end of
/// the header or of an entry. Cut anywhere else, it is no cache.
pub proof fn a_file_cut_short_loads_whole_entries(es: Seq<(Seq<u8>, NarInfoView)>, k: int)
    requires
        forall|i: int|
            0 <= i < es.len() ==> store_hash::is_hash((#[trigger] es[i]).0) && well_formed(es[i].1),
        0 <= k <= file_bytes(es).len(),
    ensures
        forall|n: int| #[trigger]
            ends_entry(es, n, k) ==> decoded(file_bytes(es).take(k)) == Some(
                stored_map(es.take(n), no_entries()),
            ),
        (forall|n: int| !#[trigger] ends_entry(es, n, k)) ==> decoded(file_bytes(es).take(k)) is None,
    decreases es.len(),
{
    let b = file_bytes(es).take(k);
    assert(magic().len() == 8);
    if k < 8 {
    } else if es.len() == 0 {
        lemma_decoded_file(es, Seq::empty());
        assert(b =~= file_bytes(es) + Seq::<u8>::empty());
        assert(es.take(0) =~= es);
        assert(ends_entry(es, 0, k));
    } else {
        let fewer = es.drop_last();
        assert(es[es.len() - 1] == es.last());
        assert forall|n: int| 0 <= n <= es.len() implies {
            &&& n == es.len() ==> #[trigger] es.take(n) == es
            &&& n < es.len() ==> es.take(n) == fewer.take(n) && file_bytes(es.take(n)).len()
                <= file_bytes(fewer).len()
        } by {
            lemma_ends(es, n);
        }
        lemma_ends(es, 0);
        if k <= file_bytes(fewer).len() {
            assert(file_bytes(es) =~= file_bytes(fewer) + entry_bytes(es.last().0, es.last().1));
            assert(b =~= file_bytes(fewer).take(k));
            a_file_cut_short_loads_whole_entries(fewer, k);
            assert forall|n: int| #[trigger]
                ends_entry(fewer, n, k) implies ends_entry(es, n, k) by {}
            assert forall|n: int| #[trigger]
                ends_entry(es, n, k) implies ends_entry(fewer, n, k) by {}
        } else {
            lemma_cut_in_last_entry(es, k);
            assert(k == file_bytes(es).len() ==> ends_entry(es, es.len() as int, k));
        }
    }
}

// ---------------------------------------------------------------------------------------------
// Laws of the format
// ---------------------------------------------------------------------------------------------
/// What has been loaded is what was saved: the sizes and the deriver as they were, the references
/// in their order, up to 65535 of them, and a URL of 1 to 65535 bytes.
pub open spec fn came_back(saved: NarInfoView, got: NarInfoView) -> bool {
    &&& got.file_size == saved.file_size
    &&& got.nar_size == saved.nar_size
    &&& got.deriver == saved.deriver
    &&& saved.references.len() <= 65535 ==> got.references == saved.references
    &&& saved.references.len() > 65535 ==> got.references == saved.references.take(65535)
    &&& match saved.url {
        Some(url) => if 0 < encode_utf8(url).len() <= 65535 {
            got.url == Some(url)
        } else {
            got.url is None
        },
        None => got.url is None,
    }
}

/// Whatever has been saved comes back: one entry more in a file is one more in what is loaded, and
/// holds over an earlier one of the same hash. All other hashes are as without it.
pub proof fn an_entry_more_is_loaded_too(
    es: Seq<(Seq<u8>, NarInfoView)>,
    hash: Seq<u8>,
    info: NarInfoView,
    other: Seq<u8>,
)
    requires
        forall|k: int|
            0 <= k < es.len() ==> store_hash::is_hash((#[trigger] es[k]).0) && well_formed(es[k].1),
        store_hash::is_hash(hash),
        well_formed(info),
    ensures
        ({
            let before = loaded(Some(file_bytes(es)));
            let after = loaded(Some(file_bytes(es.push((hash, info)))));
            &&& after.contains_key(hash)
            &&& came_back(info, after[hash])
            &&& other != hash ==> after.contains_key(other) == before.contains_key(other)
                && after[other] == before[other]
        }),
        !loaded(Some(file_bytes(Seq::empty()))).contains_key(other),
        !loaded(None).contains_key(other),
{
    let more = es.push((hash, info));
    assert(more.drop_last() =~= es);
    load_gives_back_what_save_wrote(es);
    load_gives_back_what_save_wrote(more);
    load_gives_back_what_save_wrote(Seq::empty());
}

/// Where no hash comes twice, each entry that was saved is loaded, and nothing else is.
pub proof fn every_entry_comes_back(es: Seq<(Seq<u8>, NarInfoView)>, i: int, hash: Seq<u8>)
    requires
        forall|k: int|
            0 <= k < es.len() ==> store_hash::is_hash((#[trigger] es[k]).0) && well_formed(es[k].1),
        forall|i: int, j: int| 0 <= i < j < es.len() ==> (#[trigger] es[i]).0 != (#[trigger] es[j]).0,
        0 <= i < es.len(),
    ensures
        loaded(Some(file_bytes(es))).contains_key(es[i].0),
        came_back(es[i].1, loaded(Some(file_bytes(es)))[es[i].0]),
        loaded(Some(file_bytes(es))).contains_key(hash) ==> exists|k: int|
            0 <= k < es.len() && (#[trigger] es[k]).0 == hash,
{
    load_gives_back_what_save_wrote(es);
    a_loaded_map_holds_each_entry(es);
}

/// Numbers are written with their lowest byte first, in as many bytes as they get.
pub proof fn numbers_go_by_bytes(low: u8, n: nat, width: nat, b: Seq<u8>)
    ensures
        le_bytes(n, width).len() == width,
        le_bytes(low as nat + 256 * n, width + 1) == seq![low] + le_bytes(n, width),
        le_value(seq![low] + b) == low as nat + 256 * le_value(b),
        le_value(Seq::empty()) == 0,
    decreases width,
{
    let m = low as nat + 256 * n;
    assert(m % 256 == low as nat && m / 256 == n);
    assert((seq![low] + b).drop_first() =~= b);
    if width > 0 {
        numbers_go_by_bytes(low, n / 256, (width - 1) as nat, b);
    }
}

/// How a file is laid out: seven letters and the version, then the entries in their order. An
/// entry is the hash, the URL behind its length, the two sizes, a flag for the deriver and the
/// deriver, and the references behind their number.
pub proof fn a_file_is_laid_out_field_by_field(
    es: Seq<(Seq<u8>, NarInfoView)>,
    hash: Seq<u8>,
    info: NarInfoView,
)
    requires
        info.references.len() <= 65535,
        info.url matches Some(url) ==> encode_utf8(url).len() <= 65535,
    ensures
        file_bytes(Seq::empty()) == encode_utf8("NCCCLOS"@).push(1),
        ({
            let url = match info.url {
                Some(url) => encode_utf8(url),
                None => Seq::empty(),
            };
            let deriver = match info.deriver {
                Some(deriver) => seq![1u8] + deriver,
                None => seq![0u8],
            };
            let refs = info.references;
            file_bytes(es.push((hash, info))) == file_bytes(es) + (hash + seq![
                (url.len() % 256) as u8,
                (url.len() / 256) as u8,
            ] + url + le_bytes(info.file_size as nat, 8) + le_bytes(info.nar_size as nat, 8)
                + deriver + seq![(refs.len() % 256) as u8, (refs.len() / 256) as u8] + concat(refs))
        }),
{
    reveal_strlit("NCCCLOS");
    is_ascii_chars_encode_utf8("NCCCLOS"@);
    assert(file_bytes(Seq::empty()) =~= encode_utf8("NCCCLOS"@).push(1));
    let url = match info.url {
        Some(url) => encode_utf8(url),
        None => Seq::empty(),
    };
    lemma_two_bytes(url.len());
    lemma_two_bytes(info.references.len());
    lemma_file_of_more(es, hash, info);
    assert(url_bytes(info.url) == url);
    assert(kept_references(info.references) == info.references);
}

proof fn lemma_file_of_more(es: Seq<(Seq<u8>, NarInfoView)>, hash: Seq<u8>, info: NarInfoView)
    ensures
        file_bytes(es.push((hash, info))) == file_bytes(es) + entry_bytes(hash, info),
{
    let more = es.push((hash, info));
    let entry = entry_bytes(hash, info);
    assert(more.drop_last() =~= es);
    assert(entries_bytes(more) == entries_bytes(es) + entry);
    assert(magic() + (entries_bytes(es) + entry) =~= magic() + entries_bytes(es) + entry);
}

proof fn lemma_two_bytes(n: nat)
    requires
        n <= 65535,
    ensures
        le_bytes(n, 2) == seq![(n % 256) as u8, (n / 256) as u8],
{
    reveal_with_fuel(le_bytes, 3);
    assert(n / 256 < 256);
    assert(le_bytes(n, 2) =~= seq![(n % 256) as u8, (n / 256) as u8]);
}

/// References are written one after another, and nothing stands between them.
pub proof fn references_stand_one_after_another(a: Seq<Seq<u8>>, b: Seq<Seq<u8>>, hash: Seq<u8>)
    ensures
        concat(a + b) == concat(a) + concat(b),
        concat(seq![hash]) == hash,
        concat(Seq::empty()).len() == 0,
    decreases b.len(),
{
    reveal_with_fuel(concat, 2);
    assert(seq![hash].drop_last() =~= Seq::<Seq<u8>>::empty());
    assert(concat(seq![hash]) =~= hash);
    if b.len() == 0 {
        assert(a + b =~= a);
        assert(concat(a + b) =~= concat(a) + concat(b));
    } else {
        references_stand_one_after_another(a, b.drop_last(), hash);
        assert((a + b).drop_last() =~= a + b.drop_last());
        assert(concat(a + b) =~= concat(a) + concat(b));
    }
}

/// A file that does not begin with the seven letters and the version says nothing.
pub proof fn only_a_file_with_the_header_is_a_cache(b: Seq<u8>, hash: Seq<u8>)
    requires
        !encode_utf8("NCCCLOS"@).push(1).is_prefix_of(b),
    ensures
        decoded(b) is None,
        !loaded(Some(b)).contains_key(hash),
{
    reveal_strlit("NCCCLOS");
    is_ascii_chars_encode_utf8("NCCCLOS"@);
    assert(encode_utf8("NCCCLOS"@).push(1) =~= magic());
    if b.len() >= 8 {
        assert(b.subrange(0, 8) =~= b.take(8));
    }
}

/// Behind whole entries, what is no hash where a hash should be spoils the whole file; so does a URL
/// that is no text.
pub proof fn a_spoilt_entry_spoils_the_file(
    es: Seq<(Seq<u8>, NarInfoView)>,
    hash: Seq<u8>,
    url: Seq<u8>,
    rest: Seq<u8>,
)
    requires
        forall|k: int|
            0 <= k < es.len() ==> store_hash::is_hash((#[trigger] es[k]).0) && well_formed(es[k].1),
        hash.len() == 32,
        0 < url.len() <= 65535,
        !store_hash::is_hash(hash) || !valid_utf8(url),
    ensures
        decoded(file_bytes(es) + (hash + (seq![
            (url.len() % 256) as u8,
            (url.len() / 256) as u8,
        ] + (url + rest)))) is None,
{
    let counted = seq![(url.len() % 256) as u8, (url.len() / 256) as u8] + (url + rest);
    lemma_decoded_file(es, hash + counted);
    lemma_cut(hash, counted);
    lemma_two_bytes(url.len());
    reveal_with_fuel(le_bound, 3);
    lemma_cut_number(url.len(), 2, url + rest);
    lemma_cut(url, rest);
}

/// Whatever bytes a file holds, what is loaded from it names hashes where it should, and no URL in
/// it is empty.
pub proof fn what_is_loaded_is_well_formed(b: Seq<u8>, hash: Seq<u8>)
    ensures
        loaded(Some(b)).contains_key(hash) ==> {
            let info = loaded(Some(b))[hash];
            &&& store_hash::is_hash(hash)
            &&& info.deriver matches Some(deriver) ==> store_hash::is_hash(deriver)
            &&& forall|k: int|
                0 <= k < info.references.len() ==> store_hash::is_hash(#[trigger] info.references[k])
            &&& info.url matches Some(url) ==> url.len() > 0
        },
{
    if b.len() >= 8 {
        lemma_all_loaded_well(b.skip(8), no_entries());
    }
}

/// Every entry of a map has a hash for a key, and metadata as it should be.
spec fn all_well(m: Map<Seq<u8>, NarInfoView>) -> bool {
    forall|hash: Seq<u8>| #[trigger]
        m.contains_key(hash) ==> store_hash::is_hash(hash) && well_formed(m[hash]) && (
        m[hash].url matches Some(url) ==> url.len() > 0)
}

proof fn lemma_all_loaded_well(b: Seq<u8>, m: Map<Seq<u8>, NarInfoView>)
    requires
        all_well(m),
    ensures
        decoded_into(b, m) matches Some(r) ==> all_well(r),
    decreases b.len(),
{
    if b.len() > 0 {
        if let Some((hash, info, rest)) = cut_entry(b) {
            lemma_entry_shrinks(b);
            lemma_entry_well(b);
            lemma_all_loaded_well(rest, m.insert(hash, info));
        }
    }
}

proof fn lemma_entry_well(b: Seq<u8>)
    ensures
        cut_entry(b) matches Some((hash, info, rest)) ==> store_hash::is_hash(hash) && well_formed(
            info,
        ) && (info.url matches Some(url) ==> url.len() > 0),
{
    if cut_entry(b) is Some {
        let b1 = (cut_hash(b)->0).1;
        let b2 = (cut_url(b1)->0).1;
        let b3 = (cut_number(b2, 8)->0).1;
        let b4 = (cut_number(b3, 8)->0).1;
        let b5 = (cut_deriver(b4)->0).1;
        let (n, b6) = cut_number(b5, 2)->0;
        lemma_hashes_well(b6, n);
        if let Some((count, rest)) = cut_number(b1, 2) {
            if count > 0 {
                let url = rest.take(count as int);
                decode_utf8_encode_utf8(url);
                assert(encode_utf8(decode_utf8(url)).len() > 0);
                if decode_utf8(url).len() == 0 {
                    assert(decode_utf8(url) =~= Seq::<char>::empty());
                    is_ascii_chars_encode_utf8(Seq::<char>::empty());
                }
            }
        }
    }
}

proof fn lemma_hashes_well(b: Seq<u8>, n: nat)
    ensures
        cut_hashes(b, n) matches Some((hs, rest)) ==> hs.len() == n && forall|k: int|
            0 <= k < hs.len() ==> store_hash::is_hash(#[trigger] hs[k]),
    decreases n,
{
    if n > 0 {
        lemma_hashes_well(b, (n - 1) as nat);
    }
}

/// Any flag but zero announces a deriver, and zero none.
pub proof fn any_flag_but_zero_announces_a_deriver(flag: u8, deriver: Seq<u8>, rest: Seq<u8>)
    ensures
        flag != 0 && store_hash::is_hash(deriver) ==> cut_deriver(seq![flag] + (deriver + rest))
            == Some((Some(deriver), rest)),
        flag != 0 && deriver.len() == 32 && !store_hash::is_hash(deriver) ==> cut_deriver(
            seq![flag] + (deriver + rest),
        ) is None,
        cut_deriver(seq![0u8] + rest) == Some((None::<Seq<u8>>, rest)),
{
    lemma_cut(seq![flag], deriver + rest);
    lemma_cut(deriver, rest);
    lemma_cut(seq![0u8], rest);
}

/// A list of hashes and metadata is taken whole and in its order.
pub proof fn a_list_of_entries_is_taken_whole(v: Seq<(StoreHash, NarInfo)>, i: int)
    requires
        0 <= i < v.len(),
    ensures
        entries(v).len() == v.len(),
        entries(v)[i].0 == v[i].0@,
        entries(v)[i].1 == v[i].1@,
{
}

/// The cache file lies in the cache directory under its own name, and while it is rewritten another
/// lies beside it, which gets all of the contents.
pub proof fn the_cache_file_has_its_name(dir: Seq<u8>, es: Seq<(Seq<u8>, NarInfoView)>)
    ensures
        rewriting(dir, es).file == path::joined(dir, encode_utf8(".kiss-cache.closures"@)),
        rewriting(dir, es).temp == path::joined(dir, encode_utf8(".kiss-cache.closures.tmp"@)),
        loaded(Some(rewriting(dir, es).contents)) == loaded(Some(file_bytes(es))),
{
}

/// A reference or a deriver that is no hash spoils the whole file, whatever stands before it and
/// behind it.
pub proof fn a_spoilt_reference_spoils_the_file(
    es: Seq<(Seq<u8>, NarInfoView)>,
    hash: Seq<u8>,
    info: NarInfoView,
    n: nat,
    spoilt: Seq<u8>,
    flag: u8,
    rest: Seq<u8>,
)
    requires
        forall|k: int|
            0 <= k < es.len() ==> store_hash::is_hash((#[trigger] es[k]).0) && well_formed(es[k].1),
        store_hash::is_hash(hash),
        well_formed(info),
        info.references.len() < n <= 65535,
        spoilt.len() == 32,
        !store_hash::is_hash(spoilt),
        flag != 0,
    ensures
        ({
            let url = url_bytes(info.url);
            let refs = le_bytes(n, 2) + (concat(info.references) + (spoilt + rest));
            let sizes = |b: Seq<u8>|
                le_bytes(info.file_size as nat, 8) + (le_bytes(info.nar_size as nat, 8) + b);
            let entry = |b: Seq<u8>| hash + (le_bytes(url.len(), 2) + (url + sizes(b)));
            &&& decoded(file_bytes(es) + entry(deriver_bytes(info.deriver) + refs)) is None
            &&& decoded(file_bytes(es) + entry(seq![flag] + (spoilt + rest))) is None
        }),
{
    let url = url_bytes(info.url);
    let hashes = concat(info.references) + (spoilt + rest);
    let refs = le_bytes(n, 2) + hashes;
    reveal_with_fuel(le_bound, 3);
    lemma_cut_number(n, 2, hashes);
    lemma_cut_hashes(info.references, spoilt + rest);
    lemma_cut(spoilt, rest);
    lemma_hashes_stuck(hashes, info.references.len() + 1, n);
    lemma_cut_deriver(info.deriver, refs);
    lemma_spoilt_behind_sizes(es, hash, info, deriver_bytes(info.deriver) + refs);
    any_flag_but_zero_announces_a_deriver(flag, spoilt, rest);
    lemma_spoilt_behind_sizes(es, hash, info, seq![flag] + (spoilt + rest));
}

/// What can be read neither as a deriver nor, behind one, as references spoils the file.
proof fn lemma_spoilt_behind_sizes(
    es: Seq<(Seq<u8>, NarInfoView)>,
    hash: Seq<u8>,
    info: NarInfoView,
    b: Seq<u8>,
)
    requires
        forall|k: int|
            0 <= k < es.len() ==> store_hash::is_hash((#[trigger] es[k]).0) && well_formed(es[k].1),
        store_hash::is_hash(hash),
        match cut_deriver(b) {
            Some((deriver, refs)) => cut_references(refs) is None,
            None => true,
        },
    ensures
        decoded(
            file_bytes(es) + (hash + (le_bytes(url_bytes(info.url).len(), 2) + (url_bytes(info.url)
                + (le_bytes(info.file_size as nat, 8) + (le_bytes(info.nar_size as nat, 8) + b))))),
        ) is None,
{
    let url = url_bytes(info.url);
    let b3 = le_bytes(info.nar_size as nat, 8) + b;
    let b2 = le_bytes(info.file_size as nat, 8) + b3;
    let b1 = le_bytes(url.len(), 2) + (url + b2);
    assert(u64::MAX < le_bound(8)) by {
        reveal_with_fuel(le_bound, 9);
    }
    lemma_decoded_file(es, hash + b1);
    lemma_cut(hash, b1);
    lemma_cut_url(info.url, b2);
    lemma_cut_number(info.file_size as nat, 8, b3);
    lemma_cut_number(info.nar_size as nat, 8, b);
    assert(cut_info(b1) is None);
}

} // verus!
