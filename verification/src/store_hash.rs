//! Store hashes, the unit of identity of everything in a binary cache.

use crate::path;
use crate::path::{absolute, component, split_path};
use crate::text;
use crate::text::{same_run, utf8_text};
use vstd::prelude::*;
use vstd::utf8::*;

verus! {

/// How many bytes a store hash has.
pub const HASH_LEN: usize = 32;

/// The 32-character base32 prefix of a `/nix/store/<hash>-<name>` path.
///
/// Files in the cache are named after it, and the References and Deriver fields of a narinfo
/// list names whose only useful part is this prefix.
#[derive(Clone, Copy, PartialEq, Eq, Hash, Debug)]
pub struct StoreHash {
    bytes: [u8; 32],
}

impl View for StoreHash {
    type V = Seq<u8>;

    closed spec fn view(&self) -> Seq<u8> {
        self.bytes@
    }
}

/// An ASCII letter or digit.
pub open spec fn is_alphanumeric(b: u8) -> bool {
    ||| 0x30 <= b <= 0x39
    ||| 0x41 <= b <= 0x5a
    ||| 0x61 <= b <= 0x7a
}

/// What a store hash looks like: 32 letters and digits.
pub open spec fn is_hash(b: Seq<u8>) -> bool {
    &&& b.len() == HASH_LEN
    &&& forall|i: int| 0 <= i < b.len() ==> is_alphanumeric(#[trigger] b[i])
}

/// The hash at the beginning of `b`.
pub open spec fn hash_prefix(b: Seq<u8>) -> Option<Seq<u8>> {
    if b.len() >= HASH_LEN && is_hash(b.take(HASH_LEN as int)) {
        Some(b.take(HASH_LEN as int))
    } else {
        None
    }
}

/// The bytes of `nix`.
pub open spec fn nix_name() -> Seq<u8> {
    seq![0x6eu8, 0x69, 0x78]
}

/// The bytes of `store`.
pub open spec fn store_name() -> Seq<u8> {
    seq![0x73u8, 0x74, 0x6f, 0x72, 0x65]
}

/// Whether `p` is `/nix/store` or lies under it.
pub open spec fn in_store(p: Seq<u8>) -> bool {
    &&& path::is_absolute(p)
    &&& path::components(p).len() >= 2
    &&& path::components(p)[0] == nix_name()
    &&& path::components(p)[1] == store_name()
}

/// The hash of a path below `/nix/store`: that at the beginning of the next component.
pub open spec fn store_path_hash(p: Seq<u8>) -> Option<Seq<u8>> {
    if in_store(p) && path::components(p).len() >= 3 {
        hash_prefix(path::components(p)[2])
    } else {
        None
    }
}

/// The characters of a run of ASCII bytes.
pub open spec fn ascii_text(b: Seq<u8>) -> Seq<char> {
    b.map_values(|x: u8| x as char)
}

/// A hash is valid UTF-8 and stands for its own letters and digits.
pub proof fn lemma_hash_is_text(b: Seq<u8>)
    requires
        is_hash(b),
    ensures
        valid_utf8(b),
        decode_utf8(b) == ascii_text(b),
        encode_utf8(ascii_text(b)) == b,
{
    let chars = ascii_text(b);
    assert(is_ascii_chars(chars)) by {
        assert forall|i: int|
            0 <= i < chars.len() implies '\0' <= #[trigger] chars[i] <= '\u{7f}' by {
            assert(is_alphanumeric(b[i]));
        }
    }
    is_ascii_chars_encode_utf8(chars);
    assert(encode_utf8(chars) =~= b) by {
        assert forall|i: int| 0 <= i < b.len() implies encode_utf8(chars)[i] == b[i] by {
            assert(is_alphanumeric(b[i]));
        }
    }
    encode_utf8_valid_utf8(chars);
    encode_utf8_decode_utf8(chars);
}

/// Whether a byte is an ASCII letter or digit.
fn alphanumeric(b: u8) -> (r: bool)
    ensures
        r == is_alphanumeric(b),
{
    (0x30 <= b && b <= 0x39) || (0x41 <= b && b <= 0x5a) || (0x61 <= b && b <= 0x7a)
}

/// Whether a path is `/nix/store` or lies under it.
pub fn is_in_store(p: &[u8]) -> (r: bool)
    ensures
        r == in_store(p@),
{
    let cs = split_path(p);
    assert(text::spans(cs@).len() == path::components(p@).len());
    if !absolute(p) || cs.len() < 2 {
        return false;
    }
    let nix: [u8; 3] = [0x6e, 0x69, 0x78];
    let store: [u8; 5] = [0x73, 0x74, 0x6f, 0x72, 0x65];
    assert(nix@ =~= nix_name());
    assert(store@ =~= store_name());
    same_run(component(p, &cs, 0), nix.as_slice()) && same_run(
        component(p, &cs, 1),
        store.as_slice(),
    )
}

impl StoreHash {
    /// A store hash consists of letters and digits.
    #[verifier::type_invariant]
    spec fn wf(self) -> bool {
        is_hash(self.bytes@)
    }

    /// Parses a `/nix/store/<hash>-<name>` path. Anything that does not begin with `/nix/store/`
    /// and 32 letters and digits has no hash.
    #[must_use]
    pub fn from_store_path(path: &[u8]) -> (r: Option<Self>)
        ensures
            match r {
                Some(h) => store_path_hash(path@) == Some(h@),
                None => store_path_hash(path@) is None,
            },
    {
        if !is_in_store(path) {
            return None;
        }
        let cs = split_path(path);
        assert(text::spans(cs@).len() == path::components(path@).len());
        if cs.len() < 3 {
            return None;
        }
        Self::from_prefix(component(path, &cs, 2))
    }

    /// Parses a bare `<hash>-<name>`, as in the References and Deriver fields of a narinfo.
    #[must_use]
    pub fn from_name(name: &str) -> (r: Option<Self>)
        ensures
            match r {
                Some(h) => hash_prefix(encode_utf8(name@)) == Some(h@),
                None => hash_prefix(encode_utf8(name@)) is None,
            },
    {
        Self::from_prefix(name.as_bytes())
    }

    /// Parses the hash at the beginning of a byte string.
    pub fn from_prefix(bytes: &[u8]) -> (r: Option<Self>)
        ensures
            match r {
                Some(h) => hash_prefix(bytes@) == Some(h@),
                None => hash_prefix(bytes@) is None,
            },
    {
        if bytes.len() < HASH_LEN {
            return None;
        }
        let mut hash: [u8; 32] = [0; 32];
        let mut i: usize = 0;
        while i < HASH_LEN
            invariant
                HASH_LEN <= bytes@.len(),
                i <= HASH_LEN,
                forall|j: int| 0 <= j < i ==> hash@[j] == bytes@[j],
            decreases HASH_LEN - i,
        {
            hash[i] = bytes[i];
            i = i + 1;
        }
        assert(hash@ =~= bytes@.take(HASH_LEN as int));
        Self::from_bytes(hash)
    }

    /// Validates a buffer of 32 bytes.
    #[must_use]
    pub fn from_bytes(hash: [u8; 32]) -> (r: Option<Self>)
        ensures
            match r {
                Some(h) => is_hash(hash@) && h@ == hash@,
                None => !is_hash(hash@),
            },
    {
        let mut i: usize = 0;
        while i < HASH_LEN
            invariant
                i <= HASH_LEN,
                forall|j: int| 0 <= j < i ==> is_alphanumeric(#[trigger] hash@[j]),
            decreases HASH_LEN - i,
        {
            if !alphanumeric(hash[i]) {
                assert(!is_alphanumeric(hash@[i as int]));
                return None;
            }
            i = i + 1;
        }
        Some(StoreHash { bytes: hash })
    }

    /// The bytes of the hash.
    #[must_use]
    pub fn as_bytes(&self) -> (r: &[u8; 32])
        ensures
            r@ == self@,
            is_hash(self@),
    {
        proof {
            use_type_invariant(self);
        }
        &self.bytes
    }

    /// The hash as text.
    #[must_use]
    pub fn as_str(&self) -> (r: &str)
        ensures
            r@ == ascii_text(self@),
            encode_utf8(r@) == self@,
            is_hash(self@),
    {
        proof {
            use_type_invariant(self);
            lemma_hash_is_text(self@);
        }
        match utf8_text(self.bytes.as_slice()) {
            Some(text) => text,
            None => "",
        }
    }
}

/// A name that begins with a hash has that hash, whatever follows.
pub proof fn a_name_begins_with_its_hash(hash: Seq<u8>, rest: Seq<u8>)
    requires
        is_hash(hash),
    ensures
        hash_prefix(hash + rest) == Some(hash),
{
    assert((hash + rest).take(HASH_LEN as int) =~= hash);
}

/// A hash consists of 32 bytes, each of them an ASCII digit or an ASCII letter of either case.
pub proof fn a_hash_is_made_of_letters_and_digits(b: Seq<u8>)
    ensures
        is_hash(b) <==> {
            &&& b.len() == 32
            &&& forall|i: int|
                0 <= i < b.len() ==> {
                    let c = #[trigger] b[i] as char;
                    '0' <= c <= '9' || 'a' <= c <= 'z' || 'A' <= c <= 'Z'
                }
        },
{
    assert forall|i: int| 0 <= i < b.len() implies is_alphanumeric(#[trigger] b[i]) == {
        let c = b[i] as char;
        '0' <= c <= '9' || 'a' <= c <= 'z' || 'A' <= c <= 'Z'
    } by {}
}

/// A name has a hash exactly where it begins with one, and the hash is that.
pub proof fn a_name_has_the_hash_that_it_begins_with(name: Seq<u8>, h: Seq<u8>)
    ensures
        hash_prefix(name) == Some(h) <==> is_hash(h) && h.is_prefix_of(name),
        hash_prefix(name) is None <==> forall|x: Seq<u8>| #[trigger]
            is_hash(x) ==> !x.is_prefix_of(name),
{
    if name.len() >= 32 {
        assert(name.take(32).is_prefix_of(name)) by {
            assert(name.subrange(0, 32) =~= name.take(32));
        }
    }
    if is_hash(h) && h.is_prefix_of(name) {
        assert(name.take(32) =~= h);
    }
    assert forall|x: Seq<u8>| #[trigger] is_hash(x) && x.is_prefix_of(name) implies hash_prefix(name)
        == Some(x) by {
        assert(name.take(32) =~= x);
    }
    if hash_prefix(name) is Some {
        assert(is_hash(hash_prefix(name)->0));
    }
}

proof fn lemma_store_names()
    ensures
        nix_name() == encode_utf8("nix"@),
        store_name() == encode_utf8("store"@),
        path::components(encode_utf8("/nix/store"@)) == seq![nix_name(), store_name()],
        encode_utf8("/nix/store"@).len() == 10,
        encode_utf8("/nix/store"@)[0] == path::SLASH,
        encode_utf8("/nix/store/"@) == encode_utf8("/nix/store"@).push(path::SLASH),
        !nix_name().contains(path::SLASH),
        !store_name().contains(path::SLASH),
{
    reveal_strlit("nix");
    reveal_strlit("store");
    reveal_strlit("/nix/store");
    reveal_strlit("/nix/store/");
    is_ascii_chars_encode_utf8("nix"@);
    is_ascii_chars_encode_utf8("store"@);
    is_ascii_chars_encode_utf8("/nix/store"@);
    is_ascii_chars_encode_utf8("/nix/store/"@);
    assert(encode_utf8("nix"@) =~= nix_name());
    assert(encode_utf8("store"@) =~= store_name());
    let none = Seq::<u8>::empty();
    let dir = encode_utf8("/nix/store"@);
    let nix = none.push(path::SLASH) + nix_name();
    assert(dir =~= nix.push(path::SLASH) + store_name());
    assert(encode_utf8("/nix/store/"@) =~= dir.push(path::SLASH));
    path::a_path_is_read_name_by_name(none, none);
    path::a_path_is_read_name_by_name(none, nix_name());
    path::a_path_is_read_name_by_name(nix, store_name());
    assert(path::components(dir) =~= seq![nix_name(), store_name()]);
}

/// A path has a hash exactly where it begins at the root, its first two components are `nix` and
/// `store`, and the third begins with the hash.
pub proof fn only_paths_below_the_store_have_a_hash(p: Seq<u8>, h: Seq<u8>)
    ensures
        store_path_hash(p) == Some(h) <==> {
            let cs = path::components(p);
            &&& p.len() > 0 && p[0] == 0x2f
            &&& cs.len() >= 3
            &&& cs[0] == encode_utf8("nix"@)
            &&& cs[1] == encode_utf8("store"@)
            &&& is_hash(h) && h.is_prefix_of(cs[2])
        },
        in_store(p) <==> {
            let cs = path::components(p);
            &&& p.len() > 0 && p[0] == 0x2f
            &&& cs.len() >= 2
            &&& cs[0] == encode_utf8("nix"@)
            &&& cs[1] == encode_utf8("store"@)
        },
{
    lemma_store_names();
    let cs = path::components(p);
    if cs.len() >= 3 {
        a_name_has_the_hash_that_it_begins_with(cs[2], h);
    }
}

/// A store path has the hash that its name begins with, whatever lies below it.
pub proof fn what_lies_below_a_store_path_does_not_matter(name: Seq<u8>, below: Seq<u8>)
    requires
        name.len() > 0,
        name != seq![0x2eu8],
        !name.contains(0x2f),
    ensures
        store_path_hash(encode_utf8("/nix/store/"@) + name) == hash_prefix(name),
        store_path_hash(encode_utf8("/nix/store/"@) + name + seq![0x2fu8] + below) == hash_prefix(
            name,
        ),
{
    lemma_store_names();
    let dir = encode_utf8("/nix/store"@);
    let p = dir.push(path::SLASH) + name;
    path::a_path_is_read_name_by_name(dir, name);
    path::a_path_is_read_from_left_to_right(p, below);
    assert(encode_utf8("/nix/store/"@) + name =~= p);
    let q = encode_utf8("/nix/store/"@) + name + seq![0x2fu8] + below;
    assert(q =~= p.push(path::SLASH) + below);
    assert(path::components(p)[2] == name);
    assert(path::components(q)[2] == name);
    assert(path::components(q)[1] == store_name());
    assert(path::components(q)[0] == nix_name());
}

/// In a path of the store directory and a name, the name is the third component.
pub proof fn lemma_store_path_spans(name: Seq<u8>)
    requires
        name.len() > 1,
        !name.contains(path::SLASH),
    ensures
        ({
            let p = encode_utf8("/nix/store/"@) + name;
            let cs = path::component_spans(p);
            &&& cs.len() == 3
            &&& cs[2] == (11int, p.len() as int)
            &&& p.subrange(11, p.len() as int) == name
        }),
{
    lemma_store_names();
    let dir = encode_utf8("/nix/store"@);
    let p = dir.push(path::SLASH) + name;
    assert(p.subrange(11, p.len() as int) =~= name);
    path::a_path_is_read_name_by_name(dir, name);
    path::lemma_third_component(p, nix_name(), store_name(), name);
}

/// The text of a hash is the hash, letter by letter.
pub proof fn a_hash_is_spelled_letter_by_letter(b: Seq<u8>, i: int)
    ensures
        ascii_text(b).len() == b.len(),
        0 <= i < b.len() ==> ascii_text(b)[i] == b[i] as char,
{
}

/// Bytes below 128 are text, one character each.
pub proof fn lemma_small_bytes_are_text(b: Seq<u8>)
    requires
        forall|i: int| 0 <= i < b.len() ==> #[trigger] b[i] < 0x80,
    ensures
        valid_utf8(b),
{
    let s = ascii_text(b);
    is_ascii_chars_encode_utf8(s);
    assert(encode_utf8(s) =~= b);
    encode_utf8_valid_utf8(s);
}

} // verus!
