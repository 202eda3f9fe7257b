//! Sets of byte strings: store hashes already met, and the names of files to keep.

use rustc_hash::{FxBuildHasher, FxHashSet};
use vstd::prelude::*;
use vstd::slice::slice_to_vec;

verus! {

/// `rustc_hash::FxBuildHasher`, the hasher of the sets and maps here. Nothing is said of it.
#[verifier::external_type_specification]
#[verifier::external_body]
pub struct ExFxBuildHasher(FxBuildHasher);

/// The byte strings in a hash set.
pub uninterp spec fn fx_members(set: FxHashSet<Vec<u8>>) -> Set<Seq<u8>>;

/// `FxHashSet::default`: a set with nothing in it.
#[verifier::external_body]
fn fx_new() -> (r: FxHashSet<Vec<u8>>)
    ensures
        fx_members(r) == Set::<Seq<u8>>::empty(),
{
    FxHashSet::default()
}

/// `FxHashSet::insert`: puts a byte string into the set and says whether it is new there.
#[verifier::external_body]
fn fx_insert(set: &mut FxHashSet<Vec<u8>>, bytes: Vec<u8>) -> (r: bool)
    ensures
        fx_members(*final(set)) == fx_members(*old(set)).insert(bytes@),
        r == !fx_members(*old(set)).contains(bytes@),
{
    set.insert(bytes)
}

/// `FxHashSet::contains`: whether a byte string is in the set.
#[verifier::external_body]
fn fx_contains(set: &FxHashSet<Vec<u8>>, bytes: &[u8]) -> (r: bool)
    ensures
        r == fx_members(*set).contains(bytes@),
{
    set.contains(bytes)
}

/// `FxHashSet::len`: how many byte strings the set holds.
#[verifier::external_body]
fn fx_len(set: &FxHashSet<Vec<u8>>) -> (r: usize)
    ensures
        r == fx_members(*set).len(),
{
    set.len()
}

/// A set of byte strings.
pub struct ByteSet {
    set: FxHashSet<Vec<u8>>,
}

impl View for ByteSet {
    type V = Set<Seq<u8>>;

    closed spec fn view(&self) -> Set<Seq<u8>> {
        fx_members(self.set)
    }
}

impl ByteSet {
    /// The empty set.
    pub fn new() -> (r: Self)
        ensures
            r@ == Set::<Seq<u8>>::empty(),
    {
        ByteSet { set: fx_new() }
    }

    /// Puts a byte string into the set and says whether it is new there.
    pub fn insert(&mut self, bytes: &[u8]) -> (r: bool)
        ensures
            final(self)@ == old(self)@.insert(bytes@),
            r == !old(self)@.contains(bytes@),
    {
        fx_insert(&mut self.set, slice_to_vec(bytes))
    }

    /// Whether a byte string is in the set.
    pub fn contains(&self, bytes: &[u8]) -> (r: bool)
        ensures
            r == self@.contains(bytes@),
    {
        fx_contains(&self.set, bytes)
    }

    /// How many byte strings the set holds.
    pub fn len(&self) -> (r: usize)
        ensures
            r == self@.len(),
    {
        fx_len(&self.set)
    }
}

} // verus!
