//! The walk over everything that the garbage collection roots need.

use crate::binary_cache;
use crate::binary_cache::{NarInfo, NarInfoView};
use crate::byte_set::ByteSet;
use crate::closure_cache;
use crate::store_hash;
use crate::store_hash::StoreHash;
use std::collections::VecDeque;
use vstd::prelude::*;
use vstd::relations::*;
use vstd::set_lib::*;

verus! {

// ---------------------------------------------------------------------------------------------
// The model
// ---------------------------------------------------------------------------------------------
/// Which hashes wait to be looked up, and which have been met.
#[verifier::ext_equal]
pub struct ScanState {
    pub queue: Seq<Seq<u8>>,
    pub seen: Set<Seq<u8>>,
}

/// Nothing has been met.
pub open spec fn nothing_seen() -> ScanState {
    ScanState { queue: Seq::empty(), seen: Set::empty() }
}

/// A hash that is met for the first time waits behind the others.
pub open spec fn met(st: ScanState, hash: Seq<u8>) -> ScanState {
    if st.seen.contains(hash) {
        st
    } else {
        ScanState { queue: st.queue.push(hash), seen: st.seen.insert(hash) }
    }
}

/// Hashes met one after another.
pub open spec fn met_all(st: ScanState, hashes: Seq<Seq<u8>>) -> ScanState
    decreases hashes.len(),
{
    if hashes.len() == 0 {
        st
    } else {
        met(met_all(st, hashes.drop_last()), hashes.last())
    }
}

/// What a store path needs: its references, and its deriver.
pub open spec fn needs(info: NarInfoView) -> Seq<Seq<u8>> {
    match info.deriver {
        Some(d) => info.references.push(d),
        None => info.references,
    }
}

/// The state without the hash at the front of the queue.
pub open spec fn popped(st: ScanState) -> ScanState {
    ScanState { queue: st.queue.drop_first(), seen: st.seen }
}

/// A walk in progress: its state, the hashes that were looked up, and what was found.
#[verifier::ext_equal]
pub struct Walk {
    pub state: ScanState,
    pub asked: Seq<Seq<u8>>,
    pub found: Seq<(Seq<u8>, NarInfoView)>,
}

/// The hash at the front of the queue is looked up: where it has metadata, that is found, and
/// what it needs is met.
pub open spec fn stepped(w: Walk, reply: Option<NarInfoView>) -> Walk {
    let hash = w.state.queue[0];
    match reply {
        Some(info) => Walk {
            state: met_all(popped(w.state), needs(info)),
            asked: w.asked.push(hash),
            found: w.found.push((hash, info)),
        },
        None => Walk { state: popped(w.state), asked: w.asked.push(hash), found: w.found },
    }
}

/// The walk from `start` in which the lookups gave `replies`.
pub open spec fn walk(start: ScanState, replies: Seq<Option<NarInfoView>>) -> Walk
    decreases replies.len(),
{
    if replies.len() == 0 {
        Walk { state: start, asked: Seq::empty(), found: Seq::empty() }
    } else {
        stepped(walk(start, replies.drop_last()), replies.last())
    }
}

/// The walk ends with these replies and no earlier: each of them answers a hash in the queue,
/// and then the queue is empty.
pub open spec fn ends_with(start: ScanState, replies: Seq<Option<NarInfoView>>) -> bool {
    &&& forall|k: int|
        0 <= k < replies.len() ==> (#[trigger] walk(start, replies.take(k))).state.queue.len() > 0
    &&& walk(start, replies).state.queue.len() == 0
}

/// The metadata in an optional narinfo.
pub open spec fn opt_info(info: Option<NarInfo>) -> Option<NarInfoView> {
    match info {
        Some(i) => Some(i@),
        None => None,
    }
}

// ---------------------------------------------------------------------------------------------
// The scanner
// ---------------------------------------------------------------------------------------------
/// A lookup that a scan asks for, with how far the scan is: how many hashes it has taken up, and
/// how many it has met.
pub struct ScanStep {
    pub hash: StoreHash,
    pub position: u64,
    pub length: u64,
}

/// Whether `step` asks for the hash at the front of the queue.
pub open spec fn asks(step: ScanStep, st: ScanState) -> bool {
    &&& step.hash@ == st.queue[0]
    &&& step.position == st.seen.len() - st.queue.drop_first().len()
    &&& step.length == st.seen.len()
}

/// Whether `reply` may be what `lookup` gives for the hash at the front of the queue.
pub open spec fn replies<F: Fn(ScanStep) -> Option<NarInfo>>(
    lookup: F,
    st: ScanState,
    reply: Option<NarInfoView>,
) -> bool {
    exists|step: ScanStep, info: Option<NarInfo>|
        #[trigger] call_ensures(lookup, (step,), info) && asks(step, st) && opt_info(info) == reply
}

/// Walks the closure of the hashes that are put into it.
pub struct DependencyScanner {
    queue: VecDeque<StoreHash>,
    seen: ByteSet,
}

impl View for DependencyScanner {
    type V = ScanState;

    closed spec fn view(&self) -> ScanState {
        ScanState { queue: binary_cache::hashes(self.queue@), seen: self.seen@ }
    }
}

impl Default for DependencyScanner {
    fn default() -> (r: Self)
        ensures
            r@ == nothing_seen(),
            scan_wf(r@),
    {
        DependencyScanner::new()
    }
}

/// What waits has been met, once; and there are finitely many hashes, all of them proper.
pub open spec fn scan_wf(st: ScanState) -> bool {
    &&& st.seen.finite()
    &&& forall|h: Seq<u8>| #[trigger] st.seen.contains(h) ==> store_hash::is_hash(h)
    &&& st.queue.no_duplicates()
    &&& forall|k: int| 0 <= k < st.queue.len() ==> st.seen.contains(#[trigger] st.queue[k])
}

/// A queue without repetition is no longer than the set that it comes from.
proof fn lemma_queue_len(st: ScanState)
    requires
        scan_wf(st),
    ensures
        st.queue.len() <= st.seen.len(),
{
    st.queue.unique_seq_to_set();
    assert(st.queue.to_set().subset_of(st.seen));
    lemma_len_subset(st.queue.to_set(), st.seen);
}

impl DependencyScanner {
    /// A scanner that has met nothing.
    #[must_use]
    pub fn new() -> (r: Self)
        ensures
            r@ == nothing_seen(),
            scan_wf(r@),
    {
        let r = DependencyScanner { queue: VecDeque::new(), seen: ByteSet::new() };
        assert(r@ =~= nothing_seen());
        r
    }

    /// Puts a hash into the scan, unless it is already there.
    pub fn enqueue(&mut self, hash: StoreHash)
        requires
            scan_wf(old(self)@),
        ensures
            final(self)@ == met(old(self)@, hash@),
            scan_wf(final(self)@),
    {
        let bytes = hash.as_bytes();
        if self.seen.insert(bytes.as_slice()) {
            self.queue.push_back(hash);
        }
        assert(self@ =~= met(old(self)@, hash@));
        proof {
            lemma_met_wf(old(self)@, hash@);
        }
    }

    /// Puts what a store path needs into the scan.
    pub fn enqueue_needs(&mut self, info: &NarInfo)
        requires
            scan_wf(old(self)@),
        ensures
            final(self)@ == met_all(old(self)@, needs(info@)),
            scan_wf(final(self)@),
    {
        let ghost refs = info@.references;
        let mut i: usize = 0;
        assert(refs.take(0) =~= Seq::<Seq<u8>>::empty());
        while i < info.references.len()
            invariant
                refs == binary_cache::hashes(info.references@),
                i <= info.references@.len(),
                self@ == met_all(old(self)@, refs.take(i as int)),
                scan_wf(self@),
            decreases info.references@.len() - i,
        {
            self.enqueue(info.references[i]);
            assert(refs.take(i + 1).drop_last() =~= refs.take(i as int));
            i = i + 1;
        }
        assert(refs.take(i as int) =~= refs);
        match info.deriver {
            Some(d) => {
                self.enqueue(d);
                assert(refs.push(d@).drop_last() =~= refs);
            },
            None => {},
        }
    }

    /// Takes the next lookup off the queue; there is none once the closure is complete.
    pub fn next_step(&mut self) -> (r: Option<ScanStep>)
        requires
            scan_wf(old(self)@),
        ensures
            match r {
                Some(step) => {
                    &&& old(self)@.queue.len() > 0
                    &&& asks(step, old(self)@)
                    &&& final(self)@ == popped(old(self)@)
                },
                None => old(self)@.queue.len() == 0 && final(self)@ == old(self)@,
            },
            scan_wf(final(self)@),
    {
        proof {
            lemma_queue_len(self@);
        }
        match self.queue.pop_front() {
            Some(hash) => {
                assert(self@ =~= popped(old(self)@));
                proof {
                    lemma_popped_wf(old(self)@);
                }
                let length: usize = self.seen.len();
                let waiting: usize = self.queue.len();
                Some(
                    ScanStep {
                        hash,
                        position: (length - waiting) as u64,
                        length: length as u64,
                    },
                )
            },
            None => {
                assert(self@ =~= old(self)@);
                None
            },
        }
    }
}

/// A closure: the hashes in it, and the metadata of those that have any, in the order of the
/// lookups.
pub struct Closure {
    pub hashes: Vec<StoreHash>,
    pub infos: Vec<(StoreHash, NarInfo)>,
}

impl DependencyScanner {
    /// Walks the closure of everything in the scan and returns the metadata of every hash in it
    /// that has any, in the order of the lookups.
    ///
    /// `lookup` is asked once for each hash of the closure.
    pub fn scan<F: Fn(ScanStep) -> Option<NarInfo>>(self, lookup: F) -> (r: Vec<
        (StoreHash, NarInfo),
    >)
        requires
            scan_wf(self@),
            forall|step: ScanStep| #[trigger] call_requires(lookup, (step,)),
        ensures
            exists|rs: Seq<Option<NarInfoView>>|
                {
                    &&& #[trigger] ends_with(self@, rs)
                    &&& forall|k: int|
                        0 <= k < rs.len() ==> replies(
                            lookup,
                            (#[trigger] walk(self@, rs.take(k))).state,
                            rs[k],
                        )
                    &&& closure_cache::entries(r@) == walk(self@, rs).found
                },
    {
        self.closure(lookup).infos
    }

    /// Walks the closure of everything in the scan.
    ///
    /// `lookup` is asked once for each hash of the closure.
    pub fn closure<F: Fn(ScanStep) -> Option<NarInfo>>(self, lookup: F) -> (r: Closure)
        requires
            scan_wf(self@),
            forall|step: ScanStep| #[trigger] call_requires(lookup, (step,)),
        ensures
            exists|rs: Seq<Option<NarInfoView>>|
                {
                    &&& #[trigger] ends_with(self@, rs)
                    &&& forall|k: int|
                        0 <= k < rs.len() ==> replies(
                            lookup,
                            (#[trigger] walk(self@, rs.take(k))).state,
                            rs[k],
                        )
                    &&& binary_cache::hashes(r.hashes@) == walk(self@, rs).asked
                    &&& closure_cache::entries(r.infos@) == walk(self@, rs).found
                },
    {
        let ghost start = self@;
        let mut scanner = self;
        let mut asked: Vec<StoreHash> = Vec::new();
        let mut found: Vec<(StoreHash, NarInfo)> = Vec::new();
        let ghost mut rs: Seq<Option<NarInfoView>> = Seq::empty();
        let ghost bound = closure_cache::le_bound(32);
        proof {
            lemma_hash_count(scanner@.seen);
        }
        assert(binary_cache::hashes(asked@) =~= walk(start, rs).asked);
        assert(closure_cache::entries(found@) =~= walk(start, rs).found);
        loop
            invariant
                scan_wf(scanner@),
                forall|step: ScanStep| #[trigger] call_requires(lookup, (step,)),
                scanner@ == walk(start, rs).state,
                binary_cache::hashes(asked@) == walk(start, rs).asked,
                closure_cache::entries(found@) == walk(start, rs).found,
                forall|k: int|
                    0 <= k < rs.len() ==> {
                        let st = (#[trigger] walk(start, rs.take(k))).state;
                        st.queue.len() > 0 && replies(lookup, st, rs[k])
                    },
                bound == closure_cache::le_bound(32),
                scanner@.seen.len() <= bound,
            ensures
                scanner@.queue.len() == 0,
            decreases bound - scanner@.seen.len(), scanner@.queue.len(),
        {
            let ghost st = scanner@;
            let step = match scanner.next_step() {
                Some(step) => step,
                None => break,
            };
            let hash = step.hash;
            let ghost hashes = asked@;
            asked.push(hash);
            assert(binary_cache::hashes(asked@) =~= binary_cache::hashes(hashes).push(hash@));
            let reply = lookup(step);
            let ghost before = rs;
            proof {
                rs = rs.push(opt_info(reply));
                assert(rs.drop_last() =~= before);
                assert(replies(lookup, st, opt_info(reply)));
                assert forall|k: int| 0 <= k < rs.len() implies {
                    let st = (#[trigger] walk(start, rs.take(k))).state;
                    st.queue.len() > 0 && replies(lookup, st, rs[k])
                } by {
                    if k < before.len() {
                        assert(rs.take(k) =~= before.take(k));
                    } else {
                        assert(rs.take(k) =~= before);
                    }
                }
            }
            match reply {
                Some(info) => {
                    scanner.enqueue_needs(&info);
                    let ghost list = found@;
                    found.push((hash, info));
                    assert(closure_cache::entries(found@) =~= closure_cache::entries(list).push(
                        (hash@, info@),
                    ));
                    proof {
                        lemma_met_all_grows(popped(st), needs(info@));
                    }
                },
                None => {},
            }
            proof {
                lemma_hash_count(scanner@.seen);
            }
        }
        assert(ends_with(start, rs));
        Closure { hashes: asked, infos: found }
    }
}

/// There are only so many hashes.
proof fn lemma_hash_count(s: Set<Seq<u8>>)
    requires
        s.finite(),
        forall|h: Seq<u8>| #[trigger] s.contains(h) ==> store_hash::is_hash(h),
    ensures
        s.len() <= closure_cache::le_bound(32),
{
    let value = |h: Seq<u8>| closure_cache::le_value(h) as int;
    let values = s.map(value);
    let bound = closure_cache::le_bound(32) as int;
    assert(injective_on(value, s)) by {
        assert forall|a: Seq<u8>, b: Seq<u8>|
            #![trigger value(a), value(b)]
            s.contains(a) && s.contains(b) && value(a) == value(b) implies a == b by {
            assert(store_hash::is_hash(a) && store_hash::is_hash(b));
            lemma_value_injective(a, b);
        }
    }
    lemma_map_size(s, values, value);
    assert forall|n: int| values.contains(n) implies set_int_range(0, bound).contains(n) by {
        let h = choose|h: Seq<u8>| s.contains(h) && value(h) == n;
        assert(store_hash::is_hash(h));
        closure_cache::lemma_value_bound(h);
    }
    lemma_int_range(0, bound);
    lemma_len_subset(values, set_int_range(0, bound));
}

proof fn lemma_value_injective(a: Seq<u8>, b: Seq<u8>)
    requires
        a.len() == b.len(),
        closure_cache::le_value(a) == closure_cache::le_value(b),
    ensures
        a == b,
    decreases a.len(),
{
    if a.len() > 0 {
        lemma_value_injective(a.drop_first(), b.drop_first());
        assert forall|i: int| 0 <= i < a.len() implies a[i] == b[i] by {
            if i > 0 {
                assert(a[i] == a.drop_first()[i - 1]);
                assert(b[i] == b.drop_first()[i - 1]);
            }
        }
    }
    assert(a =~= b);
}

/// Meeting hashes that are all known changes nothing; otherwise more hashes are known.
proof fn lemma_met_all_grows(st: ScanState, hashes: Seq<Seq<u8>>)
    requires
        st.seen.finite(),
    ensures
        met_all(st, hashes).seen.finite(),
        met_all(st, hashes).seen.len() >= st.seen.len(),
        met_all(st, hashes).seen.len() == st.seen.len() ==> met_all(st, hashes) == st,
    decreases hashes.len(),
{
    if hashes.len() > 0 {
        lemma_met_all_grows(st, hashes.drop_last());
    }
}

proof fn lemma_met_wf(st: ScanState, hash: Seq<u8>)
    requires
        scan_wf(st),
        store_hash::is_hash(hash),
    ensures
        scan_wf(met(st, hash)),
{
    if !st.seen.contains(hash) {
        let next = met(st, hash);
        assert forall|k: int| 0 <= k < next.queue.len() implies next.seen.contains(
            #[trigger] next.queue[k],
        ) by {
            if k < st.queue.len() {
                assert(st.seen.contains(st.queue[k]));
            }
        }
        assert forall|a: int, b: int|
            0 <= a < next.queue.len() && 0 <= b < next.queue.len() && a != b implies next.queue[a]
            != next.queue[b] by {
            if a < st.queue.len() {
                assert(st.seen.contains(st.queue[a]));
            }
            if b < st.queue.len() {
                assert(st.seen.contains(st.queue[b]));
            }
        }
    }
}

proof fn lemma_popped_wf(st: ScanState)
    requires
        scan_wf(st),
        st.queue.len() > 0,
    ensures
        scan_wf(popped(st)),
{
    assert forall|k: int| 0 <= k < popped(st).queue.len() implies popped(st).seen.contains(
        #[trigger] popped(st).queue[k],
    ) by {
        assert(st.seen.contains(st.queue[k + 1]));
    }
}

// ---------------------------------------------------------------------------------------------
// Reachability
// ---------------------------------------------------------------------------------------------
/// Whether the metadata of `a` names `b`.
pub open spec fn leads_to(
    infos: spec_fn(Seq<u8>) -> Option<NarInfoView>,
    a: Seq<u8>,
    b: Seq<u8>,
) -> bool {
    infos(a) matches Some(info) && needs(info).contains(b)
}

/// Whether `p` goes from a root from each hash to one that it leads to.
pub open spec fn is_path(
    infos: spec_fn(Seq<u8>) -> Option<NarInfoView>,
    roots: Seq<Seq<u8>>,
    p: Seq<Seq<u8>>,
) -> bool {
    &&& p.len() > 0
    &&& roots.contains(p[0])
    &&& forall|k: int| 0 <= k < p.len() - 1 ==> leads_to(infos, #[trigger] p[k], p[k + 1])
}

/// Whether a hash can be reached from the roots.
pub open spec fn reachable(
    infos: spec_fn(Seq<u8>) -> Option<NarInfoView>,
    roots: Seq<Seq<u8>>,
    hash: Seq<u8>,
) -> bool {
    exists|p: Seq<Seq<u8>>| #[trigger] is_path(infos, roots, p) && p.last() == hash
}

/// The state in which the roots have been put into the scan.
pub open spec fn rooted(roots: Seq<Seq<u8>>) -> ScanState {
    met_all(nothing_seen(), roots)
}

/// Whether each reply is what `infos` says of the hash that was asked for.
pub open spec fn agree(
    start: ScanState,
    replies: Seq<Option<NarInfoView>>,
    infos: spec_fn(Seq<u8>) -> Option<NarInfoView>,
) -> bool {
    forall|k: int|
        0 <= k < replies.len() ==> infos((#[trigger] walk(start, replies.take(k))).state.queue[0])
            == replies[k]
}

/// Every hash that was met was asked for or waits, and only once.
spec fn accounted(w: Walk) -> bool {
    &&& (w.asked + w.state.queue).no_duplicates()
    &&& forall|h: Seq<u8>|
        w.state.seen.contains(h) <==> #[trigger] (w.asked + w.state.queue).contains(h)
}

/// Every reply but the last answers a hash in the queue.
spec fn in_progress(start: ScanState, replies: Seq<Option<NarInfoView>>) -> bool {
    forall|k: int|
        0 <= k < replies.len() ==> (#[trigger] walk(start, replies.take(k))).state.queue.len() > 0
}

proof fn lemma_in_progress_shorter(start: ScanState, replies: Seq<Option<NarInfoView>>)
    requires
        in_progress(start, replies),
        replies.len() > 0,
    ensures
        in_progress(start, replies.drop_last()),
        walk(start, replies.drop_last()).state.queue.len() > 0,
{
    let shorter = replies.drop_last();
    assert forall|k: int| 0 <= k < shorter.len() implies (#[trigger] walk(
        start,
        shorter.take(k),
    )).state.queue.len() > 0 by {
        assert(shorter.take(k) =~= replies.take(k));
    }
    assert(replies.take(replies.len() - 1) =~= shorter);
}

proof fn lemma_met_accounted(asked: Seq<Seq<u8>>, st: ScanState, hash: Seq<u8>)
    requires
        accounted(Walk { state: st, asked, found: Seq::empty() }),
    ensures
        accounted(Walk { state: met(st, hash), asked, found: Seq::empty() }),
        forall|h: Seq<u8>| met(st, hash).seen.contains(h) <==> st.seen.contains(h) || h == hash,
{
    if !st.seen.contains(hash) {
        let order = asked + st.queue;
        let longer = asked + met(st, hash).queue;
        assert(longer =~= order.push(hash));
        assert(!order.contains(hash));
        assert forall|h: Seq<u8>| #[trigger] longer.contains(h) implies met(st, hash).seen.contains(
            h,
        ) by {
            let j = choose|j: int| 0 <= j < longer.len() && longer[j] == h;
            if j < order.len() {
                assert(order[j] == h);
                assert(order.contains(h));
            }
        }
        assert forall|h: Seq<u8>| met(st, hash).seen.contains(h) implies #[trigger] longer.contains(
            h,
        ) by {
            if h == hash {
                assert(longer[order.len() as int] == h);
            } else {
                assert(order.contains(h));
                let j = choose|j: int| 0 <= j < order.len() && order[j] == h;
                assert(longer[j] == h);
            }
        }
        assert forall|a: int, b: int|
            0 <= a < longer.len() && 0 <= b < longer.len() && a != b implies longer[a]
            != longer[b] by {
            if a < order.len() {
                assert(order.contains(order[a]));
            }
            if b < order.len() {
                assert(order.contains(order[b]));
            }
        }
    }
}

proof fn lemma_met_all_accounted(asked: Seq<Seq<u8>>, st: ScanState, hashes: Seq<Seq<u8>>)
    requires
        accounted(Walk { state: st, asked, found: Seq::empty() }),
    ensures
        accounted(Walk { state: met_all(st, hashes), asked, found: Seq::empty() }),
        forall|h: Seq<u8>| #[trigger]
            met_all(st, hashes).seen.contains(h) <==> st.seen.contains(h) || hashes.contains(h),
    decreases hashes.len(),
{
    if hashes.len() > 0 {
        let shorter = hashes.drop_last();
        lemma_met_all_accounted(asked, st, shorter);
        lemma_met_accounted(asked, met_all(st, shorter), hashes.last());
        assert forall|h: Seq<u8>| hashes.contains(h) <==> shorter.contains(h) || h
            == hashes.last() by {
            if hashes.contains(h) && h != hashes.last() {
                let j = choose|j: int| 0 <= j < hashes.len() && hashes[j] == h;
                assert(shorter[j] == h);
            }
            if shorter.contains(h) {
                let j = choose|j: int| 0 <= j < shorter.len() && shorter[j] == h;
                assert(hashes[j] == h);
            }
            assert(hashes[hashes.len() - 1] == hashes.last());
        }
    }
}

/// What one lookup does to the order of the hashes.
proof fn lemma_step_accounted(w: Walk, reply: Option<NarInfoView>)
    requires
        accounted(w),
        w.state.queue.len() > 0,
    ensures
        accounted(stepped(w, reply)),
        !w.asked.contains(w.state.queue[0]),
        forall|h: Seq<u8>| #[trigger]
            stepped(w, reply).state.seen.contains(h) <==> w.state.seen.contains(h) || (
            reply matches Some(info) && needs(info).contains(h)),
{
    let hash = w.state.queue[0];
    let order = w.asked + w.state.queue;
    let next = w.asked.push(hash) + popped(w.state).queue;
    assert(next =~= order);
    assert(accounted(
        Walk { state: popped(w.state), asked: w.asked.push(hash), found: Seq::empty() },
    ));
    assert(!w.asked.contains(hash)) by {
        if w.asked.contains(hash) {
            let j = choose|j: int| 0 <= j < w.asked.len() && w.asked[j] == hash;
            assert(order[j] == hash);
            assert(order[w.asked.len() as int] == hash);
        }
    }
    match reply {
        Some(info) => lemma_met_all_accounted(w.asked.push(hash), popped(w.state), needs(info)),
        None => {},
    }
}

/// No hash is asked for twice, and every hash that was met was asked for or waits.
proof fn lemma_walk_accounted(roots: Seq<Seq<u8>>, replies: Seq<Option<NarInfoView>>)
    requires
        in_progress(rooted(roots), replies),
    ensures
        accounted(walk(rooted(roots), replies)),
    decreases replies.len(),
{
    let start = rooted(roots);
    if replies.len() == 0 {
        let none = Walk { state: nothing_seen(), asked: Seq::empty(), found: Seq::empty() };
        assert((none.asked + none.state.queue) =~= Seq::<Seq<u8>>::empty());
        lemma_met_all_accounted(Seq::empty(), nothing_seen(), roots);
    } else {
        lemma_in_progress_shorter(start, replies);
        lemma_walk_accounted(roots, replies.drop_last());
        lemma_step_accounted(walk(start, replies.drop_last()), replies.last());
    }
}

/// What a walk has done so far, against what `infos` says.
spec fn sound(
    infos: spec_fn(Seq<u8>) -> Option<NarInfoView>,
    roots: Seq<Seq<u8>>,
    w: Walk,
) -> bool {
    &&& accounted(w)
    &&& forall|h: Seq<u8>| roots.contains(h) ==> #[trigger] w.state.seen.contains(h)
    &&& forall|h: Seq<u8>| #[trigger] w.state.seen.contains(h) ==> reachable(infos, roots, h)
    &&& forall|a: Seq<u8>, b: Seq<u8>|
        #![trigger w.asked.contains(a), w.state.seen.contains(b)]
        w.asked.contains(a) && leads_to(infos, a, b) ==> w.state.seen.contains(b)
    &&& forall|h: Seq<u8>, info: NarInfoView|
        #![trigger w.found.contains((h, info))]
        w.found.contains((h, info)) <==> w.asked.contains(h) && infos(h) == Some(info)
    &&& forall|a: int, b: int|
        0 <= a < b < w.found.len() ==> (#[trigger] w.found[a]).0 != (#[trigger] w.found[b]).0
}

/// What a hash that can be reached leads to can be reached.
pub proof fn lemma_reach_further(
    infos: spec_fn(Seq<u8>) -> Option<NarInfoView>,
    roots: Seq<Seq<u8>>,
    a: Seq<u8>,
    b: Seq<u8>,
)
    requires
        reachable(infos, roots, a),
        leads_to(infos, a, b),
    ensures
        reachable(infos, roots, b),
{
    let p = choose|p: Seq<Seq<u8>>| #[trigger] is_path(infos, roots, p) && p.last() == a;
    let longer = p.push(b);
    assert forall|k: int| 0 <= k < longer.len() - 1 implies leads_to(
        infos,
        #[trigger] longer[k],
        longer[k + 1],
    ) by {
        if k < p.len() - 1 {
            assert(leads_to(infos, p[k], p[k + 1]));
        }
    }
    assert(is_path(infos, roots, longer));
    assert(longer.last() == b);
}

proof fn lemma_push_contains<A>(s: Seq<A>, x: A, y: A)
    ensures
        s.push(x).contains(y) <==> s.contains(y) || y == x,
{
    if s.contains(y) {
        let j = choose|j: int| 0 <= j < s.len() && s[j] == y;
        assert(s.push(x)[j] == y);
    }
    assert(s.push(x)[s.len() as int] == x);
    if s.push(x).contains(y) && y != x {
        let j = choose|j: int| 0 <= j < s.push(x).len() && s.push(x)[j] == y;
        assert(s[j] == y);
    }
}

proof fn lemma_step_sound(
    infos: spec_fn(Seq<u8>) -> Option<NarInfoView>,
    roots: Seq<Seq<u8>>,
    w: Walk,
)
    requires
        sound(infos, roots, w),
        w.state.queue.len() > 0,
    ensures
        sound(infos, roots, stepped(w, infos(w.state.queue[0]))),
{
    let hash = w.state.queue[0];
    let reply = infos(hash);
    let next = stepped(w, reply);
    lemma_step_accounted(w, reply);
    assert(w.state.seen.contains(hash)) by {
        assert((w.asked + w.state.queue)[w.asked.len() as int] == hash);
        assert((w.asked + w.state.queue).contains(hash));
    }
    assert forall|h: Seq<u8>| #[trigger] next.state.seen.contains(h) implies reachable(
        infos,
        roots,
        h,
    ) by {
        if !w.state.seen.contains(h) {
            assert(leads_to(infos, hash, h));
            lemma_reach_further(infos, roots, hash, h);
        }
    }
    assert forall|a: Seq<u8>, b: Seq<u8>|
        #![trigger next.asked.contains(a), next.state.seen.contains(b)]
        next.asked.contains(a) && leads_to(infos, a, b) implies next.state.seen.contains(b) by {
        lemma_push_contains(w.asked, hash, a);
        if a != hash {
            assert(w.asked.contains(a));
            assert(w.state.seen.contains(b));
        }
    }
    assert forall|h: Seq<u8>, info: NarInfoView|
        #![trigger next.found.contains((h, info))]
        next.found.contains((h, info)) <==> next.asked.contains(h) && infos(h) == Some(info) by {
        lemma_push_contains(w.asked, hash, h);
        match reply {
            Some(i) => lemma_push_contains(w.found, (hash, i), (h, info)),
            None => {},
        }
        assert(w.found.contains((h, info)) <==> w.asked.contains(h) && infos(h) == Some(info));
    }
    assert forall|a: int, b: int| 0 <= a < b < next.found.len() implies (#[trigger] next.found[a]).0
        != (#[trigger] next.found[b]).0 by {
        if b == w.found.len() {
            assert(w.found.contains(w.found[a]));
            assert(w.found.contains((w.found[a].0, w.found[a].1)));
            assert(w.asked.contains(w.found[a].0));
        } else {
            assert(w.found[a].0 != w.found[b].0);
        }
    }
}

proof fn lemma_walk_sound(
    infos: spec_fn(Seq<u8>) -> Option<NarInfoView>,
    roots: Seq<Seq<u8>>,
    replies: Seq<Option<NarInfoView>>,
)
    requires
        in_progress(rooted(roots), replies),
        agree(rooted(roots), replies, infos),
    ensures
        sound(infos, roots, walk(rooted(roots), replies)),
    decreases replies.len(),
{
    let start = rooted(roots);
    if replies.len() == 0 {
        lemma_walk_accounted(roots, replies);
        assert(accounted(Walk {
            state: nothing_seen(),
            asked: Seq::empty(),
            found: Seq::empty(),
        })) by {
            assert((Seq::<Seq<u8>>::empty() + Seq::<Seq<u8>>::empty()) =~= Seq::<Seq<u8>>::empty());
        }
        lemma_met_all_accounted(Seq::empty(), nothing_seen(), roots);
        assert forall|h: Seq<u8>| #[trigger] start.seen.contains(h) implies reachable(
            infos,
            roots,
            h,
        ) by {
            assert(is_path(infos, roots, seq![h]));
            assert(seq![h].last() == h);
        }
    } else {
        let shorter = replies.drop_last();
        lemma_in_progress_shorter(start, replies);
        assert forall|k: int| 0 <= k < shorter.len() implies infos(
            (#[trigger] walk(start, shorter.take(k))).state.queue[0],
        ) == shorter[k] by {
            assert(shorter.take(k) =~= replies.take(k));
            assert(infos(walk(start, replies.take(k)).state.queue[0]) == replies[k]);
        }
        lemma_walk_sound(infos, roots, shorter);
        assert(replies.take(replies.len() - 1) =~= shorter);
        assert(infos(walk(start, replies.take(replies.len() - 1)).state.queue[0])
            == replies[replies.len() - 1]);
        lemma_step_sound(infos, roots, walk(start, shorter));
    }
}

proof fn lemma_path_stays_inside(
    infos: spec_fn(Seq<u8>) -> Option<NarInfoView>,
    roots: Seq<Seq<u8>>,
    w: Walk,
    p: Seq<Seq<u8>>,
    k: int,
)
    requires
        sound(infos, roots, w),
        w.state.queue.len() == 0,
        is_path(infos, roots, p),
        0 <= k < p.len(),
    ensures
        w.state.seen.contains(p[k]),
        w.asked.contains(p[k]),
    decreases k,
{
    if k > 0 {
        lemma_path_stays_inside(infos, roots, w, p, k - 1);
        assert(leads_to(infos, p[k - 1], p[k - 1 + 1]));
        assert(w.asked.contains(p[k - 1]));
    }
    assert(w.state.seen.contains(p[k]));
    assert(w.asked + w.state.queue =~= w.asked);
    assert((w.asked + w.state.queue).contains(p[k]));
}

/// A scan finds the closure of its roots: it meets exactly the hashes that can be reached from
/// them, looks each of them up once, and returns the metadata of exactly those that have any,
/// each once.
pub proof fn the_scan_finds_the_closure(
    infos: spec_fn(Seq<u8>) -> Option<NarInfoView>,
    roots: Seq<Seq<u8>>,
    replies: Seq<Option<NarInfoView>>,
)
    requires
        ends_with(rooted(roots), replies),
        agree(rooted(roots), replies, infos),
    ensures
        ({
            let w = walk(rooted(roots), replies);
            &&& forall|h: Seq<u8>|
                w.state.seen.contains(h) <==> #[trigger] reachable(infos, roots, h)
            &&& w.asked.no_duplicates()
            &&& forall|h: Seq<u8>| #[trigger]
                w.asked.contains(h) <==> reachable(infos, roots, h)
            &&& forall|h: Seq<u8>, info: NarInfoView| #[trigger]
                w.found.contains((h, info)) <==> reachable(infos, roots, h) && infos(h) == Some(
                    info,
                )
            &&& forall|a: int, b: int|
                0 <= a < b < w.found.len() ==> (#[trigger] w.found[a]).0 != (
                #[trigger] w.found[b]).0
        }),
{
    let w = walk(rooted(roots), replies);
    lemma_walk_sound(infos, roots, replies);
    assert(w.asked + w.state.queue =~= w.asked);
    assert forall|h: Seq<u8>| #[trigger] reachable(infos, roots, h) implies w.state.seen.contains(h)
        && w.asked.contains(h) by {
        let p = choose|p: Seq<Seq<u8>>| #[trigger] is_path(infos, roots, p) && p.last() == h;
        lemma_path_stays_inside(infos, roots, w, p, p.len() - 1);
    }
    assert forall|h: Seq<u8>| #[trigger] w.asked.contains(h) implies reachable(infos, roots, h) by {
        assert((w.asked + w.state.queue).contains(h));
        assert(w.state.seen.contains(h));
    }
}

/// Whatever the lookups of a scan give, there is one account of the metadata that they all agree
/// with, since no hash is looked up twice.
pub proof fn the_lookups_of_a_scan_agree(
    roots: Seq<Seq<u8>>,
    replies: Seq<Option<NarInfoView>>,
) -> (infos: spec_fn(Seq<u8>) -> Option<NarInfoView>)
    requires
        ends_with(rooted(roots), replies),
    ensures
        agree(rooted(roots), replies, infos),
{
    let start = rooted(roots);
    let w = walk(start, replies);
    lemma_walk_accounted(roots, replies);
    lemma_asked(start, replies);
    let infos = |h: Seq<u8>|
        if w.asked.contains(h) {
            replies[w.asked.index_of(h)]
        } else {
            None
        };
    assert forall|k: int| 0 <= k < replies.len() implies infos(
        (#[trigger] walk(start, replies.take(k))).state.queue[0],
    ) == replies[k] by {
        let h = walk(start, replies.take(k)).state.queue[0];
        assert(w.asked[k] == h);
        let j = w.asked.index_of(h);
        assert(w.asked.contains(h));
        assert(w.asked[j] == h);
        assert((w.asked + w.state.queue)[j] == (w.asked + w.state.queue)[k]);
    }
    infos
}

/// The `k`-th hash that was asked for is the one at the front of the queue at that time.
proof fn lemma_asked(start: ScanState, replies: Seq<Option<NarInfoView>>)
    ensures
        walk(start, replies).asked.len() == replies.len(),
        forall|k: int|
            0 <= k < replies.len() ==> walk(start, replies).asked[k] == (#[trigger] walk(
                start,
                replies.take(k),
            )).state.queue[0],
    decreases replies.len(),
{
    if replies.len() > 0 {
        let shorter = replies.drop_last();
        lemma_asked(start, shorter);
        assert forall|k: int| 0 <= k < replies.len() implies walk(start, replies).asked[k] == (
        #[trigger] walk(start, replies.take(k))).state.queue[0] by {
            if k < shorter.len() {
                assert(shorter.take(k) =~= replies.take(k));
                assert(walk(start, shorter).asked[k] == walk(
                    start,
                    shorter.take(k),
                ).state.queue[0]);
            } else {
                assert(replies.take(k) =~= shorter);
            }
        }
    }
}

// ---------------------------------------------------------------------------------------------
// Laws over what narinfos name
// ---------------------------------------------------------------------------------------------
/// A store path leads to each of its references, however many there are, and to its deriver, and
/// to nothing else.
pub proof fn a_store_path_leads_to_all_that_it_names(
    infos: spec_fn(Seq<u8>) -> Option<NarInfoView>,
    a: Seq<u8>,
    b: Seq<u8>,
)
    ensures
        leads_to(infos, a, b) <==> match infos(a) {
            Some(info) => info.deriver == Some(b) || exists|k: int|
                0 <= k < info.references.len() && #[trigger] info.references[k] == b,
            None => false,
        },
{
    if let Some(info) = infos(a) {
        if let Some(d) = info.deriver {
            lemma_push_contains(info.references, d, b);
        }
        if info.references.contains(b) {
            let k = choose|k: int| 0 <= k < info.references.len() && info.references[k] == b;
            assert(info.references[k] == b);
        }
    }
}

/// Whether a set of hashes holds everything that the narinfos of the hashes in it name.
pub open spec fn holds_what_it_names(
    infos: spec_fn(Seq<u8>) -> Option<NarInfoView>,
    inside: Set<Seq<u8>>,
) -> bool {
    forall|a: Seq<u8>| #[trigger]
        inside.contains(a) && infos(a) is Some ==> {
            &&& forall|k: int|
                0 <= k < infos(a)->0.references.len() ==> inside.contains(
                    #[trigger] infos(a)->0.references[k],
                )
            &&& infos(a)->0.deriver matches Some(d) ==> inside.contains(d)
        }
}

proof fn lemma_path_is_inside(
    infos: spec_fn(Seq<u8>) -> Option<NarInfoView>,
    roots: Seq<Seq<u8>>,
    inside: Set<Seq<u8>>,
    p: Seq<Seq<u8>>,
    k: int,
)
    requires
        forall|r: Seq<u8>| roots.contains(r) ==> #[trigger] inside.contains(r),
        holds_what_it_names(infos, inside),
        is_path(infos, roots, p),
        0 <= k < p.len(),
    ensures
        inside.contains(p[k]),
    decreases k,
{
    if k > 0 {
        lemma_path_is_inside(infos, roots, inside, p, k - 1);
        assert(leads_to(infos, p[k - 1], p[k - 1 + 1]));
        a_store_path_leads_to_all_that_it_names(infos, p[k - 1], p[k]);
        assert(inside.contains(p[k - 1]));
    }
}

/// What can be reached is the least that holds the roots and everything that is named from within:
/// roots can be reached, and so can all references and the deriver of what can be; and whatever
/// holds the roots and all that it names holds what can be reached.
pub proof fn what_can_be_reached_is_the_closure(
    infos: spec_fn(Seq<u8>) -> Option<NarInfoView>,
    roots: Seq<Seq<u8>>,
    inside: Set<Seq<u8>>,
    a: Seq<u8>,
    b: Seq<u8>,
)
    ensures
        roots.contains(a) ==> reachable(infos, roots, a),
        reachable(infos, roots, a) && infos(a) is Some && (infos(a)->0.references.contains(b)
            || infos(a)->0.deriver == Some(b)) ==> reachable(infos, roots, b),
        (forall|r: Seq<u8>| roots.contains(r) ==> #[trigger] inside.contains(r))
            && holds_what_it_names(infos, inside) && reachable(infos, roots, a) ==> inside.contains(
            a,
        ),
{
    if roots.contains(a) {
        let p = seq![a];
        assert(is_path(infos, roots, p) && p.last() == a);
    }
    if reachable(infos, roots, a) && infos(a) is Some && (infos(a)->0.references.contains(b)
        || infos(a)->0.deriver == Some(b)) {
        a_store_path_leads_to_all_that_it_names(infos, a, b);
        lemma_reach_further(infos, roots, a, b);
    }
    if (forall|r: Seq<u8>| roots.contains(r) ==> #[trigger] inside.contains(r))
        && holds_what_it_names(infos, inside) && reachable(infos, roots, a) {
        let p = choose|p: Seq<Seq<u8>>| #[trigger] is_path(infos, roots, p) && p.last() == a;
        lemma_path_is_inside(infos, roots, inside, p, p.len() - 1);
    }
}

/// Whether a narinfo names a hash.
pub open spec fn info_names(info: NarInfoView, h: Seq<u8>) -> bool {
    info.references.contains(h) || info.deriver == Some(h)
}

/// A scan leaves out nothing: it looks up every root, and every reference and the deriver of each
/// narinfo that it finds; it looks up nothing else, and nothing twice; and it finds what the
/// lookups gave.
pub proof fn a_scan_leaves_out_nothing(
    roots: Seq<Seq<u8>>,
    replies: Seq<Option<NarInfoView>>,
    h: Seq<u8>,
    n: int,
)
    requires
        ends_with(rooted(roots), replies),
    ensures
        ({
            let w = walk(rooted(roots), replies);
            &&& w.asked.contains(h) <==> roots.contains(h) || exists|k: int|
                0 <= k < w.found.len() && info_names((#[trigger] w.found[k]).1, h)
            &&& w.asked.no_duplicates()
            &&& w.asked.len() == replies.len()
            &&& 0 <= n < w.asked.len() ==> match replies[n] {
                Some(info) => w.found.contains((w.asked[n], info)),
                None => forall|k: int|
                    0 <= k < w.found.len() ==> (#[trigger] w.found[k]).0 != w.asked[n],
            }
            &&& forall|k: int|
                0 <= k < w.found.len() ==> w.asked.contains((#[trigger] w.found[k]).0)
        }),
{
    let start = rooted(roots);
    let w = walk(start, replies);
    let infos = the_lookups_of_a_scan_agree(roots, replies);
    the_scan_finds_the_closure(infos, roots, replies);
    lemma_asked(start, replies);
    assert forall|k: int| 0 <= k < w.found.len() implies {
        let e = #[trigger] w.found[k];
        reachable(infos, roots, e.0) && infos(e.0) == Some(e.1) && w.asked.contains(e.0)
    } by {
        let e = w.found[k];
        assert(w.found.contains((e.0, e.1)));
        assert(w.asked.contains(e.0) <==> reachable(infos, roots, e.0));
    }
    let none = Set::<Seq<u8>>::empty();
    what_can_be_reached_is_the_closure(infos, roots, none, h, h);
    assert(w.asked.contains(h) <==> reachable(infos, roots, h));
    if exists|k: int| 0 <= k < w.found.len() && info_names((#[trigger] w.found[k]).1, h) {
        let k = choose|k: int| 0 <= k < w.found.len() && info_names((#[trigger] w.found[k]).1, h);
        what_can_be_reached_is_the_closure(infos, roots, none, w.found[k].0, h);
    }
    if w.asked.contains(h) && !roots.contains(h) {
        let p = choose|p: Seq<Seq<u8>>| #[trigger] is_path(infos, roots, p) && p.last() == h;
        let a = p[p.len() - 2];
        assert(leads_to(infos, p[p.len() - 2], p[p.len() - 2 + 1]));
        a_store_path_leads_to_all_that_it_names(infos, a, h);
        let shorter = p.drop_last();
        assert forall|k: int| 0 <= k < shorter.len() - 1 implies leads_to(
            infos,
            #[trigger] shorter[k],
            shorter[k + 1],
        ) by {
            assert(leads_to(infos, p[k], p[k + 1]));
        }
        assert(is_path(infos, roots, shorter) && shorter.last() == a);
        let e = (a, infos(a)->0);
        assert(w.found.contains(e));
        let k = choose|k: int| 0 <= k < w.found.len() && w.found[k] == e;
        assert(info_names(w.found[k].1, h));
    }
    if 0 <= n < w.asked.len() {
        assert(w.asked[n] == walk(start, replies.take(n)).state.queue[0]);
        assert(infos(walk(start, replies.take(n)).state.queue[0]) == replies[n]);
        assert(w.asked.contains(w.asked[n]));
        assert(reachable(infos, roots, w.asked[n]));
        if let Some(info) = replies[n] {
            assert(w.found.contains((w.asked[n], info)));
        }
    }
}

/// Hashes wait in the order in which they are met, each of them once.
pub proof fn hashes_wait_in_the_order_they_are_met(
    st: ScanState,
    a: Seq<Seq<u8>>,
    b: Seq<Seq<u8>>,
    h: Seq<u8>,
)
    ensures
        met_all(st, a + b) == met_all(met_all(st, a), b),
        met_all(st, Seq::empty()) == st,
        met_all(st, seq![h]) == met(st, h),
        st.seen.contains(h) ==> met(st, h) == st,
        !st.seen.contains(h) ==> met(st, h).queue == st.queue.push(h) && met(st, h).seen
            == st.seen.insert(h),
        rooted(Seq::empty()).queue.len() == 0,
        !rooted(Seq::empty()).seen.contains(h),
        rooted(a + b) == met_all(rooted(a), b),
    decreases b.len(),
{
    reveal_with_fuel(met_all, 2);
    assert(seq![h].drop_last() =~= Seq::<Seq<u8>>::empty());
    let start = nothing_seen();
    if b.len() == 0 {
        assert(a + b =~= a);
    } else {
        hashes_wait_in_the_order_they_are_met(st, a, b.drop_last(), h);
        assert((a + b).drop_last() =~= a + b.drop_last());
        assert((a + b).last() == b.last());
    }
}

/// A scan asks for the hash that has waited longest. What that names is met in order, the deriver
/// last; and what was found is kept in the order in which it was asked for.
pub proof fn a_scan_asks_for_what_has_waited_longest(
    start: ScanState,
    replies: Seq<Option<NarInfoView>>,
    info: NarInfoView,
)
    ensures
        ({
            let w = walk(start, replies);
            let none = walk(start, replies.push(None));
            let some = walk(start, replies.push(Some(info)));
            let waiting = ScanState { queue: w.state.queue.drop_first(), seen: w.state.seen };
            &&& none.state == waiting
            &&& none.asked == w.asked.push(w.state.queue[0])
            &&& none.found == w.found
            &&& some.state == met_all(
                waiting,
                info.references + (match info.deriver {
                    Some(d) => seq![d],
                    None => Seq::empty(),
                }),
            )
            &&& some.asked == w.asked.push(w.state.queue[0])
            &&& some.found == w.found.push((w.state.queue[0], info))
        }),
        walk(start, Seq::empty()) == (Walk {
            state: start,
            asked: Seq::empty(),
            found: Seq::empty(),
        }),
{
    assert(replies.push(None).drop_last() =~= replies);
    assert(replies.push(Some(info)).drop_last() =~= replies);
    assert(needs(info) =~= info.references + (match info.deriver {
        Some(d) => seq![d],
        None => Seq::empty(),
    }));
}

/// A scan counts: the hash that it asks for is one more than were asked for before, of all that
/// have been met.
pub proof fn a_scan_counts_what_it_asks_for(
    roots: Seq<Seq<u8>>,
    replies: Seq<Option<NarInfoView>>,
    step: ScanStep,
)
    requires
        forall|k: int|
            0 <= k < replies.len() ==> (#[trigger] walk(
                rooted(roots),
                replies.take(k),
            )).state.queue.len() > 0,
        walk(rooted(roots), replies).state.queue.len() > 0,
        asks(step, walk(rooted(roots), replies).state),
    ensures
        ({
            let w = walk(rooted(roots), replies);
            &&& step.hash@ == w.state.queue[0]
            &&& step.position == w.asked.len() + 1
            &&& step.length == w.asked.len() + w.state.queue.len()
        }),
{
    let w = walk(rooted(roots), replies);
    assert(in_progress(rooted(roots), replies));
    lemma_walk_accounted(roots, replies);
    let order = w.asked + w.state.queue;
    order.unique_seq_to_set();
    assert(w.state.seen =~= order.to_set());
}

/// Metadata that may be missing is that metadata where it is there.
pub proof fn metadata_that_may_be_missing_is_that_metadata(info: NarInfo)
    ensures
        opt_info(Some(info)) == Some(info@),
        opt_info(None) is None,
{
}

/// A reply is what the lookup said of the hash that has waited longest.
pub proof fn a_reply_is_what_the_lookup_said<F: Fn(ScanStep) -> Option<NarInfo>>(
    lookup: F,
    st: ScanState,
    info: NarInfoView,
)
    ensures
        replies(lookup, st, Some(info)) ==> exists|step: ScanStep, said: Option<NarInfo>|
            {
                &&& #[trigger] call_ensures(lookup, (step,), said)
                &&& step.hash@ == st.queue[0]
                &&& said is Some
                &&& said->0@ == info
            },
        replies(lookup, st, None) ==> exists|step: ScanStep, said: Option<NarInfo>|
            {
                &&& #[trigger] call_ensures(lookup, (step,), said)
                &&& step.hash@ == st.queue[0]
                &&& said is None
            },
{
}

} // verus!
