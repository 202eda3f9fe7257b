//! The writer's side of the lock protocol, for a cache in the local file system: taking a lock, and
//! keeping it fresh.
//!
//! What is done next is decided here, one action at a time; the caller carries the action out and
//! reports what came of it.

use crate::lock;
use crate::lock::{AcquireEvent, AcquireNews, LockEntry, LockView};
use crate::path;
use crate::path::last_name;
use crate::text::has_prefix;
use vstd::prelude::*;
use vstd::string::*;
use vstd::utf8::*;

verus! {

/// How often the refresher refreshes the lock, in seconds. A sixth of the staleness threshold
/// leaves slack for slow I/O and clock skew.
pub const REFRESH_INTERVAL: u64 = 300;

// ---------------------------------------------------------------------------------------------
// Taking a local lock
// ---------------------------------------------------------------------------------------------
/// Whether a lock file is the pruner's.
pub open spec fn is_prune_lock(name: Seq<u8>) -> bool {
    path::file_name(name) matches Some(n) && encode_utf8(lock::prune_prefix()).is_prefix_of(n)
}

/// Whether there is a fresh lock of the pruner among the locks.
pub open spec fn has_fresh_prune_lock(locks: Seq<LockView>) -> bool {
    exists|k: int|
        0 <= k < locks.len() && is_prune_lock((#[trigger] locks[k]).name) && !lock::is_stale_lock(
            locks[k],
        )
}

/// Whether a prune is running.
pub fn fresh_prune_lock(locks: &Vec<LockEntry>) -> (r: bool)
    ensures
        r == has_fresh_prune_lock(lock::locks_view(locks@)),
{
    let ghost all = lock::locks_view(locks@);
    let mut i: usize = 0;
    while i < locks.len()
        invariant
            all == lock::locks_view(locks@),
            i <= locks@.len(),
            forall|k: int|
                0 <= k < i ==> !(is_prune_lock((#[trigger] all[k]).name) && !lock::is_stale_lock(
                    all[k],
                )),
        decreases locks@.len() - i,
    {
        assert(all[i as int] == locks@[i as int]@);
        if let Some(name) = last_name(locks[i].name.as_slice()) {
            if has_prefix(name, "prune-".as_bytes()) && !locks[i].is_stale() {
                return true;
            }
        }
        i = i + 1;
    }
    false
}

/// What a writer waits for.
#[derive(Clone, Copy, Debug, PartialEq, Eq, Structural)]
pub enum TakeStage {
    /// That the lock directory exists.
    Creating,
    /// A first listing of the locks.
    Checking,
    /// That the prune comes to its end.
    Waiting,
    /// That its lock is written.
    Writing,
    /// A second listing, with its lock in place.
    Rechecking,
    /// That its lock is removed.
    Removing,
    /// The next try.
    Pausing,
    /// Nothing: it has the lock, or not.
    Ended(bool),
}

/// What a writer is to do next.
#[derive(Debug)]
pub enum TakeAction<E> {
    /// Create the lock directory.
    CreateDir,
    /// List the locks.
    ReadLocks,
    /// Write the lock file.
    WriteLock,
    /// Remove the lock file.
    RemoveLock,
    /// Wait so many seconds.
    Sleep(u64),
    /// Nothing: this is how the attempt ended.
    Finish(Result<(), E>),
}

/// How long a writer waits while a prune runs, in seconds.
pub const PRUNE_WAIT: u64 = 5;

/// How long a writer waits after a conflict, in seconds.
pub const CONFLICT_WAIT: u64 = 1;

/// What follows in each stage on what came of the action: the lock is written only where no fresh
/// lock of the pruner was seen, and taken only where none was seen afterwards either. Locks that
/// cannot be listed count as none, and failure to remove the lock is no obstacle; any other
/// failure ends the attempt. News that answer nothing have the action asked for again.
pub open spec fn take_next<E>(stage: TakeStage, news: AcquireNews<E>) -> (
    TakeStage,
    TakeAction<E>,
) {
    match (stage, news) {
        (TakeStage::Ended(taken), _) => (TakeStage::Ended(taken), TakeAction::Sleep(0)),
        (TakeStage::Creating, AcquireNews::Done) => (TakeStage::Checking, TakeAction::ReadLocks),
        (TakeStage::Creating, AcquireNews::Failed(e)) => (
            TakeStage::Ended(false),
            TakeAction::Finish(Err(e)),
        ),
        (TakeStage::Creating, _) => (TakeStage::Creating, TakeAction::CreateDir),
        (TakeStage::Checking, AcquireNews::Locks(locks)) => if has_fresh_prune_lock(locks) {
            (TakeStage::Waiting, TakeAction::Sleep(PRUNE_WAIT))
        } else {
            (TakeStage::Writing, TakeAction::WriteLock)
        },
        (TakeStage::Checking, AcquireNews::Failed(_)) => (
            TakeStage::Writing,
            TakeAction::WriteLock,
        ),
        (TakeStage::Checking, _) => (TakeStage::Checking, TakeAction::ReadLocks),
        (TakeStage::Waiting, AcquireNews::Done) => (TakeStage::Checking, TakeAction::ReadLocks),
        (TakeStage::Waiting, _) => (TakeStage::Waiting, TakeAction::Sleep(PRUNE_WAIT)),
        (TakeStage::Writing, AcquireNews::Done) => (TakeStage::Rechecking, TakeAction::ReadLocks),
        (TakeStage::Writing, AcquireNews::Failed(e)) => (
            TakeStage::Ended(false),
            TakeAction::Finish(Err(e)),
        ),
        (TakeStage::Writing, _) => (TakeStage::Writing, TakeAction::WriteLock),
        (TakeStage::Rechecking, AcquireNews::Locks(locks)) => if has_fresh_prune_lock(locks) {
            (TakeStage::Removing, TakeAction::RemoveLock)
        } else {
            (TakeStage::Ended(true), TakeAction::Finish(Ok(())))
        },
        (TakeStage::Rechecking, AcquireNews::Failed(_)) => (
            TakeStage::Ended(true),
            TakeAction::Finish(Ok(())),
        ),
        (TakeStage::Rechecking, _) => (TakeStage::Rechecking, TakeAction::ReadLocks),
        (TakeStage::Removing, AcquireNews::Done) => (
            TakeStage::Pausing,
            TakeAction::Sleep(CONFLICT_WAIT),
        ),
        (TakeStage::Removing, AcquireNews::Failed(_)) => (
            TakeStage::Pausing,
            TakeAction::Sleep(CONFLICT_WAIT),
        ),
        (TakeStage::Removing, _) => (TakeStage::Removing, TakeAction::RemoveLock),
        (TakeStage::Pausing, AcquireNews::Done) => (TakeStage::Checking, TakeAction::ReadLocks),
        (TakeStage::Pausing, _) => (TakeStage::Pausing, TakeAction::Sleep(CONFLICT_WAIT)),
    }
}

/// Takes the next step of an attempt to take a local lock: poll until there is no fresh lock of
/// the pruner, write ours, recheck, retry on conflict. The recheck resolves the race with a pruner
/// that creates its lock at the same time; both back off if both raced.
pub fn put_lock_local<E>(stage: TakeStage, event: AcquireEvent<E>) -> (r: (
    TakeStage,
    TakeAction<E>,
))
    requires
        !(stage is Ended),
    ensures
        r == take_next(stage, event@),
{
    match (stage, event) {
        (TakeStage::Ended(taken), _) => (TakeStage::Ended(taken), TakeAction::Sleep(0)),
        (TakeStage::Creating, AcquireEvent::Done) => (TakeStage::Checking, TakeAction::ReadLocks),
        (TakeStage::Creating, AcquireEvent::Failed(e)) => (
            TakeStage::Ended(false),
            TakeAction::Finish(Err(e)),
        ),
        (TakeStage::Creating, _) => (TakeStage::Creating, TakeAction::CreateDir),
        (TakeStage::Checking, AcquireEvent::Locks(locks)) => if fresh_prune_lock(&locks) {
            (TakeStage::Waiting, TakeAction::Sleep(PRUNE_WAIT))
        } else {
            (TakeStage::Writing, TakeAction::WriteLock)
        },
        (TakeStage::Checking, AcquireEvent::Failed(_)) => (
            TakeStage::Writing,
            TakeAction::WriteLock,
        ),
        (TakeStage::Checking, _) => (TakeStage::Checking, TakeAction::ReadLocks),
        (TakeStage::Waiting, AcquireEvent::Done) => (TakeStage::Checking, TakeAction::ReadLocks),
        (TakeStage::Waiting, _) => (TakeStage::Waiting, TakeAction::Sleep(PRUNE_WAIT)),
        (TakeStage::Writing, AcquireEvent::Done) => (TakeStage::Rechecking, TakeAction::ReadLocks),
        (TakeStage::Writing, AcquireEvent::Failed(e)) => (
            TakeStage::Ended(false),
            TakeAction::Finish(Err(e)),
        ),
        (TakeStage::Writing, _) => (TakeStage::Writing, TakeAction::WriteLock),
        (TakeStage::Rechecking, AcquireEvent::Locks(locks)) => if fresh_prune_lock(&locks) {
            (TakeStage::Removing, TakeAction::RemoveLock)
        } else {
            (TakeStage::Ended(true), TakeAction::Finish(Ok(())))
        },
        (TakeStage::Rechecking, AcquireEvent::Failed(_)) => (
            TakeStage::Ended(true),
            TakeAction::Finish(Ok(())),
        ),
        (TakeStage::Rechecking, _) => (TakeStage::Rechecking, TakeAction::ReadLocks),
        (TakeStage::Removing, AcquireEvent::Done) => (
            TakeStage::Pausing,
            TakeAction::Sleep(CONFLICT_WAIT),
        ),
        (TakeStage::Removing, AcquireEvent::Failed(_)) => (
            TakeStage::Pausing,
            TakeAction::Sleep(CONFLICT_WAIT),
        ),
        (TakeStage::Removing, _) => (TakeStage::Removing, TakeAction::RemoveLock),
        (TakeStage::Pausing, AcquireEvent::Done) => (TakeStage::Checking, TakeAction::ReadLocks),
        (TakeStage::Pausing, _) => (TakeStage::Pausing, TakeAction::Sleep(CONFLICT_WAIT)),
    }
}

// ---------------------------------------------------------------------------------------------
// Refreshing
// ---------------------------------------------------------------------------------------------
/// What the refresher is to do next.
#[derive(Clone, Copy, Debug, PartialEq, Eq, Structural)]
pub enum RefreshAction {
    /// Wait a second, so that a stop request is not delayed by the full interval.
    Sleep,
    /// Refresh the lock.
    Refresh,
    /// Nothing: the publish is over.
    Quit,
}

/// What the refresher does after it has slept for `slept` seconds since the last refresh: it
/// sleeps until the interval is over, unless it is stopped before, and then refreshes the lock.
pub open spec fn refresh_next(slept: u64, stop: bool) -> (u64, RefreshAction) {
    if slept >= REFRESH_INTERVAL {
        (0, RefreshAction::Refresh)
    } else if stop {
        (slept, RefreshAction::Quit)
    } else {
        ((slept + 1) as u64, RefreshAction::Sleep)
    }
}

/// Keeps the lock fresh while the publish command runs.
#[derive(Debug)]
pub struct Refresher {
    slept: u64,
}

impl View for Refresher {
    type V = u64;

    closed spec fn view(&self) -> u64 {
        self.slept
    }
}

impl Refresher {
    /// A refresher for a lock that was taken just now.
    pub fn new() -> (r: Self)
        ensures
            r@ == 0,
    {
        Refresher { slept: 0 }
    }

    /// What the refresher is to do next.
    pub fn step(&mut self, stop: bool) -> (r: RefreshAction)
        ensures
            (final(self)@, r) == refresh_next(old(self)@, stop),
    {
        if self.slept >= REFRESH_INTERVAL {
            self.slept = 0;
            RefreshAction::Refresh
        } else if stop {
            RefreshAction::Quit
        } else {
            self.slept = self.slept + 1;
            RefreshAction::Sleep
        }
    }
}

// ---------------------------------------------------------------------------------------------
// Laws
// ---------------------------------------------------------------------------------------------
/// A lock of the pruner is one that writers wait for.
pub proof fn writers_know_the_pruner(gcroots: Seq<u8>, pid: u32, token: u32, budget: u128)
    ensures
        is_prune_lock(lock::acquire_start(gcroots, pid, token, budget).path),
{
    lock::a_pruner_lock_is_known_by_its_name(gcroots, pid, token, budget);
}

/// Whether the lock file of a writer is in place.
pub open spec fn writer_in_place(stage: TakeStage) -> bool {
    stage is Rechecking || stage is Removing || stage == TakeStage::Ended(true)
}

/// A writer takes the lock only after it was written and then no prune was seen.
pub proof fn the_lock_is_taken_only_without_a_prune<E>(stage: TakeStage, news: AcquireNews<E>)
    requires
        !(stage is Ended),
    ensures
        take_next(stage, news).0 == TakeStage::Ended(true) <==> {
            &&& stage is Rechecking
            &&& news is Failed || (news matches AcquireNews::Locks(locks) && !has_fresh_prune_lock(
                locks,
            ))
        },
        take_next(stage, news).0 == TakeStage::Ended(true) <==> take_next(stage, news).1
            == TakeAction::<E>::Finish(Ok(())),
{
}

/// The lock file of a writer is in place exactly from when it has been written until it has been
/// removed, and the file is never left behind by an attempt that fails.
pub proof fn a_failed_writer_leaves_no_lock<E>(stage: TakeStage, news: AcquireNews<E>)
    requires
        !(stage is Ended),
    ensures
        writer_in_place(take_next(stage, news).0) == (if stage is Writing && news is Done {
            true
        } else if stage is Removing && (news is Done || news is Failed) {
            false
        } else {
            writer_in_place(stage)
        }),
        take_next(stage, news).0 == TakeStage::Ended(false) ==> !writer_in_place(stage),
{
}

/// What the refresher does after `n` seconds without a stop request.
pub open spec fn refresh_after(n: nat) -> (u64, RefreshAction)
    decreases n,
{
    if n == 0 {
        refresh_next(0, false)
    } else {
        refresh_next(refresh_after((n - 1) as nat).0, false)
    }
}

/// The refresher waits a second at a time and refreshes the lock when the interval is over, long
/// before the lock goes stale.
pub proof fn the_lock_is_refreshed_in_time(n: nat)
    requires
        n <= REFRESH_INTERVAL,
    ensures
        refresh_after(n).1 == (if n < REFRESH_INTERVAL {
            RefreshAction::Sleep
        } else {
            RefreshAction::Refresh
        }),
        n < REFRESH_INTERVAL ==> refresh_after(n).0 == n + 1,
        2 * REFRESH_INTERVAL * 1_000_000_000 <= lock::STALE_AFTER,
    decreases n,
{
    if n > 0 {
        the_lock_is_refreshed_in_time((n - 1) as nat);
    }
}

/// A lock is the pruner's exactly where its file name begins with `prune-`, wherever it lies.
pub proof fn a_pruner_is_known_by_the_beginning_of_a_name(dir: Seq<u8>, name: Seq<u8>)
    requires
        name.len() > 0,
        !name.contains(0x2f),
        name != seq![0x2eu8],
        name != seq![0x2eu8, 0x2e],
    ensures
        is_prune_lock(dir.push(0x2f) + name) <==> encode_utf8("prune-"@).is_prefix_of(name),
        is_prune_lock(name) <==> encode_utf8("prune-"@).is_prefix_of(name),
        is_prune_lock(path::joined(dir, name)) <==> encode_utf8("prune-"@).is_prefix_of(name),
{
    path::a_file_name_stands_behind_the_last_slash(dir, name);
    path::lemma_joined_name(dir, name);
}

/// A prune is running exactly where there is a lock of the pruner that is at most half an hour old.
pub proof fn a_prune_is_known_by_its_fresh_lock(locks: Seq<LockView>)
    ensures
        has_fresh_prune_lock(locks) <==> exists|k: int|
            {
                &&& 0 <= k < locks.len()
                &&& is_prune_lock((#[trigger] locks[k]).name)
                &&& locks[k].age <= 1_800_000_000_000
            },
{
}

/// A writer that meets no prune takes its lock: it creates the directory, looks, writes its lock,
/// looks again, and has it. Other writers do not hinder it.
pub proof fn a_writer_without_a_prune_takes_its_lock<E>(
    first: Seq<LockView>,
    next: Seq<LockView>,
)
    requires
        !has_fresh_prune_lock(first),
        !has_fresh_prune_lock(next),
    ensures
        ({
            let (s1, a1) = take_next(TakeStage::Creating, AcquireNews::<E>::Done);
            let (s2, a2) = take_next(s1, AcquireNews::<E>::Locks(first));
            let (s3, a3) = take_next(s2, AcquireNews::<E>::Done);
            let (s4, a4) = take_next(s3, AcquireNews::<E>::Locks(next));
            &&& a1 == TakeAction::<E>::ReadLocks
            &&& a2 == TakeAction::<E>::WriteLock
            &&& a3 == TakeAction::<E>::ReadLocks
            &&& a4 == TakeAction::<E>::Finish(Ok(()))
        }),
{
}

/// A writer that meets a prune waits five seconds and looks again, without end. One that meets it
/// only after it wrote its lock removes that, whether or not it works, and tries again after a
/// second.
pub proof fn a_writer_gives_way_to_a_prune<E>(locks: Seq<LockView>, e: E)
    requires
        has_fresh_prune_lock(locks),
    ensures
        ({
            let (s1, a1) = take_next(TakeStage::Checking, AcquireNews::<E>::Locks(locks));
            let (s2, a2) = take_next(s1, AcquireNews::<E>::Done);
            &&& a1 == TakeAction::<E>::Sleep(5)
            &&& a2 == TakeAction::<E>::ReadLocks
            &&& s2 == TakeStage::Checking
        }),
        ({
            let (s1, a1) = take_next(TakeStage::Rechecking, AcquireNews::<E>::Locks(locks));
            let (s2, a2) = take_next(s1, AcquireNews::<E>::Done);
            let (f2, u2) = take_next(s1, AcquireNews::<E>::Failed(e));
            let (s3, a3) = take_next(s2, AcquireNews::<E>::Done);
            &&& a1 == TakeAction::<E>::RemoveLock
            &&& a2 == TakeAction::<E>::Sleep(1)
            &&& f2 == s2 && u2 == a2
            &&& a3 == TakeAction::<E>::ReadLocks
            &&& s3 == TakeStage::Checking
        }),
{
}

/// A writer that cannot create the directory or write its lock fails with what failed; one that
/// cannot list the locks goes on as if there were none.
pub proof fn a_writer_fails_where_it_cannot_write<E>(e: E)
    ensures
        take_next(TakeStage::Creating, AcquireNews::<E>::Failed(e)).1 == TakeAction::<E>::Finish(
            Err(e),
        ),
        take_next(TakeStage::Writing, AcquireNews::<E>::Failed(e)).1 == TakeAction::<E>::Finish(
            Err(e),
        ),
        take_next(TakeStage::Checking, AcquireNews::<E>::Failed(e)).1 == TakeAction::<E>::WriteLock,
        take_next(TakeStage::Rechecking, AcquireNews::<E>::Failed(e)).1 == TakeAction::<E>::Finish(
            Ok(()),
        ),
{
}

/// News that a writer does not wait for change nothing.
pub proof fn a_writer_waits_for_its_answer<E>(stage: TakeStage, news: AcquireNews<E>)
    requires
        !(stage is Ended),
        !(news is Failed),
        match stage {
            TakeStage::Checking | TakeStage::Rechecking => !(news is Locks),
            _ => !(news is Done),
        },
    ensures
        take_next(stage, news).0 == stage,
        take_next(stage, news).1 == match stage {
            TakeStage::Creating => TakeAction::<E>::CreateDir,
            TakeStage::Waiting => TakeAction::<E>::Sleep(5),
            TakeStage::Writing => TakeAction::<E>::WriteLock,
            TakeStage::Removing => TakeAction::<E>::RemoveLock,
            TakeStage::Pausing => TakeAction::<E>::Sleep(1),
            _ => TakeAction::<E>::ReadLocks,
        },
{
}

/// The refresher sleeps for 300 seconds, one by one, then refreshes the lock and begins anew. A stop
/// request ends it before the next second.
pub proof fn a_lock_is_refreshed_every_five_minutes(slept: u64)
    ensures
        slept < 300 ==> refresh_next(slept, false) == ((slept + 1) as u64, RefreshAction::Sleep),
        slept < 300 ==> refresh_next(slept, true).1 == RefreshAction::Quit,
        slept >= 300 ==> refresh_next(slept, false) == (0u64, RefreshAction::Refresh),
        slept >= 300 ==> refresh_next(slept, true) == (0u64, RefreshAction::Refresh),
{
}

} // verus!
