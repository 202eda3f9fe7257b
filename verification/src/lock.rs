//! Restic-style cooperative locking via `gcroots/.lock/`.
//!
//! Writers and the pruner each hold a lock file while running. A fresh lock of another holder
//! blocks; a stale one (of a crashed holder) is ignored. The file system offers no test-and-set
//! that all sides can use, so both sides create, then recheck, and back off on conflict.
//!
//! This is the pruner's side. What it does next is decided here, one action at a time; the caller
//! carries the action out and reports what came of it.

use crate::path;
use crate::path::{join, paths_equal};
use crate::text;
use crate::text::{lossy_text, push_decimal, push_hexadecimal};
use std::collections::VecDeque;
use vstd::prelude::*;
use vstd::slice::slice_to_vec;
use vstd::string::*;
use vstd::utf8::*;

verus! {

/// Locks older than this, in nanoseconds, are ignored; holders refresh well within it.
pub const STALE_AFTER: u128 = 1_800_000_000_000;

/// The name of the directory with the locks, next to the garbage collection roots.
pub const LOCK_DIR: &'static str = ".lock";

/// Where the locks are.
pub open spec fn lock_dir_of(gcroots: Seq<u8>) -> Seq<u8> {
    path::joined(gcroots, encode_utf8(LOCK_DIR@))
}

/// Where the locks are.
#[must_use]
pub fn lock_dir(gcroots: &[u8]) -> (r: Vec<u8>)
    ensures
        r@ == lock_dir_of(gcroots@),
{
    join(gcroots, LOCK_DIR.as_bytes())
}

// ---------------------------------------------------------------------------------------------
// Locks
// ---------------------------------------------------------------------------------------------
/// A lock file, and how long ago it was refreshed.
#[verifier::ext_equal]
pub struct LockView {
    pub name: Seq<u8>,
    pub age: u128,
}

/// Whether a lock belongs to a crashed holder.
pub open spec fn is_stale_lock(lock: LockView) -> bool {
    lock.age > STALE_AFTER
}

/// The fresh locks in a listing that are not at `own`, in order.
pub open spec fn fresh_locks(locks: Seq<LockView>, own: Seq<u8>) -> Seq<Seq<u8>>
    decreases locks.len(),
{
    if locks.len() == 0 {
        Seq::empty()
    } else {
        let rest = fresh_locks(locks.drop_last(), own);
        if !is_stale_lock(locks.last()) && !path::same_path(locks.last().name, own) {
            rest.push(locks.last().name)
        } else {
            rest
        }
    }
}

/// A lock file with its age in nanoseconds.
#[derive(Debug)]
pub struct LockEntry {
    pub name: Vec<u8>,
    pub age: u128,
}

impl View for LockEntry {
    type V = LockView;

    open spec fn view(&self) -> LockView {
        LockView { name: self.name@, age: self.age }
    }
}

/// The locks in a listing.
pub open spec fn locks_view(locks: Seq<LockEntry>) -> Seq<LockView> {
    locks.map_values(|l: LockEntry| l@)
}

/// How long ago something was, where both times are nanoseconds from the same moment. What lies
/// ahead was just now.
pub open spec fn age_at(now: i128, then: i128) -> int {
    if now > then {
        now - then
    } else {
        0
    }
}

impl LockEntry {
    /// A lock file that was last modified at `modified`.
    pub fn new(name: Vec<u8>, now: i128, modified: i128) -> (r: Self)
        ensures
            r.name == name,
            r.age == age_at(now, modified),
    {
        let age: u128 = if now <= modified {
            0
        } else if modified >= 0 || now < 0 {
            (now - modified) as u128
        } else {
            (now as u128) + ((-(modified + 1)) as u128) + 1
        };
        LockEntry { name, age }
    }

    /// Whether the lock belongs to a crashed holder.
    pub fn is_stale(&self) -> (r: bool)
        ensures
            r == is_stale_lock(self@),
    {
        self.age > STALE_AFTER
    }
}

/// What a listing of the lock directory comes upon.
#[derive(Debug)]
pub enum Listed<E> {
    /// A plain file, with the time of its last change in nanoseconds.
    File(Vec<u8>, i128),
    /// Something else.
    Other,
    /// Something that could not be looked at.
    Failed(E),
}

/// The lock that an entry of a listing stands for.
pub open spec fn lock_at(name: Seq<u8>, now: i128, modified: i128) -> LockView {
    LockView { name, age: age_at(now, modified) as u128 }
}

/// The locks in a listing: its plain files. Where something could not be looked at, the listing
/// fails, with the first failure.
pub open spec fn locks_in<E>(entries: Seq<Listed<E>>, now: i128) -> Result<Seq<LockView>, E>
    decreases entries.len(),
{
    if entries.len() == 0 {
        Ok(Seq::empty())
    } else {
        match locks_in(entries.drop_last(), now) {
            Err(e) => Err(e),
            Ok(locks) => match entries.last() {
                Listed::File(name, modified) => Ok(locks.push(lock_at(name@, now, modified))),
                Listed::Other => Ok(locks),
                Listed::Failed(e) => Err(e),
            },
        }
    }
}

proof fn lemma_failure_stays<E>(entries: Seq<Listed<E>>, now: i128, k: int)
    requires
        0 <= k <= entries.len(),
        locks_in(entries.take(k), now) is Err,
    ensures
        locks_in(entries, now) == locks_in(entries.take(k), now),
    decreases entries.len(),
{
    if k < entries.len() {
        assert(entries.drop_last().take(k) =~= entries.take(k));
        lemma_failure_stays(entries.drop_last(), now, k);
    } else {
        assert(entries.take(k) =~= entries);
    }
}

/// The locks in a listing of the lock directory.
///
/// # Errors
///
/// The first failure in the listing.
pub fn read_locks<E>(entries: VecDeque<Listed<E>>, now: i128) -> (r: Result<Vec<LockEntry>, E>)
    ensures
        match r {
            Ok(locks) => locks_in(entries@, now) == Ok::<Seq<LockView>, E>(locks_view(locks@)),
            Err(e) => locks_in(entries@, now) == Err::<Seq<LockView>, E>(e),
        },
{
    let ghost all = entries@;
    let ghost mut k: int = 0;
    let mut rest = entries;
    let mut locks: Vec<LockEntry> = Vec::new();
    assert(all.take(0) =~= Seq::<Listed<E>>::empty());
    assert(locks_view(locks@) =~= Seq::<LockView>::empty());
    loop
        invariant
            all == entries@,
            0 <= k <= all.len(),
            rest@ == all.skip(k),
            locks_in(all.take(k), now) == Ok::<Seq<LockView>, E>(locks_view(locks@)),
        ensures
            k == all.len(),
        decreases rest@.len(),
    {
        let entry = match rest.pop_front() {
            Some(entry) => entry,
            None => break,
        };
        let ghost before = locks@;
        proof {
            assert(entry == all[k]);
            assert(all.take(k + 1).drop_last() =~= all.take(k));
            k = k + 1;
        }
        match entry {
            Listed::File(name, modified) => {
                locks.push(LockEntry::new(name, now, modified));
                assert(locks_view(locks@) =~= locks_view(before).push(
                    lock_at(name@, now, modified),
                ));
            },
            Listed::Other => {},
            Listed::Failed(e) => {
                proof {
                    lemma_failure_stays(all, now, k);
                }
                return Err(e);
            },
        }
    }
    assert(all.take(k) =~= all);
    Ok(locks)
}

/// The fresh locks that belong to others.
pub fn fresh_foreign_locks(locks: &Vec<LockEntry>, own: &[u8]) -> (r: Vec<Vec<u8>>)
    ensures
        path::paths_view(r@) == fresh_locks(locks_view(locks@), own@),
{
    let ghost all = locks_view(locks@);
    let mut out: Vec<Vec<u8>> = Vec::new();
    let mut i: usize = 0;
    assert(all.take(0) =~= Seq::<LockView>::empty());
    assert(path::paths_view(out@) =~= Seq::<Seq<u8>>::empty());
    while i < locks.len()
        invariant
            all == locks_view(locks@),
            i <= locks@.len(),
            path::paths_view(out@) == fresh_locks(all.take(i as int), own@),
        decreases locks@.len() - i,
    {
        let ghost before = out@;
        assert(all[i as int] == locks@[i as int]@);
        assert(all.take(i + 1).drop_last() =~= all.take(i as int));
        if !locks[i].is_stale() && !paths_equal(locks[i].name.as_slice(), own) {
            out.push(slice_to_vec(locks[i].name.as_slice()));
            assert(path::paths_view(out@) =~= path::paths_view(before).push(
                locks@[i as int].name@,
            ));
        }
        i = i + 1;
    }
    assert(all.take(i as int) =~= all);
    out
}

// ---------------------------------------------------------------------------------------------
// Names
// ---------------------------------------------------------------------------------------------
/// What the name of every lock of the pruner begins with.
pub open spec fn prune_prefix() -> Seq<char> {
    "prune-"@
}

/// The name of a lock of the pruner.
pub open spec fn lock_id_of(pid: u32, token: u32) -> Seq<char> {
    prune_prefix() + text::decimal(pid as nat) + seq!['-'] + text::hexadecimal(token as nat, 8)
}

/// The name of a lock of the pruner.
pub fn lock_id(pid: u32, token: u32) -> (r: String)
    ensures
        r@ == lock_id_of(pid, token),
{
    let mut out = "prune-".to_owned();
    push_decimal(&mut out, pid as u64);
    out.push('-');
    push_hexadecimal(&mut out, token, 8);
    assert(out@ =~= lock_id_of(pid, token));
    out
}

/// Cheap uniqueness for the names of lock files: the sub-second clock guards against rapid reuse
/// of process numbers.
pub fn rand_token(nanos: u32, pid: u32) -> (r: u32)
    ensures
        r == nanos ^ pid,
{
    nanos ^ pid
}

// ---------------------------------------------------------------------------------------------
// Outcomes
// ---------------------------------------------------------------------------------------------
/// An exclusive lock held by the pruner. Whoever holds it removes the lock file in the end; a
/// file that is left behind is ignored once it goes stale.
#[derive(Debug)]
pub struct ExclusiveLock {
    path: Vec<u8>,
}

impl View for ExclusiveLock {
    type V = Seq<u8>;

    closed spec fn view(&self) -> Seq<u8> {
        self.path@
    }
}

impl ExclusiveLock {
    /// Where the lock file is.
    pub fn path(&self) -> (r: &Vec<u8>)
        ensures
            r@ == self@,
    {
        &self.path
    }
}

/// Why the lock could not be had.
#[derive(Debug)]
pub enum LockError<E> {
    /// Fresh locks did not drain within the wait budget.
    Busy(Vec<Vec<u8>>),
    /// The file system failed.
    Io(E),
}

/// What is said of locks that did not drain, where their names read like `shown`.
pub open spec fn busy_message(shown: Seq<Seq<char>>) -> Seq<char>
    decreases shown.len(),
{
    if shown.len() == 0 {
        "cache is busy; fresh locks remain:"@
    } else {
        busy_message(shown.drop_last()) + seq![' '] + shown.last()
    }
}

/// How names read.
pub open spec fn shown_names(names: Seq<Seq<u8>>) -> Seq<Seq<char>> {
    names.map_values(|n: Seq<u8>| text::lossy(n))
}

/// What is said of locks that did not drain.
pub fn busy_text(shown: &Vec<String>) -> (r: String)
    ensures
        r@ == busy_message(text::texts(shown@)),
{
    let ghost all = text::texts(shown@);
    let mut out = "cache is busy; fresh locks remain:".to_owned();
    let mut i: usize = 0;
    assert(all.take(0) =~= Seq::<Seq<char>>::empty());
    while i < shown.len()
        invariant
            all == text::texts(shown@),
            i <= shown@.len(),
            out@ == busy_message(all.take(i as int)),
        decreases shown@.len() - i,
    {
        assert(all.take(i + 1).drop_last() =~= all.take(i as int));
        assert(all.take(i + 1).last() == shown@[i as int]@);
        let ghost before = out@;
        out.push(' ');
        out.append(shown[i].as_str());
        assert(out@ =~= before + seq![' '] + shown@[i as int]@);
        i = i + 1;
    }
    assert(all.take(i as int) =~= all);
    out
}

impl<E> LockError<E> {
    /// The error as text; `show` gives that of a failure of the file system.
    pub fn to_text<F: Fn(&E) -> String>(&self, show: F) -> (r: String)
        requires
            forall|e: &E| #[trigger] call_requires(show, (e,)),
        ensures
            match self {
                LockError::Busy(locks) => r@ == busy_message(shown_names(path::paths_view(locks@))),
                LockError::Io(e) => call_ensures(show, (e,), r),
            },
    {
        match self {
            LockError::Busy(locks) => {
                let mut shown: Vec<String> = Vec::new();
                let mut i: usize = 0;
                while i < locks.len()
                    invariant
                        i <= locks@.len(),
                        shown@.len() == i,
                        forall|k: int| 0 <= k < i ==> (#[trigger] shown@[k])@ == text::lossy(locks@[k]@),
                    decreases locks@.len() - i,
                {
                    shown.push(lossy_text(locks[i].as_slice()));
                    i = i + 1;
                }
                assert(text::texts(shown@) =~= shown_names(path::paths_view(locks@)));
                busy_text(&shown)
            },
            LockError::Io(e) => show(e),
        }
    }
}

// ---------------------------------------------------------------------------------------------
// Taking the lock
// ---------------------------------------------------------------------------------------------
/// What the pruner waits for.
#[verifier::ext_equal]
pub enum AcquireStage {
    /// That the lock directory exists.
    Creating,
    /// A first listing of the locks.
    Polling,
    /// That its own lock is written.
    Claiming,
    /// A second listing, with its own lock in place.
    Rechecking,
    /// That its own lock is removed.
    Retreating,
    /// The time; these were the fresh locks.
    Timing(Seq<Seq<u8>>),
    /// The next try.
    Sleeping,
    /// Nothing: it holds the lock, or not.
    Ended(bool),
}

/// The state of an attempt to take the lock at `path`.
#[verifier::ext_equal]
pub struct AcquireView {
    pub dir: Seq<u8>,
    pub path: Seq<u8>,
    pub budget: u128,
    pub stage: AcquireStage,
}

/// What came of an action.
#[verifier::ext_equal]
pub enum AcquireNews<E> {
    /// It is done.
    Done,
    /// These locks are there.
    Locks(Seq<LockView>),
    /// So much time has passed since the beginning.
    Waited(u128),
    /// It failed.
    Failed(E),
}

/// What is to be done next.
#[verifier::ext_equal]
pub enum AcquireTask<E> {
    /// Create the lock directory.
    CreateDir,
    /// List the locks.
    ReadLocks,
    /// Write the lock file.
    WriteLock,
    /// Remove the lock file: these others were faster.
    RemoveLock(Seq<Seq<u8>>),
    /// Tell the time.
    AskClock,
    /// Wait before the next try.
    Sleep,
    /// Nothing: the lock is held.
    Held(Seq<u8>),
    /// Nothing: these locks did not drain.
    Busy(Seq<Seq<u8>>),
    /// Nothing: the file system failed.
    Broken(E),
}

/// What follows in each stage on what came of the action: the lock is written only where no fresh
/// lock of another was seen, and held only where none was seen afterwards either. Failure to
/// remove the lock is no obstacle; any other failure ends the attempt. News that answer nothing
/// have the action asked for again.
pub open spec fn acquire_next<E>(st: AcquireView, news: AcquireNews<E>) -> (
    AcquireStage,
    AcquireTask<E>,
) {
    match (st.stage, news) {
        (AcquireStage::Ended(held), _) => (
            AcquireStage::Ended(held),
            AcquireTask::Busy(Seq::empty()),
        ),
        (AcquireStage::Retreating, AcquireNews::Failed(_)) => (
            AcquireStage::Timing(Seq::empty()),
            AcquireTask::AskClock,
        ),
        (_, AcquireNews::Failed(e)) => (AcquireStage::Ended(false), AcquireTask::Broken(e)),
        (AcquireStage::Creating, AcquireNews::Done) => (
            AcquireStage::Polling,
            AcquireTask::ReadLocks,
        ),
        (AcquireStage::Creating, _) => (AcquireStage::Creating, AcquireTask::CreateDir),
        (AcquireStage::Polling, AcquireNews::Locks(locks)) => {
            let fresh = fresh_locks(locks, st.path);
            if fresh.len() == 0 {
                (AcquireStage::Claiming, AcquireTask::WriteLock)
            } else {
                (AcquireStage::Timing(fresh), AcquireTask::AskClock)
            }
        },
        (AcquireStage::Polling, _) => (AcquireStage::Polling, AcquireTask::ReadLocks),
        (AcquireStage::Claiming, AcquireNews::Done) => (
            AcquireStage::Rechecking,
            AcquireTask::ReadLocks,
        ),
        (AcquireStage::Claiming, _) => (AcquireStage::Claiming, AcquireTask::WriteLock),
        (AcquireStage::Rechecking, AcquireNews::Locks(locks)) => {
            let competing = fresh_locks(locks, st.path);
            if competing.len() == 0 {
                (AcquireStage::Ended(true), AcquireTask::Held(st.path))
            } else {
                (AcquireStage::Retreating, AcquireTask::RemoveLock(competing))
            }
        },
        (AcquireStage::Rechecking, _) => (AcquireStage::Rechecking, AcquireTask::ReadLocks),
        (AcquireStage::Retreating, AcquireNews::Done) => (
            AcquireStage::Timing(Seq::empty()),
            AcquireTask::AskClock,
        ),
        (AcquireStage::Retreating, _) => (
            AcquireStage::Retreating,
            AcquireTask::RemoveLock(Seq::empty()),
        ),
        (AcquireStage::Timing(fresh), AcquireNews::Waited(waited)) => {
            if waited >= st.budget {
                (AcquireStage::Ended(false), AcquireTask::Busy(fresh))
            } else {
                (AcquireStage::Sleeping, AcquireTask::Sleep)
            }
        },
        (AcquireStage::Timing(fresh), _) => (AcquireStage::Timing(fresh), AcquireTask::AskClock),
        (AcquireStage::Sleeping, AcquireNews::Done) => (
            AcquireStage::Polling,
            AcquireTask::ReadLocks,
        ),
        (AcquireStage::Sleeping, _) => (AcquireStage::Sleeping, AcquireTask::Sleep),
    }
}

/// The stage that an attempt is in.
enum Stage {
    Creating,
    Polling,
    Claiming,
    Rechecking,
    Retreating,
    Timing(Vec<Vec<u8>>),
    Sleeping,
    Ended(bool),
}

impl View for Stage {
    type V = AcquireStage;

    closed spec fn view(&self) -> AcquireStage {
        match self {
            Stage::Creating => AcquireStage::Creating,
            Stage::Polling => AcquireStage::Polling,
            Stage::Claiming => AcquireStage::Claiming,
            Stage::Rechecking => AcquireStage::Rechecking,
            Stage::Retreating => AcquireStage::Retreating,
            Stage::Timing(fresh) => AcquireStage::Timing(path::paths_view(fresh@)),
            Stage::Sleeping => AcquireStage::Sleeping,
            Stage::Ended(held) => AcquireStage::Ended(*held),
        }
    }
}

/// What came of an action.
#[derive(Debug)]
pub enum AcquireEvent<E> {
    /// It is done.
    Done,
    /// These locks are there.
    Locks(Vec<LockEntry>),
    /// So many nanoseconds have passed since the beginning.
    Waited(u128),
    /// It failed.
    Failed(E),
}

impl<E> View for AcquireEvent<E> {
    type V = AcquireNews<E>;

    open spec fn view(&self) -> AcquireNews<E> {
        match self {
            AcquireEvent::Done => AcquireNews::Done,
            AcquireEvent::Locks(locks) => AcquireNews::Locks(locks_view(locks@)),
            AcquireEvent::Waited(waited) => AcquireNews::Waited(*waited),
            AcquireEvent::Failed(e) => AcquireNews::Failed(*e),
        }
    }
}

/// What is to be done next.
#[derive(Debug)]
pub enum AcquireAction<E> {
    /// Create the lock directory.
    CreateDir,
    /// List the locks.
    ReadLocks,
    /// Write the lock file.
    WriteLock,
    /// Remove the lock file: these others were faster.
    RemoveLock(Vec<Vec<u8>>),
    /// Tell the time.
    AskClock,
    /// Wait before the next try.
    Sleep,
    /// Nothing: this is how the attempt ended.
    Finish(Result<ExclusiveLock, LockError<E>>),
}

impl<E> View for AcquireAction<E> {
    type V = AcquireTask<E>;

    closed spec fn view(&self) -> AcquireTask<E> {
        match self {
            AcquireAction::CreateDir => AcquireTask::CreateDir,
            AcquireAction::ReadLocks => AcquireTask::ReadLocks,
            AcquireAction::WriteLock => AcquireTask::WriteLock,
            AcquireAction::RemoveLock(others) => AcquireTask::RemoveLock(path::paths_view(others@)),
            AcquireAction::AskClock => AcquireTask::AskClock,
            AcquireAction::Sleep => AcquireTask::Sleep,
            AcquireAction::Finish(Ok(lock)) => AcquireTask::Held(lock@),
            AcquireAction::Finish(Err(LockError::Busy(locks))) => AcquireTask::Busy(
                path::paths_view(locks@),
            ),
            AcquireAction::Finish(Err(LockError::Io(e))) => AcquireTask::Broken(*e),
        }
    }
}

/// An attempt to take an exclusive lock: poll until no fresh lock of another holder remains,
/// create ours, recheck, back off and retry on conflict.
pub struct Acquire {
    dir: Vec<u8>,
    path: Vec<u8>,
    budget: u128,
    stage: Stage,
}

impl View for Acquire {
    type V = AcquireView;

    closed spec fn view(&self) -> AcquireView {
        AcquireView { dir: self.dir@, path: self.path@, budget: self.budget, stage: self.stage@ }
    }
}

/// An attempt by the given process, which has done nothing yet.
pub open spec fn acquire_start(
    gcroots: Seq<u8>,
    pid: u32,
    token: u32,
    budget: u128,
) -> AcquireView {
    AcquireView {
        dir: lock_dir_of(gcroots),
        path: path::joined(lock_dir_of(gcroots), encode_utf8(lock_id_of(pid, token))),
        budget,
        stage: AcquireStage::Creating,
    }
}

/// Begins to acquire an exclusive lock for the given process, which may take `wait_budget`
/// nanoseconds. The first action is to create the lock directory.
pub fn acquire_exclusive(gcroots: &[u8], pid: u32, token: u32, wait_budget: u128) -> (r: Acquire)
    ensures
        r@ == acquire_start(gcroots@, pid, token, wait_budget),
{
    let dir = lock_dir(gcroots);
    let id = lock_id(pid, token);
    let path = join(dir.as_slice(), id.as_str().as_bytes());
    Acquire { dir, path, budget: wait_budget, stage: Stage::Creating }
}

impl Acquire {
    /// Where the locks are.
    pub fn dir(&self) -> (r: &Vec<u8>)
        ensures
            r@ == self@.dir,
    {
        &self.dir
    }

    /// Where the lock of this attempt is.
    pub fn path(&self) -> (r: &Vec<u8>)
        ensures
            r@ == self@.path,
    {
        &self.path
    }

    /// Takes what came of the last action into account and says what is to be done next.
    pub fn step<E>(&mut self, event: AcquireEvent<E>) -> (r: AcquireAction<E>)
        requires
            !(old(self)@.stage is Ended),
        ensures
            final(self)@ == (AcquireView {
                stage: acquire_next(old(self)@, event@).0,
                ..old(self)@
            }),
            r@ == acquire_next(old(self)@, event@).1,
    {
        let mut stage = Stage::Sleeping;
        std::mem::swap(&mut stage, &mut self.stage);
        let (next, action) = match (stage, event) {
            (Stage::Ended(held), _) => (
                Stage::Ended(held),
                AcquireAction::Finish(Err(LockError::Busy(Vec::new()))),
            ),
            (Stage::Retreating, AcquireEvent::Failed(_)) => (
                Stage::Timing(Vec::new()),
                AcquireAction::AskClock,
            ),
            (_, AcquireEvent::Failed(e)) => (
                Stage::Ended(false),
                AcquireAction::Finish(Err(LockError::Io(e))),
            ),
            (Stage::Creating, AcquireEvent::Done) => (Stage::Polling, AcquireAction::ReadLocks),
            (Stage::Creating, _) => (Stage::Creating, AcquireAction::CreateDir),
            (Stage::Polling, AcquireEvent::Locks(locks)) => {
                let fresh = fresh_foreign_locks(&locks, self.path.as_slice());
                assert(path::paths_view(fresh@).len() == fresh@.len());
                if fresh.len() == 0 {
                    (Stage::Claiming, AcquireAction::WriteLock)
                } else {
                    (Stage::Timing(fresh), AcquireAction::AskClock)
                }
            },
            (Stage::Polling, _) => (Stage::Polling, AcquireAction::ReadLocks),
            (Stage::Claiming, AcquireEvent::Done) => (Stage::Rechecking, AcquireAction::ReadLocks),
            (Stage::Claiming, _) => (Stage::Claiming, AcquireAction::WriteLock),
            (Stage::Rechecking, AcquireEvent::Locks(locks)) => {
                let competing = fresh_foreign_locks(&locks, self.path.as_slice());
                assert(path::paths_view(competing@).len() == competing@.len());
                if competing.len() == 0 {
                    let lock = ExclusiveLock { path: slice_to_vec(self.path.as_slice()) };
                    (Stage::Ended(true), AcquireAction::Finish(Ok(lock)))
                } else {
                    (Stage::Retreating, AcquireAction::RemoveLock(competing))
                }
            },
            (Stage::Rechecking, _) => (Stage::Rechecking, AcquireAction::ReadLocks),
            (Stage::Retreating, AcquireEvent::Done) => (
                Stage::Timing(Vec::new()),
                AcquireAction::AskClock,
            ),
            (Stage::Retreating, _) => (Stage::Retreating, AcquireAction::RemoveLock(Vec::new())),
            (Stage::Timing(fresh), AcquireEvent::Waited(waited)) => {
                if waited >= self.budget {
                    (Stage::Ended(false), AcquireAction::Finish(Err(LockError::Busy(fresh))))
                } else {
                    (Stage::Sleeping, AcquireAction::Sleep)
                }
            },
            (Stage::Timing(fresh), _) => (Stage::Timing(fresh), AcquireAction::AskClock),
            (Stage::Sleeping, AcquireEvent::Done) => (Stage::Polling, AcquireAction::ReadLocks),
            (Stage::Sleeping, _) => (Stage::Sleeping, AcquireAction::Sleep),
        };
        self.stage = next;
        assert(next@ =~~= acquire_next(old(self)@, event@).0);
        assert(action@ =~~= acquire_next(old(self)@, event@).1);
        action
    }
}

// ---------------------------------------------------------------------------------------------
// Laws
// ---------------------------------------------------------------------------------------------
/// A lock blocks if and only if it is fresh and belongs to another.
pub proof fn only_fresh_foreign_locks_block(locks: Seq<LockView>, own: Seq<u8>, name: Seq<u8>)
    ensures
        fresh_locks(locks, own).contains(name) <==> exists|k: int|
            {
                &&& 0 <= k < locks.len()
                &&& (#[trigger] locks[k]).name == name
                &&& locks[k].age <= STALE_AFTER
                &&& !path::same_path(name, own)
            },
    decreases locks.len(),
{
    if locks.len() > 0 {
        let shorter = locks.drop_last();
        let rest = fresh_locks(shorter, own);
        let all = fresh_locks(locks, own);
        only_fresh_foreign_locks_block(shorter, own, name);
        assert(locks.last() == locks[locks.len() - 1]);
        if rest.contains(name) {
            let j = choose|j: int| 0 <= j < rest.len() && rest[j] == name;
            assert(all[j] == name);
            let k = choose|k: int|
                {
                    &&& 0 <= k < shorter.len()
                    &&& (#[trigger] shorter[k]).name == name
                    &&& shorter[k].age <= STALE_AFTER
                    &&& !path::same_path(name, own)
                };
            assert(locks[k].name == name);
        }
        if all.len() > rest.len() {
            assert(all.last() == locks.last().name);
            assert(all.contains(locks.last().name));
            if all.contains(name) && !rest.contains(name) {
                let j = choose|j: int| 0 <= j < all.len() && all[j] == name;
                assert(j == rest.len());
            }
        }
        if exists|k: int|
            {
                &&& 0 <= k < locks.len()
                &&& (#[trigger] locks[k]).name == name
                &&& locks[k].age <= STALE_AFTER
                &&& !path::same_path(name, own)
            } {
            let k = choose|k: int|
                {
                    &&& 0 <= k < locks.len()
                    &&& (#[trigger] locks[k]).name == name
                    &&& locks[k].age <= STALE_AFTER
                    &&& !path::same_path(name, own)
                };
            if k < locks.len() - 1 {
                assert(shorter[k].name == name);
            }
        }
    }
}

/// Whether the lock file of an attempt is in place.
pub open spec fn in_place(stage: AcquireStage) -> bool {
    stage is Rechecking || stage is Retreating || stage == AcquireStage::Ended(true)
}

/// The lock is held only after it was written and then nobody else was seen.
pub proof fn the_lock_is_held_only_alone<E>(st: AcquireView, news: AcquireNews<E>)
    requires
        !(st.stage is Ended),
    ensures
        acquire_next(st, news).1 is Held <==> {
            &&& st.stage is Rechecking
            &&& news matches AcquireNews::Locks(locks) && fresh_locks(locks, st.path).len() == 0
        },
        acquire_next(st, news).0 == AcquireStage::Ended(true) <==> acquire_next(st, news).1 is Held,
        acquire_next(st, news).1 is Held ==> acquire_next(st, news).1->Held_0 == st.path,
{
}

/// The lock file is in place exactly from when it has been written until it has been removed or
/// the file system fails, and the attempt takes it back before it gives up: a cache that is found
/// busy is left as it was.
pub proof fn a_refused_attempt_leaves_no_lock<E>(st: AcquireView, news: AcquireNews<E>)
    requires
        !(st.stage is Ended),
    ensures
        !(news is Failed) ==> in_place(acquire_next(st, news).0) == (if st.stage is Claiming
            && news is Done {
            true
        } else if st.stage is Retreating && news is Done {
            false
        } else {
            in_place(st.stage)
        }),
        acquire_next(st, news).1 is WriteLock ==> !in_place(st.stage),
        acquire_next(st, news).1 is Busy ==> !in_place(st.stage) && !in_place(
            acquire_next(st, news).0,
        ),
{
}

/// A pruner that finds fresh locks of others when its time is up names them all and gives up.
pub proof fn a_busy_cache_is_refused<E>(st: AcquireView, locks: Seq<LockView>, waited: u128)
    requires
        st.stage is Polling,
        fresh_locks(locks, st.path).len() > 0,
        waited >= st.budget,
    ensures
        ({
            let (stage, task) = acquire_next(st, AcquireNews::<E>::Locks(locks));
            let (end, last) = acquire_next(
                AcquireView { stage, ..st },
                AcquireNews::<E>::Waited(waited),
            );
            task is AskClock && last == AcquireTask::<E>::Busy(fresh_locks(locks, st.path))
        }),
{
}

/// The lock of a pruner is named after it, and can be told from a writer's by the name.
pub proof fn a_pruner_lock_is_known_by_its_name(
    gcroots: Seq<u8>,
    pid: u32,
    token: u32,
    budget: u128,
)
    ensures
        path::file_name(acquire_start(gcroots, pid, token, budget).path) == Some(
            encode_utf8(lock_id_of(pid, token)),
        ),
        encode_utf8(prune_prefix()).is_prefix_of(encode_utf8(lock_id_of(pid, token))),
{
    let id = lock_id_of(pid, token);
    reveal_strlit("prune-");
    let prefix = prune_prefix();
    let tail = text::decimal(pid as nat) + seq!['-'] + text::hexadecimal(token as nat, 8);
    text::lemma_decimal_is_plain(pid as nat);
    text::lemma_hexadecimal_is_plain(token as nat, 8);
    assert(id =~= prefix + tail);
    assert forall|i: int| 0 <= i < id.len() implies text::is_plain(#[trigger] id[i]) by {
        if i < prefix.len() {
            assert(id[i] == prefix[i]);
        } else {
            assert(id[i] == tail[i - prefix.len()]);
            let d = text::decimal(pid as nat);
            let h = text::hexadecimal(token as nat, 8);
            if i - prefix.len() < d.len() {
                assert(id[i] == d[i - prefix.len()]);
            } else if i - prefix.len() > d.len() {
                assert(id[i] == h[i - prefix.len() - d.len() - 1]);
            }
        }
    }
    is_ascii_chars_encode_utf8(id);
    is_ascii_chars_encode_utf8(prefix);
    let bytes = encode_utf8(id);
    let head = encode_utf8(prefix);
    assert(head =~= bytes.take(head.len() as int));
    assert(bytes[0] == 0x70u8) by {
        assert(id[0] == 'p');
    }
    if bytes.contains(path::SLASH) {
        let i = choose|i: int| 0 <= i < bytes.len() && bytes[i] == path::SLASH;
        assert(text::is_plain(id[i]));
    }
    path::lemma_joined_name(lock_dir_of(gcroots), bytes);
}

/// A lock goes stale after half an hour, and not before.
pub proof fn a_lock_goes_stale_after_half_an_hour(name: Seq<u8>, age: u128)
    ensures
        is_stale_lock(LockView { name, age }) <==> age > 30 * 60 * 1_000_000_000,
{
}

/// The age of a lock is the time that has passed since its last change, and none where that lies
/// ahead; and the lock keeps its name.
pub proof fn a_lock_is_as_old_as_its_last_change(name: Seq<u8>, now: i128, then: i128)
    ensures
        now >= then ==> then + age_at(now, then) == now,
        now < then ==> age_at(now, then) == 0,
        lock_at(name, now, then).age == age_at(now, then),
        lock_at(name, now, then).name == name,
{
}

/// Locks are listed entry by entry, in order: every plain file is a lock, with its name and its age,
/// nothing else is, and the first failure is that of the listing.
pub proof fn locks_are_listed_entry_by_entry<E>(
    a: Seq<Listed<E>>,
    b: Seq<Listed<E>>,
    now: i128,
    name: Vec<u8>,
    modified: i128,
    e: E,
)
    ensures
        locks_in(a + b, now) == (match locks_in(a, now) {
            Err(e) => Err::<Seq<LockView>, E>(e),
            Ok(x) => match locks_in(b, now) {
                Err(e) => Err(e),
                Ok(y) => Ok(x + y),
            },
        }),
        locks_in(seq![Listed::<E>::File(name, modified)], now) matches Ok(locks) && locks.len() == 1
            && locks[0].name == name@ && locks[0].age == age_at(now, modified),
        locks_in(seq![Listed::<E>::Other], now) == Ok::<Seq<LockView>, E>(Seq::empty()),
        locks_in(seq![Listed::<E>::Failed(e)], now) == Err::<Seq<LockView>, E>(e),
    decreases b.len(),
{
    if b.len() == 0 {
        assert(a + b =~= a);
        if let Ok(x) = locks_in(a, now) {
            assert(x + Seq::<LockView>::empty() =~= x);
        }
    } else {
        let shorter = b.drop_last();
        locks_are_listed_entry_by_entry(a, shorter, now, name, modified, e);
        assert((a + b).drop_last() =~= a + shorter);
        assert((a + b).last() == b.last());
        if let Ok(x) = locks_in(a, now) {
            if let Ok(y) = locks_in(shorter, now) {
                if let Listed::File(n, m) = b.last() {
                    let l = lock_at(n@, now, m);
                    assert((x + y).push(l) =~= x + y.push(l));
                }
            }
        }
    }
    reveal_with_fuel(locks_in, 2);
    let none = Seq::<Listed<E>>::empty();
    assert(seq![Listed::<E>::File(name, modified)].drop_last() =~= none);
    assert(seq![Listed::<E>::Other].drop_last() =~= none);
    assert(seq![Listed::<E>::Failed(e)].drop_last() =~= none);
}

/// Locks stand in the way in the order in which they are listed, each on its own account: where it
/// is at most half an hour old and at another path than one's own.
pub proof fn each_lock_blocks_on_its_own_account(
    a: Seq<LockView>,
    b: Seq<LockView>,
    lock: LockView,
    own: Seq<u8>,
)
    ensures
        fresh_locks(a + b, own) == fresh_locks(a, own) + fresh_locks(b, own),
        fresh_locks(seq![lock], own) == (if lock.age <= 1_800_000_000_000 && !path::same_path(
            lock.name,
            own,
        ) {
            seq![lock.name]
        } else {
            Seq::empty()
        }),
    decreases b.len(),
{
    if b.len() == 0 {
        assert(a + b =~= a);
        assert(fresh_locks(a, own) + fresh_locks(b, own) =~= fresh_locks(a, own));
    } else {
        each_lock_blocks_on_its_own_account(a, b.drop_last(), lock, own);
        assert((a + b).drop_last() =~= a + b.drop_last());
        assert((a + b).last() == b.last());
        assert(fresh_locks(a + b, own) =~= fresh_locks(a, own) + fresh_locks(b, own));
    }
    reveal_with_fuel(fresh_locks, 2);
    assert(seq![lock].drop_last() =~= Seq::<LockView>::empty());
    assert(fresh_locks(seq![lock], own) =~= (if lock.age <= 1_800_000_000_000 && !path::same_path(
        lock.name,
        own,
    ) {
        seq![lock.name]
    } else {
        Seq::empty()
    }));
}

/// Pruners with other process numbers or other tokens have other locks.
pub proof fn pruners_have_locks_of_their_own(pid: u32, token: u32, other: u32, another: u32)
    ensures
        lock_id_of(pid, token) == lock_id_of(other, another) ==> pid == other && token == another,
        "prune-"@.is_prefix_of(lock_id_of(pid, token)),
        lock_id_of(pid, token) == "prune-"@ + text::decimal(pid as nat) + "-"@ + text::hexadecimal(
            token as nat,
            8,
        ),
{
    reveal_strlit("-");
    let (x, y) = (lock_id_of(pid, token), lock_id_of(other, another));
    let p = "prune-"@;
    let n = p.len() as int;
    let (d, e) = (text::decimal(pid as nat), text::decimal(other as nat));
    let (h, g) = (text::hexadecimal(token as nat, 8), text::hexadecimal(another as nat, 8));
    assert("-"@ =~= seq!['-']);
    text::lemma_hexadecimal_is_plain(token as nat, 8);
    text::lemma_hexadecimal_is_plain(another as nat, 8);
    assert(x.subrange(0, n) =~= p);
    assert(x =~= p + d + seq!['-'] + h);
    assert(y =~= p + e + seq!['-'] + g);
    if x == y {
        assert(h.len() == 8 && g.len() == 8);
        assert((p + d + seq!['-'] + h).len() == n + d.len() + 9);
        assert((p + e + seq!['-'] + g).len() == n + e.len() + 9);
        assert(x.subrange(n, n + d.len()) =~= d);
        assert(y.subrange(n, n + e.len()) =~= e);
        assert(x.subrange(n + d.len() + 1, x.len() as int) =~= h);
        assert(y.subrange(n + e.len() + 1, y.len() as int) =~= g);
        text::decimal_numbers_can_be_told_apart(pid as nat, other as nat);
        assert(text::sixteens(8) == 0x1_0000_0000) by {
            reveal_with_fuel(text::sixteens, 9);
        }
        text::hexadecimal_numbers_can_be_told_apart(token as nat, another as nat, 8);
    }
}

/// Locks lie in the directory `.lock` among the garbage collection roots, and an attempt has its own
/// lock there, has nothing done yet, and all of its time before it.
pub proof fn locks_lie_among_the_roots(gcroots: Seq<u8>, pid: u32, token: u32, budget: u128)
    ensures
        lock_dir_of(gcroots) == path::joined(gcroots, encode_utf8(".lock"@)),
        acquire_start(gcroots, pid, token, budget).dir == path::joined(
            gcroots,
            encode_utf8(".lock"@),
        ),
        acquire_start(gcroots, pid, token, budget).path == path::joined(
            path::joined(gcroots, encode_utf8(".lock"@)),
            encode_utf8(lock_id_of(pid, token)),
        ),
        acquire_start(gcroots, pid, token, budget).budget == budget,
        acquire_start(gcroots, pid, token, budget).stage is Creating,
{
}

/// Whether a listing holds a lock of somebody else that is at most half an hour old.
pub open spec fn somebody_else_is_there(locks: Seq<LockView>, own: Seq<u8>) -> bool {
    exists|k: int|
        0 <= k < locks.len() && (#[trigger] locks[k]).age <= 1_800_000_000_000 && !path::same_path(
            locks[k].name,
            own,
        )
}

proof fn lemma_somebody_else(locks: Seq<LockView>, own: Seq<u8>)
    ensures
        fresh_locks(locks, own).len() > 0 <==> somebody_else_is_there(locks, own),
{
    let fresh = fresh_locks(locks, own);
    if fresh.len() > 0 {
        only_fresh_foreign_locks_block(locks, own, fresh[0]);
        assert(fresh.contains(fresh[0]));
    }
    if somebody_else_is_there(locks, own) {
        let k = choose|k: int|
            0 <= k < locks.len() && (#[trigger] locks[k]).age <= 1_800_000_000_000
                && !path::same_path(locks[k].name, own);
        only_fresh_foreign_locks_block(locks, own, locks[k].name);
    }
}

/// What an attempt is to do after some news, and where it stands then.
pub open spec fn after<E>(st: AcquireView, news: AcquireNews<E>) -> (AcquireView, AcquireTask<E>) {
    let (stage, task) = acquire_next(st, news);
    (AcquireView { stage, ..st }, task)
}

/// A pruner that meets nobody takes its lock: it creates the directory, looks, writes its lock, looks
/// again, and holds it.
pub proof fn a_free_cache_is_taken<E>(st: AcquireView, first: Seq<LockView>, next: Seq<LockView>)
    requires
        st.stage is Creating,
        !somebody_else_is_there(first, st.path),
        !somebody_else_is_there(next, st.path),
    ensures
        ({
            let (s1, t1) = after(st, AcquireNews::<E>::Done);
            let (s2, t2) = after(s1, AcquireNews::<E>::Locks(first));
            let (s3, t3) = after(s2, AcquireNews::<E>::Done);
            let (s4, t4) = after(s3, AcquireNews::<E>::Locks(next));
            &&& t1 == AcquireTask::<E>::ReadLocks
            &&& t2 == AcquireTask::<E>::WriteLock
            &&& t3 == AcquireTask::<E>::ReadLocks
            &&& t4 == AcquireTask::<E>::Held(st.path)
        }),
{
    lemma_somebody_else(first, st.path);
    lemma_somebody_else(next, st.path);
}

/// A pruner that meets somebody does not write its lock. As long as it has time it sleeps and looks
/// again; when its time is up it gives up.
pub proof fn a_pruner_waits_as_long_as_it_may<E>(
    st: AcquireView,
    locks: Seq<LockView>,
    waited: u128,
)
    requires
        st.stage is Polling,
        somebody_else_is_there(locks, st.path),
    ensures
        ({
            let (s1, t1) = after(st, AcquireNews::<E>::Locks(locks));
            let (s2, t2) = after(s1, AcquireNews::<E>::Waited(waited));
            let (s3, t3) = after(s2, AcquireNews::<E>::Done);
            &&& t1 == AcquireTask::<E>::AskClock
            &&& waited < st.budget ==> t2 == AcquireTask::<E>::Sleep && t3
                == AcquireTask::<E>::ReadLocks && s3 == st
            &&& waited >= st.budget ==> t2 == AcquireTask::<E>::Busy(fresh_locks(locks, st.path))
                && s2.stage == AcquireStage::Ended(false)
        }),
{
    lemma_somebody_else(locks, st.path);
}

/// A pruner that meets somebody after it wrote its lock removes it again, whether or not that works,
/// and tries again from the beginning as long as it has time.
pub proof fn a_pruner_backs_off_from_a_race<E>(
    st: AcquireView,
    locks: Seq<LockView>,
    e: E,
    waited: u128,
)
    requires
        st.stage is Rechecking,
        somebody_else_is_there(locks, st.path),
    ensures
        ({
            let (s1, t1) = after(st, AcquireNews::<E>::Locks(locks));
            let (s2, t2) = after(s1, AcquireNews::<E>::Done);
            let (f2, u2) = after(s1, AcquireNews::<E>::Failed(e));
            let (s3, t3) = after(s2, AcquireNews::<E>::Waited(waited));
            let (s4, t4) = after(s3, AcquireNews::<E>::Done);
            &&& t1 == AcquireTask::<E>::RemoveLock(fresh_locks(locks, st.path))
            &&& t2 == AcquireTask::<E>::AskClock
            &&& u2 == t2 && f2 == s2
            &&& waited < st.budget ==> t3 == AcquireTask::<E>::Sleep && t4
                == AcquireTask::<E>::ReadLocks && s4.stage is Polling
            &&& waited >= st.budget ==> t3 == AcquireTask::<E>::Busy(Seq::empty()) && s3.stage
                == AcquireStage::Ended(false)
        }),
{
    lemma_somebody_else(locks, st.path);
}

/// A failure ends the attempt with what failed, unless it was only to remove the lock.
pub proof fn a_failure_ends_the_attempt<E>(st: AcquireView, e: E)
    requires
        !(st.stage is Ended),
        !(st.stage is Retreating),
    ensures
        acquire_next(st, AcquireNews::<E>::Failed(e)).1 == AcquireTask::<E>::Broken(e),
        acquire_next(st, AcquireNews::<E>::Failed(e)).0 == AcquireStage::Ended(false),
{
}

/// A message about locks names them all, one after another, each behind a space.
pub proof fn a_message_names_every_lock(a: Seq<Seq<char>>, b: Seq<Seq<char>>, name: Seq<char>)
    ensures
        busy_message(a + b) == busy_message(a) + busy_message(b).skip(
            busy_message(Seq::empty()).len() as int,
        ),
        busy_message(Seq::empty()) == "cache is busy; fresh locks remain:"@,
        busy_message(seq![name]) == "cache is busy; fresh locks remain: "@ + name,
        busy_message(Seq::empty()).is_prefix_of(busy_message(b)),
    decreases b.len(),
{
    let none = Seq::<Seq<char>>::empty();
    let head = busy_message(none);
    let n = head.len() as int;
    reveal_strlit("cache is busy; fresh locks remain:");
    reveal_strlit("cache is busy; fresh locks remain: ");
    assert("cache is busy; fresh locks remain: "@ =~= "cache is busy; fresh locks remain:"@.push(
        ' ',
    ));
    if b.len() == 0 {
        assert(a + b =~= a);
        assert(b =~= none);
        assert(busy_message(a) + busy_message(b).skip(n) =~= busy_message(a));
        assert(head.subrange(0, n) =~= head);
    } else {
        let shorter = b.drop_last();
        a_message_names_every_lock(a, shorter, name);
        assert((a + b).drop_last() =~= a + shorter);
        assert((a + b).last() == b.last());
        let ms = busy_message(shorter);
        assert(ms.subrange(0, n) =~= head);
        assert(busy_message(b).subrange(0, n) =~= head);
        assert(busy_message(b).skip(n) =~= ms.skip(n) + seq![' '] + b.last());
        assert(busy_message(a + b) =~= busy_message(a) + busy_message(b).skip(n));
    }
    reveal_with_fuel(busy_message, 2);
    assert(seq![name].drop_last() =~= none);
    assert(busy_message(seq![name]) =~= "cache is busy; fresh locks remain: "@ + name);
}

/// Lists of locks, and of names, are taken as they are.
pub proof fn a_list_of_locks_is_taken_whole(
    locks: Seq<LockEntry>,
    names: Seq<Seq<u8>>,
    k: int,
)
    ensures
        locks_view(locks).len() == locks.len(),
        0 <= k < locks.len() ==> locks_view(locks)[k].name == locks[k].name@ && locks_view(
            locks,
        )[k].age == locks[k].age,
        shown_names(names).len() == names.len(),
        0 <= k < names.len() ==> shown_names(names)[k] == text::lossy(names[k]),
{
}

/// News that an attempt does not wait for change nothing.
pub proof fn an_attempt_waits_for_its_answer<E>(st: AcquireView, news: AcquireNews<E>)
    requires
        !(st.stage is Ended),
        !(news is Failed),
        match st.stage {
            AcquireStage::Polling | AcquireStage::Rechecking => !(news is Locks),
            AcquireStage::Timing(_) => !(news is Waited),
            _ => !(news is Done),
        },
    ensures
        acquire_next(st, news).0 == st.stage,
        acquire_next(st, news).1 == match st.stage {
            AcquireStage::Creating => AcquireTask::<E>::CreateDir,
            AcquireStage::Polling | AcquireStage::Rechecking => AcquireTask::<E>::ReadLocks,
            AcquireStage::Claiming => AcquireTask::<E>::WriteLock,
            AcquireStage::Retreating => AcquireTask::<E>::RemoveLock(Seq::empty()),
            AcquireStage::Sleeping => AcquireTask::<E>::Sleep,
            _ => AcquireTask::<E>::AskClock,
        },
{
}

} // verus!
