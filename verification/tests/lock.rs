//! The pruner's side of the lock protocol, against a lock directory in memory.

use kiss_cache::lock::{
    acquire_exclusive, lock_dir, lock_id, rand_token, read_locks, AcquireAction, AcquireEvent,
    ExclusiveLock, Listed, LockEntry, LockError, STALE_AFTER,
};
use std::collections::{BTreeMap, VecDeque};

const SECOND: u128 = 1_000_000_000;

/// A lock directory: the ages of the files in it.
struct Dir {
    locks: BTreeMap<Vec<u8>, u128>,
    slept: u32,
}

impl Dir {
    fn new() -> Self {
        Dir { locks: BTreeMap::new(), slept: 0 }
    }

    fn add(&mut self, name: &str, age: u128) {
        let mut path = lock_dir(b"/gcroots");
        path.push(b'/');
        path.extend_from_slice(name.as_bytes());
        self.locks.insert(path, age);
    }

    fn list(&self) -> Vec<LockEntry> {
        self.locks.iter().map(|(name, age)| LockEntry { name: name.clone(), age: *age }).collect()
    }

    /// Takes the lock. Each sleep makes the locks a second older; `race` adds a lock right after
    /// ours is written, so many times.
    fn acquire(&mut self, budget: u128, mut race: u32) -> Result<ExclusiveLock, LockError<String>> {
        let mut attempt = acquire_exclusive(b"/gcroots", 42, 7, budget);
        let path = attempt.path().clone();
        let mut event = AcquireEvent::Done;
        loop {
            event = match attempt.step(event) {
                AcquireAction::CreateDir => AcquireEvent::Done,
                AcquireAction::ReadLocks => AcquireEvent::Locks(self.list()),
                AcquireAction::WriteLock => {
                    self.locks.insert(path.clone(), 0);
                    if race > 0 {
                        race -= 1;
                        self.add("racer", 0);
                    }
                    AcquireEvent::Done
                }
                AcquireAction::RemoveLock(others) => {
                    assert_eq!(others, vec![b"/gcroots/.lock/racer".to_vec()]);
                    self.locks.remove(&path);
                    self.locks.retain(|name, _| !name.ends_with(b"racer"));
                    AcquireEvent::Done
                }
                AcquireAction::AskClock => AcquireEvent::Waited(u128::from(self.slept) * SECOND),
                AcquireAction::Sleep => {
                    self.slept += 1;
                    for age in self.locks.values_mut() {
                        *age += SECOND;
                    }
                    AcquireEvent::Done
                }
                AcquireAction::Finish(result) => return result,
            };
        }
    }
}

#[test]
fn acquires_when_no_locks() {
    let mut dir = Dir::new();
    let lock = dir.acquire(0, 0).unwrap();
    assert_eq!(dir.locks.len(), 1);
    assert_eq!(lock.path(), b"/gcroots/.lock/prune-42-00000007");
    dir.locks.remove(lock.path());
    assert_eq!(dir.locks.len(), 0);
}

#[test]
fn refuses_when_fresh_shared_lock_held() {
    let mut dir = Dir::new();
    dir.add("ci-job", 10 * SECOND);
    let err = dir.acquire(0, 0).unwrap_err();
    assert!(matches!(err, LockError::Busy(_)));
    // Did not leave a dangling lock behind.
    assert_eq!(dir.locks.len(), 1);
    assert_eq!(
        err.to_text(|e: &String| e.clone()),
        "cache is busy; fresh locks remain: /gcroots/.lock/ci-job"
    );
}

#[test]
fn ignores_stale_shared_lock() {
    let mut dir = Dir::new();
    dir.add("crashed-ci-job", STALE_AFTER + SECOND);
    let lock = dir.acquire(0, 0).unwrap();
    dir.locks.remove(lock.path());
    // The stale lock is left for its (dead) owner to clean up.
    assert_eq!(dir.locks.len(), 1);
}

#[test]
fn a_lock_of_exactly_the_limit_is_fresh() {
    let mut dir = Dir::new();
    dir.add("old", STALE_AFTER);
    assert!(dir.acquire(0, 0).is_err());
    let mut dir = Dir::new();
    dir.add("older", STALE_AFTER + 1);
    assert!(dir.acquire(0, 0).is_ok());
}

#[test]
fn waits_until_a_lock_goes_stale() {
    let mut dir = Dir::new();
    dir.add("crashed", STALE_AFTER - 2 * SECOND);
    let lock = dir.acquire(10 * SECOND, 0).unwrap();
    assert_eq!(dir.slept, 3);
    assert!(dir.locks.contains_key(lock.path()));
}

#[test]
fn retries_after_a_lost_race() {
    let mut dir = Dir::new();
    let lock = dir.acquire(10 * SECOND, 2).unwrap();
    assert_eq!(dir.slept, 2);
    assert!(dir.locks.contains_key(lock.path()));
    assert_eq!(dir.locks.len(), 1);
}

#[test]
fn a_race_lost_at_the_deadline_is_busy_with_no_names() {
    let mut dir = Dir::new();
    match dir.acquire(0, 1) {
        Err(LockError::Busy(names)) => assert!(names.is_empty()),
        other => panic!("{other:?}"),
    }
    assert_eq!(dir.locks.len(), 0);
}

#[test]
fn a_failure_ends_the_attempt() {
    let mut attempt = acquire_exclusive(b"/gcroots", 1, 2, 0);
    match attempt.step(AcquireEvent::Failed("disk on fire")) {
        AcquireAction::Finish(Err(e)) => {
            assert!(matches!(e, LockError::Io("disk on fire")));
            assert_eq!(e.to_text(|e: &&str| e.to_string()), "disk on fire");
        }
        other => panic!("{other:?}"),
    }
}

#[test]
fn failure_to_remove_the_lock_is_no_obstacle() {
    let racer = || LockEntry { name: b"/gcroots/.lock/x".to_vec(), age: 0 };
    let mut attempt = acquire_exclusive(b"/gcroots", 1, 2, 1);
    assert!(matches!(attempt.step::<()>(AcquireEvent::Done), AcquireAction::ReadLocks));
    assert!(matches!(attempt.step::<()>(AcquireEvent::Locks(vec![])), AcquireAction::WriteLock));
    assert!(matches!(attempt.step::<()>(AcquireEvent::Done), AcquireAction::ReadLocks));
    assert!(matches!(
        attempt.step::<()>(AcquireEvent::Locks(vec![racer()])),
        AcquireAction::RemoveLock(_)
    ));
    assert!(matches!(attempt.step(AcquireEvent::Failed(())), AcquireAction::AskClock));
    assert!(matches!(attempt.step::<()>(AcquireEvent::Waited(0)), AcquireAction::Sleep));
    assert!(matches!(attempt.step::<()>(AcquireEvent::Done), AcquireAction::ReadLocks));
}

#[test]
fn news_that_answer_nothing_are_ignored() {
    let mut attempt = acquire_exclusive(b"/gcroots", 1, 2, 1);
    assert!(matches!(attempt.step::<()>(AcquireEvent::Waited(9)), AcquireAction::CreateDir));
    assert!(matches!(attempt.step::<()>(AcquireEvent::Done), AcquireAction::ReadLocks));
    assert!(matches!(attempt.step::<()>(AcquireEvent::Done), AcquireAction::ReadLocks));
}

#[test]
fn an_own_lock_does_not_block() {
    let mut attempt = acquire_exclusive(b"/gcroots/", 1, 2, 0);
    let own = || LockEntry { name: b"/gcroots/.lock//prune-1-00000002".to_vec(), age: 0 };
    attempt.step::<()>(AcquireEvent::Done);
    assert!(matches!(
        attempt.step::<()>(AcquireEvent::Locks(vec![own()])),
        AcquireAction::WriteLock
    ));
}

#[test]
fn lock_names() {
    assert_eq!(lock_dir(b"/var/gcroots"), b"/var/gcroots/.lock");
    assert_eq!(lock_dir(b""), b".lock");
    assert_eq!(lock_id(1234, 0xbeef), "prune-1234-0000beef");
    assert_eq!(lock_id(0, u32::MAX), format!("prune-{}-{:08x}", 0, u32::MAX));
    assert_eq!(rand_token(0b1100, 0b1010), 0b0110);
}

#[test]
fn ages() {
    let age = |now, modified| LockEntry::new(Vec::new(), now, modified).age;
    assert_eq!(age(10, 3), 7);
    assert_eq!(age(3, 10), 0);
    assert_eq!(age(-3, -10), 7);
    assert_eq!(age(3, -10), 13);
    assert_eq!(age(i128::MAX, i128::MIN), u128::MAX);
}

#[test]
fn names_that_are_not_text_are_shown_as_far_as_they_are() {
    let err: LockError<()> = LockError::Busy(vec![b"/a/\xff".to_vec(), "/b/\u{e9}".into()]);
    assert_eq!(
        err.to_text(|_: &()| String::new()),
        "cache is busy; fresh locks remain: /a/\u{fffd} /b/\u{e9}"
    );
}

#[test]
fn only_plain_files_are_locks() {
    let listing = || -> VecDeque<Listed<&str>> {
        VecDeque::from(vec![
            Listed::File(b"/l/a".to_vec(), 10),
            Listed::Other,
            Listed::File(b"/l/b".to_vec(), 200),
        ])
    };
    let locks = read_locks(listing(), 110).unwrap();
    let seen: Vec<(&[u8], u128)> = locks.iter().map(|l| (l.name.as_slice(), l.age)).collect();
    assert_eq!(seen, [(&b"/l/a"[..], 100), (&b"/l/b"[..], 0)]);
    let mut broken = listing();
    broken.insert(1, Listed::Failed("first"));
    broken.push_back(Listed::Failed("second"));
    assert_eq!(read_locks(broken, 110).unwrap_err(), "first");
    assert!(read_locks(VecDeque::<Listed<()>>::new(), 0).unwrap().is_empty());
}
