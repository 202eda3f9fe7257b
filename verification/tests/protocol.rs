//! Pruners and writers against each other, in every order of up to nine steps.

use kiss_cache::lock::{acquire_exclusive, Acquire, AcquireAction, AcquireEvent, LockEntry};
use kiss_cache::writer::{put_lock_local, TakeAction, TakeStage};
use std::collections::BTreeSet;

type Dir = BTreeSet<Vec<u8>>;

fn list(dir: &Dir) -> Vec<LockEntry> {
    dir.iter().map(|name| LockEntry { name: name.clone(), age: 0 }).collect()
}

/// Somebody who wants a lock: what it is to do next, and whether it holds the lock.
enum Party {
    Pruner { attempt: Acquire, action: AcquireAction<()> },
    Writer { lock: Vec<u8>, stage: TakeStage, action: TakeAction<()> },
}

impl Party {
    fn pruner(pid: u32) -> Self {
        Party::Pruner {
            attempt: acquire_exclusive(b"/g", pid, 0, 1),
            action: AcquireAction::CreateDir,
        }
    }

    fn writer(name: &str) -> Self {
        Party::Writer {
            lock: format!("/g/.lock/{name}").into_bytes(),
            stage: TakeStage::Creating,
            action: TakeAction::CreateDir,
        }
    }

    fn prunes(&self) -> bool {
        matches!(self, Party::Pruner { .. })
    }

    fn holds(&self) -> bool {
        match self {
            Party::Pruner { action, .. } => matches!(action, AcquireAction::Finish(Ok(_))),
            Party::Writer { stage, .. } => *stage == TakeStage::Ended(true),
        }
    }

    /// Does what is next. Whoever holds a lock gives it back and is done.
    fn act(&mut self, dir: &mut Dir) {
        match self {
            Party::Pruner { attempt, action } => {
                let event = match action {
                    AcquireAction::ReadLocks => AcquireEvent::Locks(list(dir)),
                    AcquireAction::WriteLock => {
                        dir.insert(attempt.path().clone());
                        AcquireEvent::Done
                    }
                    AcquireAction::RemoveLock(_) => {
                        dir.remove(attempt.path());
                        AcquireEvent::Done
                    }
                    AcquireAction::AskClock => AcquireEvent::Waited(0),
                    AcquireAction::CreateDir | AcquireAction::Sleep => AcquireEvent::Done,
                    AcquireAction::Finish(_) => {
                        dir.remove(attempt.path());
                        *self = Party::pruner(99);
                        return;
                    }
                };
                *action = attempt.step(event);
            }
            Party::Writer { lock, stage, action } => {
                let event = match action {
                    TakeAction::ReadLocks => AcquireEvent::Locks(list(dir)),
                    TakeAction::WriteLock => {
                        dir.insert(lock.clone());
                        AcquireEvent::Done
                    }
                    TakeAction::RemoveLock => {
                        dir.remove(lock);
                        AcquireEvent::Done
                    }
                    TakeAction::CreateDir | TakeAction::Sleep(_) => AcquireEvent::Done,
                    TakeAction::Finish(_) => {
                        dir.remove(lock);
                        *stage = TakeStage::Creating;
                        *action = TakeAction::CreateDir;
                        return;
                    }
                };
                (*stage, *action) = put_lock_local(*stage, event);
            }
        }
    }
}

/// Lets the parties act in the given order, after each has created the directory, and returns how
/// often somebody was inside.
fn play(mut parties: Vec<Party>, mut order: u32, steps: u32) -> u32 {
    let mut dir = Dir::new();
    let mut inside = 0;
    for party in &mut parties {
        party.act(&mut dir);
    }
    for _ in 0..steps {
        let who = (order % parties.len() as u32) as usize;
        order /= parties.len() as u32;
        parties[who].act(&mut dir);
        let holders = parties.iter().filter(|p| p.holds()).count();
        let pruners = parties.iter().filter(|p| p.holds() && p.prunes()).count();
        assert!(pruners == 0 || holders == 1, "a prune is not alone");
        inside += u32::from(holders > 0);
    }
    inside
}

#[test]
fn a_prune_is_alone_in_every_order() {
    let mut inside = 0;
    for order in 0..3u32.pow(9) {
        inside += play(vec![Party::pruner(1), Party::writer("web1"), Party::pruner(2)], order, 9);
        let others = vec![Party::writer("web1"), Party::pruner(1), Party::writer("web2")];
        inside += play(others, order, 9);
    }
    assert!(inside > 0);
}

#[test]
fn two_writers_can_be_inside_together() {
    let mut dir = Dir::new();
    let mut parties = [Party::writer("a"), Party::writer("b")];
    for party in &mut parties {
        for _ in 0..4 {
            party.act(&mut dir);
        }
    }
    assert!(parties.iter().all(Party::holds));
}
