//! A publish under a cooperative lock: take the lock, run the command, write the marker, release.
//!
//! What is done next is decided here, one action at a time; the caller carries the action out and
//! reports what came of it.

use vstd::prelude::*;

verus! {

/// How the publish command ended.
#[derive(Clone, Copy, Debug, PartialEq, Eq, Structural)]
pub enum CommandStatus {
    /// It succeeded.
    Succeeded,
    /// It failed, with this code if it was not killed.
    Failed(Option<i32>),
    /// It could not be run.
    NotRun,
}

/// What a publish waits for.
#[derive(Clone, Copy, Debug, PartialEq, Eq, Structural)]
pub enum PublishStage {
    /// The lock.
    Locking,
    /// The end of the command.
    Running,
    /// The marker.
    Marking,
    /// That the lock is gone, before it exits with this code.
    Releasing(u8),
    /// Nothing: this is its exit code.
    Ended(u8),
}

/// What came of an action of a publish.
#[derive(Clone, Copy, Debug, PartialEq, Eq, Structural)]
pub enum PublishEvent {
    /// The lock is taken.
    LockTaken,
    /// The lock could not be taken.
    LockRefused,
    /// The command ended, and a refresh of the lock had failed by then, or not.
    CommandEnded(CommandStatus, bool),
    /// The marker is written.
    MarkerWritten,
    /// The marker could not be written.
    MarkerFailed,
    /// The lock is removed, or could not be.
    LockReleased,
}

/// What a publish is to do next.
#[derive(Clone, Copy, Debug, PartialEq, Eq, Structural)]
pub enum PublishAction {
    /// Take the lock.
    TakeLock,
    /// Run the command, and refresh the lock while it runs.
    RunCommand,
    /// Write the marker.
    WriteMarker,
    /// Remove the lock.
    ReleaseLock,
    /// Exit with this code.
    Exit(u8),
}

/// The exit code of success.
pub const SUCCESS: u8 = 0;

/// The exit code of a failure that has no code of its own.
pub const FAILURE: u8 = 1;

/// The exit code for a command that failed: its own, where it has one that fits.
pub open spec fn failure_code(code: Option<i32>) -> u8 {
    match code {
        Some(c) if 0 <= c <= 255 => c as u8,
        _ => FAILURE,
    }
}

/// What follows on what came of an action. Without the lock nothing is published. A refresh that
/// failed is unsafe to ignore, as the lock may have gone stale and a prune could race the publish:
/// then, and where the command fails, the marker is not written. Once the lock is taken it is
/// released in the end. News that answer nothing have the action asked for again.
pub open spec fn publish_next(stage: PublishStage, event: PublishEvent) -> (
    PublishStage,
    PublishAction,
) {
    match (stage, event) {
        (PublishStage::Locking, PublishEvent::LockTaken) => (
            PublishStage::Running,
            PublishAction::RunCommand,
        ),
        (PublishStage::Locking, PublishEvent::LockRefused) => (
            PublishStage::Ended(FAILURE),
            PublishAction::Exit(FAILURE),
        ),
        (PublishStage::Locking, _) => (PublishStage::Locking, PublishAction::TakeLock),
        (PublishStage::Running, PublishEvent::CommandEnded(status, lost)) => if lost {
            (PublishStage::Releasing(FAILURE), PublishAction::ReleaseLock)
        } else {
            match status {
                CommandStatus::Succeeded => (PublishStage::Marking, PublishAction::WriteMarker),
                CommandStatus::Failed(code) => (
                    PublishStage::Releasing(failure_code(code)),
                    PublishAction::ReleaseLock,
                ),
                CommandStatus::NotRun => (
                    PublishStage::Releasing(FAILURE),
                    PublishAction::ReleaseLock,
                ),
            }
        },
        (PublishStage::Running, _) => (PublishStage::Running, PublishAction::RunCommand),
        (PublishStage::Marking, PublishEvent::MarkerWritten) => (
            PublishStage::Releasing(SUCCESS),
            PublishAction::ReleaseLock,
        ),
        (PublishStage::Marking, PublishEvent::MarkerFailed) => (
            PublishStage::Releasing(FAILURE),
            PublishAction::ReleaseLock,
        ),
        (PublishStage::Marking, _) => (PublishStage::Marking, PublishAction::WriteMarker),
        (PublishStage::Releasing(code), PublishEvent::LockReleased) => (
            PublishStage::Ended(code),
            PublishAction::Exit(code),
        ),
        (PublishStage::Releasing(code), _) => (
            PublishStage::Releasing(code),
            PublishAction::ReleaseLock,
        ),
        (PublishStage::Ended(code), _) => (PublishStage::Ended(code), PublishAction::Exit(code)),
    }
}

/// The exit code for a command that failed.
pub fn command_code(code: Option<i32>) -> (r: u8)
    ensures
        r == failure_code(code),
{
    match code {
        Some(c) => if 0 <= c && c <= 255 {
            c as u8
        } else {
            FAILURE
        },
        None => FAILURE,
    }
}

/// Takes the next step of a publish under a cooperative lock: take the lock, run the command,
/// write the marker, release.
pub fn run_publish(stage: PublishStage, event: PublishEvent) -> (r: (PublishStage, PublishAction))
    ensures
        r == publish_next(stage, event),
{
    match (stage, event) {
        (PublishStage::Locking, PublishEvent::LockTaken) => (
            PublishStage::Running,
            PublishAction::RunCommand,
        ),
        (PublishStage::Locking, PublishEvent::LockRefused) => (
            PublishStage::Ended(FAILURE),
            PublishAction::Exit(FAILURE),
        ),
        (PublishStage::Locking, _) => (PublishStage::Locking, PublishAction::TakeLock),
        (PublishStage::Running, PublishEvent::CommandEnded(status, lost)) => if lost {
            (PublishStage::Releasing(FAILURE), PublishAction::ReleaseLock)
        } else {
            match status {
                CommandStatus::Succeeded => (PublishStage::Marking, PublishAction::WriteMarker),
                CommandStatus::Failed(code) => (
                    PublishStage::Releasing(command_code(code)),
                    PublishAction::ReleaseLock,
                ),
                CommandStatus::NotRun => (
                    PublishStage::Releasing(FAILURE),
                    PublishAction::ReleaseLock,
                ),
            }
        },
        (PublishStage::Running, _) => (PublishStage::Running, PublishAction::RunCommand),
        (PublishStage::Marking, PublishEvent::MarkerWritten) => (
            PublishStage::Releasing(SUCCESS),
            PublishAction::ReleaseLock,
        ),
        (PublishStage::Marking, PublishEvent::MarkerFailed) => (
            PublishStage::Releasing(FAILURE),
            PublishAction::ReleaseLock,
        ),
        (PublishStage::Marking, _) => (PublishStage::Marking, PublishAction::WriteMarker),
        (PublishStage::Releasing(code), PublishEvent::LockReleased) => (
            PublishStage::Ended(code),
            PublishAction::Exit(code),
        ),
        (PublishStage::Releasing(code), _) => (
            PublishStage::Releasing(code),
            PublishAction::ReleaseLock,
        ),
        (PublishStage::Ended(code), _) => (PublishStage::Ended(code), PublishAction::Exit(code)),
    }
}

// ---------------------------------------------------------------------------------------------
// Laws
// ---------------------------------------------------------------------------------------------
/// The stage that a publish is in after some events.
pub open spec fn stage_after(events: Seq<PublishEvent>) -> PublishStage
    decreases events.len(),
{
    if events.len() == 0 {
        PublishStage::Locking
    } else {
        publish_next(stage_after(events.drop_last()), events.last()).0
    }
}

/// Whether an event came, and before it the publish was in a given stage.
pub open spec fn came_in(
    events: Seq<PublishEvent>,
    stage: spec_fn(PublishStage) -> bool,
    event: spec_fn(PublishEvent) -> bool,
) -> bool {
    exists|k: int|
        0 <= k < events.len() && stage(stage_after(#[trigger] events.take(k))) && event(events[k])
}

proof fn lemma_came_in_longer(
    events: Seq<PublishEvent>,
    stage: spec_fn(PublishStage) -> bool,
    event: spec_fn(PublishEvent) -> bool,
)
    requires
        events.len() > 0,
    ensures
        came_in(events.drop_last(), stage, event) ==> came_in(events, stage, event),
        stage(stage_after(events.drop_last())) && event(events.last()) ==> came_in(
            events,
            stage,
            event,
        ),
{
    let shorter = events.drop_last();
    if came_in(shorter, stage, event) {
        let k = choose|k: int|
            0 <= k < shorter.len() && stage(stage_after(#[trigger] shorter.take(k))) && event(
                shorter[k],
            );
        assert(shorter.take(k) =~= events.take(k));
    }
}

/// Whether the lock was asked for and taken.
pub open spec fn lock_was_taken(events: Seq<PublishEvent>) -> bool {
    came_in(
        events,
        |s: PublishStage| s is Locking,
        |e: PublishEvent| e is LockTaken,
    )
}

/// Whether the command ran to success, with no refresh failed.
pub open spec fn command_succeeded(events: Seq<PublishEvent>) -> bool {
    came_in(
        events,
        |s: PublishStage| s is Running,
        |e: PublishEvent| e == PublishEvent::CommandEnded(CommandStatus::Succeeded, false),
    )
}

/// Whether the marker was written.
pub open spec fn marker_was_written(events: Seq<PublishEvent>) -> bool {
    came_in(
        events,
        |s: PublishStage| s is Marking,
        |e: PublishEvent| e is MarkerWritten,
    )
}

/// Whether the lock was given back.
pub open spec fn lock_was_released(events: Seq<PublishEvent>) -> bool {
    came_in(
        events,
        |s: PublishStage| s is Releasing,
        |e: PublishEvent| e is LockReleased,
    )
}

/// Whether a command failed, with the exit code of success.
pub open spec fn fails_with_zero(event: PublishEvent) -> bool {
    event matches PublishEvent::CommandEnded(CommandStatus::Failed(Some(code)), lost) && code == 0
}

/// Whether no command that failed has the exit code of success.
pub open spec fn failures_have_codes(events: Seq<PublishEvent>) -> bool {
    forall|k: int| 0 <= k < events.len() ==> !fails_with_zero(#[trigger] events[k])
}

/// What holds of every publish, whatever happens to it: the command runs only under the lock; the
/// marker is written only after the command succeeded, with the lock kept fresh; a publish ends
/// only once a lock that it took is given back; and it ends in success only if the marker is
/// written.
pub proof fn a_publish_is_safe(events: Seq<PublishEvent>)
    requires
        failures_have_codes(events),
    ensures
        ({
            let stage = stage_after(events);
            &&& stage is Locking ==> !lock_was_taken(events)
            &&& stage is Running ==> lock_was_taken(events)
            &&& stage is Marking ==> lock_was_taken(events) && command_succeeded(events)
            &&& stage is Releasing ==> lock_was_taken(events)
            &&& stage == PublishStage::Releasing(SUCCESS) ==> command_succeeded(events)
                && marker_was_written(events)
            &&& stage is Ended && lock_was_taken(events) ==> lock_was_released(events)
            &&& stage == PublishStage::Ended(SUCCESS) ==> lock_was_taken(events)
                && command_succeeded(events) && marker_was_written(events) && lock_was_released(
                events,
            )
        }),
    decreases events.len(),
{
    if events.len() > 0 {
        let shorter = events.drop_last();
        assert(failures_have_codes(shorter));
        a_publish_is_safe(shorter);
        lemma_came_in_longer(
            events,
            |s: PublishStage| s is Locking,
            |e: PublishEvent| e is LockTaken,
        );
        lemma_came_in_longer(
            events,
            |s: PublishStage| s is Running,
            |e: PublishEvent| e == PublishEvent::CommandEnded(CommandStatus::Succeeded, false),
        );
        lemma_came_in_longer(
            events,
            |s: PublishStage| s is Marking,
            |e: PublishEvent| e is MarkerWritten,
        );
        lemma_came_in_longer(
            events,
            |s: PublishStage| s is Releasing,
            |e: PublishEvent| e is LockReleased,
        );
        if lock_was_taken(events) && !lock_was_taken(shorter) {
            let k = choose|k: int|
                0 <= k < events.len() && stage_after(#[trigger] events.take(k)) is Locking
                    && events[k] is LockTaken;
            if k < shorter.len() {
                assert(events.take(k) =~= shorter.take(k));
            }
        }
    }
}

/// A publish in which everything goes well takes the lock, runs the command, writes the marker,
/// gives the lock back, and succeeds.
pub proof fn a_publish_that_goes_well_succeeds()
    ensures
        ({
            let (s1, a1) = publish_next(PublishStage::Locking, PublishEvent::LockTaken);
            let (s2, a2) = publish_next(
                s1,
                PublishEvent::CommandEnded(CommandStatus::Succeeded, false),
            );
            let (s3, a3) = publish_next(s2, PublishEvent::MarkerWritten);
            let (s4, a4) = publish_next(s3, PublishEvent::LockReleased);
            &&& a1 == PublishAction::RunCommand
            &&& a2 == PublishAction::WriteMarker
            &&& a3 == PublishAction::ReleaseLock
            &&& a4 == PublishAction::Exit(0)
        }),
{
}

/// A command that fails has its exit code passed on where it fits into a byte, and one stands for
/// any other. No marker is written, and the lock is given back first.
pub proof fn a_failed_command_has_its_code_passed_on(code: Option<i32>)
    ensures
        ({
            let (s1, a1) = publish_next(
                PublishStage::Running,
                PublishEvent::CommandEnded(CommandStatus::Failed(code), false),
            );
            let (s2, a2) = publish_next(s1, PublishEvent::LockReleased);
            &&& a1 == PublishAction::ReleaseLock
            &&& a2 matches PublishAction::Exit(c) && match code {
                Some(n) => if 0 <= n < 256 {
                    c as int == n as int
                } else {
                    c == 1
                },
                None => c == 1,
            }
        }),
{
}

/// A publish that is refused the lock ends at once, and does not run the command. One whose lock was
/// lost, however the command ended, one whose command could not be run, and one whose marker could
/// not be written give the lock back and fail with one.
pub proof fn a_publish_that_goes_wrong_fails(status: CommandStatus)
    ensures
        publish_next(PublishStage::Locking, PublishEvent::LockRefused).1 == PublishAction::Exit(1),
        ({
            let (s1, a1) = publish_next(
                PublishStage::Running,
                PublishEvent::CommandEnded(status, true),
            );
            let (s2, a2) = publish_next(
                PublishStage::Running,
                PublishEvent::CommandEnded(CommandStatus::NotRun, false),
            );
            let (s3, a3) = publish_next(PublishStage::Marking, PublishEvent::MarkerFailed);
            &&& a1 == PublishAction::ReleaseLock
            &&& a2 == PublishAction::ReleaseLock
            &&& a3 == PublishAction::ReleaseLock
            &&& publish_next(s1, PublishEvent::LockReleased).1 == PublishAction::Exit(1)
            &&& publish_next(s2, PublishEvent::LockReleased).1 == PublishAction::Exit(1)
            &&& publish_next(s3, PublishEvent::LockReleased).1 == PublishAction::Exit(1)
        }),
{
}

/// News that a publish does not wait for change nothing, and a publish that has ended stays so.
pub proof fn a_publish_waits_for_its_answer(stage: PublishStage, event: PublishEvent)
    requires
        match stage {
            PublishStage::Locking => !(event is LockTaken || event is LockRefused),
            PublishStage::Running => !(event is CommandEnded),
            PublishStage::Marking => !(event is MarkerWritten || event is MarkerFailed),
            PublishStage::Releasing(_) => !(event is LockReleased),
            PublishStage::Ended(_) => true,
        },
    ensures
        publish_next(stage, event).0 == stage,
        publish_next(stage, event).1 == match stage {
            PublishStage::Locking => PublishAction::TakeLock,
            PublishStage::Running => PublishAction::RunCommand,
            PublishStage::Marking => PublishAction::WriteMarker,
            PublishStage::Releasing(_) => PublishAction::ReleaseLock,
            PublishStage::Ended(code) => PublishAction::Exit(code),
        },
{
}

} // verus!
