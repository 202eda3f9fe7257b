//! Why the lock protocol works: while a pruner holds its lock, nobody else holds one.
//!
//! Everybody who takes part writes a lock file, then lists the lock directory, and goes on only if
//! the listing shows nothing that stands against it. The argument rests on two things: a listing
//! shows every lock that is in place when it is made, and a lock that is in place is refreshed
//! before it goes stale.

use crate::lock;
use crate::lock::{AcquireNews, AcquireStage, AcquireView, LockView};
use crate::path;
use crate::writer;
use crate::writer::TakeStage;
use vstd::prelude::*;

verus! {

/// How far somebody is.
#[verifier::ext_equal]
pub enum PartyStage {
    /// Its lock is not in place.
    Out,
    /// Its lock is in place, but it has not seen a listing since.
    Claimed,
    /// Its lock is in place, and the listing that it made then was clear.
    Inside,
}

/// Somebody who takes part in the protocol.
#[verifier::ext_equal]
pub struct Party {
    pub lock: Seq<u8>,
    pub prunes: bool,
    pub stage: PartyStage,
}

/// Whether everybody has a lock of their own, and pruners are known by the names of theirs.
pub open spec fn well_named(parties: Seq<Party>) -> bool {
    &&& forall|i: int, j: int|
        0 <= i < parties.len() && 0 <= j < parties.len() && i != j ==> !path::same_path(
            (#[trigger] parties[i]).lock,
            (#[trigger] parties[j]).lock,
        )
    &&& forall|i: int|
        0 <= i < parties.len() && (#[trigger] parties[i]).prunes ==> writer::is_prune_lock(
            parties[i].lock,
        )
}

/// Whether a listing shows every lock that is in place, and none of them as stale.
pub open spec fn shows(listing: Seq<LockView>, parties: Seq<Party>) -> bool {
    forall|i: int|
        0 <= i < parties.len() && !((#[trigger] parties[i]).stage is Out) ==> exists|k: int|
            0 <= k < listing.len() && (#[trigger] listing[k]).name == parties[i].lock
                && listing[k].age <= lock::STALE_AFTER
}

/// Whether a listing lets somebody in: nobody else may hold a fresh lock where a pruner enters, and
/// no pruner where a writer does.
pub open spec fn lets_in(party: Party, listing: Seq<LockView>) -> bool {
    if party.prunes {
        lock::fresh_locks(listing, party.lock).len() == 0
    } else {
        !writer::has_fresh_prune_lock(listing)
    }
}

/// What somebody may do: nothing, write the lock, enter after a listing that lets it in, or remove
/// the lock.
pub open spec fn moves(from: Party, to: PartyStage, listing: Seq<LockView>) -> bool {
    ||| from.stage == to
    ||| from.stage is Out && to is Claimed
    ||| from.stage is Claimed && to is Inside && lets_in(from, listing)
    ||| to is Out
}

/// One of the parties makes a move.
pub open spec fn protocol_step(
    before: Seq<Party>,
    after: Seq<Party>,
    i: int,
    listing: Seq<LockView>,
) -> bool {
    &&& 0 <= i < before.len()
    &&& shows(listing, before)
    &&& moves(before[i], after[i].stage, listing)
    &&& after == before.update(i, Party { stage: after[i].stage, ..before[i] })
}

/// While a pruner is inside, nobody else is.
pub open spec fn exclusive(parties: Seq<Party>) -> bool {
    forall|i: int, j: int|
        0 <= i < parties.len() && 0 <= j < parties.len() && i != j && (
        #[trigger] parties[i]).stage is Inside && (#[trigger] parties[j]).stage is Inside
            ==> !parties[i].prunes && !parties[j].prunes
}

/// No move lets somebody in next to a pruner, nor a pruner in next to anybody.
pub proof fn every_step_keeps_the_prune_alone(
    before: Seq<Party>,
    after: Seq<Party>,
    i: int,
    listing: Seq<LockView>,
)
    requires
        well_named(before),
        exclusive(before),
        protocol_step(before, after, i, listing),
    ensures
        well_named(after),
        exclusive(after),
{
    let mover = before[i];
    if mover.stage is Claimed && after[i].stage is Inside {
        assert forall|j: int|
            0 <= j < before.len() && j != i && (#[trigger] before[j]).stage is Inside implies
            !before[j].prunes && !mover.prunes by {
            lemma_seen(before, i, j, listing);
        }
    }
}

/// A listing that shows the lock of another does not let somebody in, unless both are writers.
proof fn lemma_seen(parties: Seq<Party>, i: int, j: int, listing: Seq<LockView>)
    requires
        well_named(parties),
        shows(listing, parties),
        0 <= i < parties.len(),
        0 <= j < parties.len(),
        i != j,
        !(parties[j].stage is Out),
        lets_in(parties[i], listing),
    ensures
        !parties[i].prunes,
        !parties[j].prunes,
{
    if parties[i].prunes {
        lock::only_fresh_foreign_locks_block(listing, parties[i].lock, parties[j].lock);
    }
}

/// Whether states follow on each other by moves of the parties.
pub open spec fn is_history(
    states: Seq<Seq<Party>>,
    movers: Seq<int>,
    listings: Seq<Seq<LockView>>,
) -> bool {
    &&& movers.len() == states.len()
    &&& listings.len() == states.len()
    &&& forall|t: int|
        0 <= t < states.len() - 1 ==> protocol_step(
            #[trigger] states[t],
            states[t + 1],
            movers[t],
            listings[t],
        )
}

/// Whoever follows the protocol from the beginning, in whatever order: a pruner that is inside is
/// inside alone, at any time.
pub proof fn a_prune_is_always_alone(
    states: Seq<Seq<Party>>,
    movers: Seq<int>,
    listings: Seq<Seq<LockView>>,
    t: int,
)
    requires
        0 <= t < states.len(),
        is_history(states, movers, listings),
        well_named(states[0]),
        forall|i: int| 0 <= i < states[0].len() ==> (#[trigger] states[0][i]).stage is Out,
    ensures
        exclusive(states[t]),
        well_named(states[t]),
    decreases t,
{
    if t > 0 {
        a_prune_is_always_alone(states, movers, listings, t - 1);
        every_step_keeps_the_prune_alone(
            states[t - 1],
            states[t],
            movers[t - 1],
            listings[t - 1],
        );
    }
}

/// How far a pruner is.
pub open spec fn pruner_stage(stage: AcquireStage) -> PartyStage {
    match stage {
        AcquireStage::Rechecking => PartyStage::Claimed,
        AcquireStage::Retreating => PartyStage::Claimed,
        AcquireStage::Ended(true) => PartyStage::Inside,
        _ => PartyStage::Out,
    }
}

/// How far a writer is.
pub open spec fn writer_stage(stage: TakeStage) -> PartyStage {
    match stage {
        TakeStage::Rechecking => PartyStage::Claimed,
        TakeStage::Removing => PartyStage::Claimed,
        TakeStage::Ended(true) => PartyStage::Inside,
        _ => PartyStage::Out,
    }
}

/// The listing that came in, if one did.
pub open spec fn listing_in<E>(news: AcquireNews<E>) -> Seq<LockView> {
    match news {
        AcquireNews::Locks(locks) => locks,
        _ => Seq::empty(),
    }
}

/// Whatever a pruner does to take its lock follows the protocol.
pub proof fn a_pruner_follows_the_protocol<E>(st: AcquireView, news: AcquireNews<E>)
    requires
        !(st.stage is Ended),
    ensures
        moves(
            Party { lock: st.path, prunes: true, stage: pruner_stage(st.stage) },
            pruner_stage(lock::acquire_next(st, news).0),
            listing_in(news),
        ),
{
}

/// Whatever a writer does to take its lock follows the protocol, unless it cannot list the locks
/// when it rechecks: it goes on then as if there were none.
pub proof fn a_writer_follows_the_protocol<E>(
    lock: Seq<u8>,
    stage: TakeStage,
    news: AcquireNews<E>,
)
    requires
        !(stage is Ended),
        !(stage is Rechecking && news is Failed),
    ensures
        moves(
            Party { lock, prunes: false, stage: writer_stage(stage) },
            writer_stage(writer::take_next(stage, news).0),
            listing_in(news),
        ),
{
}

} // verus!
