//! Ghost model of the calls a system receives or forwards.
//!
//! Every system in this crate exposes, through [`crate::system::System`],
//! a ghost log: the sequence of calls delivered to it so far.  The
//! contracts of the concrete systems are stated as exact extensions of
//! these logs, so "forwards exactly one call" is a provable statement.

use vstd::prelude::*;

verus! {

/// One call delivered to a system, as it appears in a ghost log.
/// Lifecycle events name the entity they concern by its identifier;
/// periodic-work events record what was handed to the callee.
pub enum Event {
    /// An `activated` notification for the entity with this identifier.
    Activated(u64),
    /// A `reactivated` notification for the entity with this identifier.
    Reactivated(u64),
    /// A `deactivated` notification for the entity with this identifier.
    Deactivated(u64),
    /// One whole-world `process` call.
    Processed,
    /// A per-entity `process` call for the entity with this identifier.
    EntityProcessed(u64),
    /// A bulk `process` call handed this snapshot of entity identifiers.
    BulkProcessed(Seq<u64>),
}

/// How many whole-world `process` calls a log holds.
pub open spec fn processed_count(log: Seq<Event>) -> nat
    decreases log.len(),
{
    if log.len() == 0 {
        0
    } else {
        processed_count(log.drop_last()) + if log.last() is Processed {
            1nat
        } else {
            0nat
        }
    }
}

/// The subsequence of lifecycle notifications in a log, in order.
pub open spec fn lifecycle_of(log: Seq<Event>) -> Seq<Event>
    decreases log.len(),
{
    if log.len() == 0 {
        Seq::empty()
    } else if log.last() is Activated || log.last() is Reactivated || log.last()
        is Deactivated {
        lifecycle_of(log.drop_last()).push(log.last())
    } else {
        lifecycle_of(log.drop_last())
    }
}

/// Whether an event is a lifecycle notification for this entity.
pub open spec fn concerns(ev: Event, id: u64) -> bool {
    ||| ev == Event::Activated(id)
    ||| ev == Event::Reactivated(id)
    ||| ev == Event::Deactivated(id)
}

/// Appending an event changes `processed_count` by one exactly when the
/// event is a whole-world `process` call.
pub proof fn lemma_processed_count_push(log: Seq<Event>, ev: Event)
    ensures
        processed_count(log.push(ev)) == processed_count(log) + if ev is Processed {
            1nat
        } else {
            0nat
        },
{
    assert(log.push(ev).drop_last() =~= log);
}

/// Appending a lifecycle notification appends it to the lifecycle view of
/// the log; appending any other event leaves that view unchanged.
pub proof fn lemma_lifecycle_of_push(log: Seq<Event>, ev: Event)
    ensures
        lifecycle_of(log.push(ev)) == if ev is Activated || ev is Reactivated || ev
            is Deactivated {
            lifecycle_of(log).push(ev)
        } else {
            lifecycle_of(log)
        },
{
    assert(log.push(ev).drop_last() =~= log);
}

} // verus!
