//! A strategy that records every call forwarded to it.

use core::marker::PhantomData;

use vstd::prelude::*;

use crate::entity::{ids_of, Entity};
use crate::entitysystem::{BulkEntityProcess, EntityProcess};
use crate::events::Event;
use crate::system::{Process, System};

verus! {

/// One call as recorded by a [`Recorder`], observable from executable
/// code.
pub enum CallRecord {
    /// An `activated` notification for this entity identifier.
    Activated(u64),
    /// A `reactivated` notification for this entity identifier.
    Reactivated(u64),
    /// A `deactivated` notification for this entity identifier.
    Deactivated(u64),
    /// One whole-world `process` call.
    Processed,
    /// A per-entity `process` call for this entity identifier.
    EntityProcessed(u64),
    /// A bulk `process` call handed this snapshot of identifiers.
    BulkProcessed(Vec<u64>),
}

impl CallRecord {
    /// The ghost event this record stands for.
    pub open spec fn as_event(self) -> Event {
        match self {
            CallRecord::Activated(e) => Event::Activated(e),
            CallRecord::Reactivated(e) => Event::Reactivated(e),
            CallRecord::Deactivated(e) => Event::Deactivated(e),
            CallRecord::Processed => Event::Processed,
            CallRecord::EntityProcessed(e) => Event::EntityProcessed(e),
            CallRecord::BulkProcessed(v) => Event::BulkProcessed(v@),
        }
    }
}

/// The events a sequence of records stands for.
pub open spec fn events_of(records: Seq<CallRecord>) -> Seq<Event> {
    records.map_values(|c: CallRecord| c.as_event())
}

/// A strategy that does nothing but record, in order, every call
/// forwarded to it.  It implements every strategy interface of this
/// crate, so it can sit under an entity system, a bulk entity system or
/// an interval system, and its record shows exactly which calls arrived.
pub struct Recorder<W, C> {
    calls: Vec<CallRecord>,
    world: PhantomData<W>,
    ctx: PhantomData<C>,
}

impl<W, C> Recorder<W, C> {
    /// A fresh recorder with an empty record.
    pub fn new() -> (r: Recorder<W, C>)
        ensures
            r.inv(),
            r.log() == Seq::<Event>::empty(),
    {
        let r = Recorder { calls: Vec::new(), world: PhantomData, ctx: PhantomData };
        proof {
            assert(events_of(r.calls@) =~= Seq::<Event>::empty());
        }
        r
    }

    /// The calls received so far, oldest first.
    pub fn calls(&self) -> (r: &Vec<CallRecord>)
        ensures
            events_of(r@) == self.log(),
    {
        &self.calls
    }

    /// Record one call; every hook ends in this.
    fn record(&mut self, c: CallRecord)
        ensures
            final(self).calls@ == old(self).calls@.push(c),
            final(self).log() == old(self).log().push(c.as_event()),
    {
        let ghost pre = self.calls@;
        self.calls.push(c);
        proof {
            assert(events_of(pre.push(c)) =~= events_of(pre).push(c.as_event()));
        }
    }
}

impl<W, C> System for Recorder<W, C> {
    type World = W;

    type Ctx = C;

    open spec fn inv(&self) -> bool {
        true
    }

    closed spec fn log(&self) -> Seq<Event> {
        events_of(self.calls@)
    }

    fn activated(&mut self, e: &Entity, w: &W) {
        self.record(CallRecord::Activated(e.id));
    }

    fn reactivated(&mut self, e: &Entity, w: &W) {
        self.record(CallRecord::Reactivated(e.id));
    }

    fn deactivated(&mut self, e: &Entity, w: &W) {
        self.record(CallRecord::Deactivated(e.id));
    }
}

impl<W, C> Process for Recorder<W, C> {
    open spec fn active(&self) -> bool {
        true
    }

    fn process(&mut self, c: &mut C) {
        self.record(CallRecord::Processed);
    }

    fn is_active(&self) -> (r: bool) {
        true
    }
}

impl<W, C> EntityProcess for Recorder<W, C> {
    fn process(&mut self, e: &Entity, c: &mut C) {
        self.record(CallRecord::EntityProcessed(e.id));
    }
}

impl<W, C> BulkEntityProcess for Recorder<W, C> {
    fn process(&mut self, es: &Vec<Entity>, c: &mut C) {
        let mut ids: Vec<u64> = Vec::new();
        let mut i: usize = 0;
        while i < es.len()
            invariant
                0 <= i <= es@.len(),
                ids@ == ids_of(es@).take(i as int),
            decreases es@.len() - i,
        {
            ids.push(es[i].id);
            proof {
                assert(ids@ =~= ids_of(es@).take(i as int + 1));
            }
            i = i + 1;
        }
        proof {
            assert(ids@ =~= ids_of(es@));
        }
        self.record(CallRecord::BulkProcessed(ids));
    }
}

} // verus!
