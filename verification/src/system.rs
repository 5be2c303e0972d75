//! Capability interfaces for systems.
//!
//! A [`System`] reacts to entity lifecycle transitions; a [`Process`]
//! additionally performs periodic work once per world update.  Both are
//! schema-parameterized: the associated `World` and `Ctx` types tie a
//! system to the world that drives it, so a system can never be attached
//! to an incompatible world.
//!
//! Every implementation maintains a ghost log of the calls delivered to
//! it (see [`crate::events::Event`]); the method contracts state that
//! each call appends exactly its own event.  An implementation is free to
//! realize `reactivated` as `deactivated` followed by `activated`
//! internally, but at this interface a reactivation is one notification
//! and is logged as one event.

use vstd::prelude::*;

use crate::entity::Entity;
use crate::events::Event;

verus! {

/// A unit of behavior with lifecycle hooks reacting to entities entering
/// and leaving interest.
pub trait System: Sized {
    /// The world type whose component composition drives this system.
    type World;

    /// The opaque context handed through periodic work; never inspected
    /// by this crate.
    type Ctx;

    /// Well-formedness of the system's own state; established by
    /// constructors and preserved by every call.
    spec fn inv(&self) -> bool;

    /// The ghost log of calls this system has received so far.
    spec fn log(&self) -> Seq<Event>;

    /// Called when an entity is activated in the world.
    fn activated(&mut self, e: &Entity, w: &Self::World)
        requires
            old(self).inv(),
        ensures
            final(self).inv(),
            final(self).log() == old(self).log().push(Event::Activated(e.id)),
    ;

    /// Called when an activated entity's component composition changed.
    fn reactivated(&mut self, e: &Entity, w: &Self::World)
        requires
            old(self).inv(),
        ensures
            final(self).inv(),
            final(self).log() == old(self).log().push(Event::Reactivated(e.id)),
    ;

    /// Called when an entity is deactivated in the world.
    fn deactivated(&mut self, e: &Entity, w: &Self::World)
        requires
            old(self).inv(),
        ensures
            final(self).inv(),
            final(self).log() == old(self).log().push(Event::Deactivated(e.id)),
    ;
}

/// A [`System`] that additionally performs periodic work once per world
/// update.
pub trait Process: System {
    /// Whether the scheduler should currently invoke `process` at all.
    spec fn active(&self) -> bool;

    /// Perform one update cycle's work.
    fn process(&mut self, c: &mut Self::Ctx)
        requires
            old(self).inv(),
        ensures
            final(self).inv(),
            final(self).log() == old(self).log().push(Event::Processed),
    ;

    /// Query used by the external scheduler to skip disabled systems.
    fn is_active(&self) -> (r: bool)
        ensures
            r == self.active(),
    ;
}

} // verus!
