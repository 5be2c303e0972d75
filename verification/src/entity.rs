//! Entity handles.

use vstd::prelude::*;

verus! {

/// An opaque, copyable identifier for a simulated object, unique within a
/// world at any point in time.  It carries no component data: the world
/// remains the sole owner of authoritative state.
#[derive(Clone, Copy, PartialEq, Eq, Structural)]
pub struct Entity {
    /// The numeric identifier, usable as an ordered key.
    pub id: u64,
}

/// The identifiers of a sequence of entities, in order.
pub open spec fn ids_of(s: Seq<Entity>) -> Seq<u64> {
    s.map_values(|e: Entity| e.id)
}

impl Entity {
    /// Wrap a raw identifier in an entity handle.
    pub fn new(id: u64) -> (r: Entity)
        ensures
            r.id == id,
    {
        Entity { id }
    }
}

} // verus!
