//! Interest predicates over an entity's component composition.

use vstd::prelude::*;

use crate::entity::Entity;

verus! {

/// A pure predicate, evaluated per entity against the world's current
/// component composition, that decides whether a system is interested in
/// the entity.  `check` is deterministic and side-effect free: its result
/// is pinned to the spec-level `matches`, so the same aspect may be
/// shared or re-evaluated any number of times.
pub trait Aspect: Sized {
    /// The world type this aspect inspects.
    type World;

    /// What the predicate means, at the specification level.
    spec fn matches(&self, e: Entity, w: Self::World) -> bool;

    /// Evaluate the predicate against the world's current state.
    fn check(&self, e: &Entity, w: &Self::World) -> (r: bool)
        ensures
            r == self.matches(*e, *w),
    ;
}

/// A minimal world model for aspects that key off component membership:
/// the set of (entity identifier, component identifier) pairs currently
/// attached.  Real worlds own richer storage; an aspect only needs this
/// view of it.
pub struct ComponentTable {
    /// Each pair records that the entity holds the component.
    pub pairs: Vec<(u64, u64)>,
}

impl ComponentTable {
    /// Whether the entity with identifier `eid` currently holds the
    /// component with identifier `cid`.
    pub open spec fn has(&self, eid: u64, cid: u64) -> bool {
        exists|i: int| 0 <= i < self.pairs@.len() && self.pairs@[i] == (eid, cid)
    }

    /// An empty table: no entity holds any component.
    pub fn new() -> (r: ComponentTable)
        ensures
            forall|eid: u64, cid: u64| !r.has(eid, cid),
    {
        ComponentTable { pairs: Vec::new() }
    }

    /// Attach component `cid` to the entity with identifier `eid`.
    pub fn attach(&mut self, eid: u64, cid: u64)
        ensures
            final(self).has(eid, cid),
            forall|e2: u64, c2: u64|
                final(self).has(e2, c2) == (old(self).has(e2, c2) || (e2 == eid && c2 == cid)),
    {
        self.pairs.push((eid, cid));
        proof {
            assert forall|e2: u64, c2: u64|
                final(self).has(e2, c2) == (old(self).has(e2, c2) || (e2 == eid && c2
                    == cid)) by {
                if old(self).has(e2, c2) {
                    let i = choose|i: int|
                        0 <= i < old(self).pairs@.len() && old(self).pairs@[i] == (e2, c2);
                    assert(self.pairs@[i] == (e2, c2));
                }
                if e2 == eid && c2 == cid {
                    assert(self.pairs@[self.pairs@.len() - 1] == (e2, c2));
                }
                if self.has(e2, c2) {
                    let i = choose|i: int|
                        0 <= i < self.pairs@.len() && self.pairs@[i] == (e2, c2);
                    if i < old(self).pairs@.len() {
                        assert(old(self).pairs@[i] == (e2, c2));
                    }
                }
            }
        }
    }
}

/// An aspect interested in exactly the entities that hold one required
/// component.
pub struct RequiresComponent {
    /// The identifier of the required component.
    pub component: u64,
}

impl Aspect for RequiresComponent {
    type World = ComponentTable;

    open spec fn matches(&self, e: Entity, w: ComponentTable) -> bool {
        w.has(e.id, self.component)
    }

    fn check(&self, e: &Entity, w: &ComponentTable) -> (r: bool) {
        let mut i: usize = 0;
        while i < w.pairs.len()
            invariant
                0 <= i <= w.pairs.len(),
                forall|j: int| 0 <= j < i ==> w.pairs@[j] != (e.id, self.component),
            decreases w.pairs.len() - i,
        {
            let (pe, pc) = w.pairs[i];
            if pe == e.id && pc == self.component {
                return true;
            }
            i = i + 1;
        }
        false
    }
}

} // verus!
