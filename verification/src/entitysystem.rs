//! Systems that maintain a per-aspect interest set over entities and
//! dispatch to a user strategy, one entity at a time or in bulk.
//!
//! Both systems share one lifecycle protocol, written down once as the
//! spec functions [`step_interest`] (how a notification changes the
//! interest set) and [`step_forwards`] (which calls it forwards to the
//! strategy).  The method contracts state that each hook performs exactly
//! that step; the lemmas at the end of the module prove the protocol's
//! laws over arbitrary call sequences.

use vstd::prelude::*;

use crate::aspect::Aspect;
use crate::entity::{ids_of, Entity};
use crate::events::{concerns, Event};
use crate::system::{Process, System};

verus! {

/// A user strategy dispatched once per interested entity per update.  It
/// is a [`System`] too: the owning entity system forwards filtered
/// lifecycle notifications to it.
pub trait EntityProcess: System {
    /// Process one interested entity.
    fn process(&mut self, e: &Entity, c: &mut Self::Ctx)
        requires
            old(self).inv(),
        ensures
            final(self).inv(),
            final(self).log() == old(self).log().push(Event::EntityProcessed(e.id)),
    ;
}

/// A user strategy dispatched exactly once per update with the entire
/// current membership, empty or not.  It is a [`System`] too.
pub trait BulkEntityProcess: System {
    /// Process one snapshot of all currently interested entities.
    fn process(&mut self, es: &Vec<Entity>, c: &mut Self::Ctx)
        requires
            old(self).inv(),
        ensures
            final(self).inv(),
            final(self).log() == old(self).log().push(Event::BulkProcessed(ids_of(es@))),
    ;
}

/// Strictly ascending identifiers: the interest set's iteration order.
pub open spec fn sorted_strict(ids: Seq<u64>) -> bool {
    forall|i: int, j: int| 0 <= i < j < ids.len() ==> ids[i] < ids[j]
}

/// The set of identifiers a sequence holds.
pub open spec fn id_set(ids: Seq<u64>) -> Set<u64> {
    Set::new(|x: u64| ids.contains(x))
}

/// The per-entity `process` calls forwarded for one pass over a
/// membership, in order.
pub open spec fn entity_processed_events(ids: Seq<u64>) -> Seq<Event> {
    ids.map_values(|id: u64| Event::EntityProcessed(id))
}

/// One lifecycle notification delivered to an entity system, together
/// with the verdict its aspect returned for the entity on that call
/// (deactivation consults no aspect).
pub enum LifecycleCall {
    /// `activated` for this entity; the aspect returned this verdict.
    Activated(u64, bool),
    /// `reactivated` for this entity; the aspect returned this verdict.
    Reactivated(u64, bool),
    /// `deactivated` for this entity.
    Deactivated(u64),
}

/// How one lifecycle notification changes the interest set.
pub open spec fn step_interest(s: Set<u64>, c: LifecycleCall) -> Set<u64> {
    match c {
        LifecycleCall::Activated(e, m) => if m {
            s.insert(e)
        } else {
            s
        },
        LifecycleCall::Reactivated(e, m) => if s.contains(e) {
            if m {
                s
            } else {
                s.remove(e)
            }
        } else {
            if m {
                s.insert(e)
            } else {
                s
            }
        },
        LifecycleCall::Deactivated(e) => s.remove(e),
    }
}

/// Which calls one lifecycle notification forwards to the strategy,
/// given the interest set before the notification.
pub open spec fn step_forwards(s: Set<u64>, c: LifecycleCall) -> Seq<Event> {
    match c {
        LifecycleCall::Activated(e, m) => if m {
            seq![Event::Activated(e)]
        } else {
            Seq::empty()
        },
        LifecycleCall::Reactivated(e, m) => if s.contains(e) {
            if m {
                seq![Event::Reactivated(e)]
            } else {
                seq![Event::Deactivated(e)]
            }
        } else {
            if m {
                seq![Event::Activated(e)]
            } else {
                Seq::empty()
            }
        },
        LifecycleCall::Deactivated(e) => if s.contains(e) {
            seq![Event::Deactivated(e)]
        } else {
            Seq::empty()
        },
    }
}

/// The interest set a sequence of lifecycle notifications leaves behind,
/// starting from `s`.
pub open spec fn run_interest(s: Set<u64>, calls: Seq<LifecycleCall>) -> Set<u64>
    decreases calls.len(),
{
    if calls.len() == 0 {
        s
    } else {
        step_interest(run_interest(s, calls.drop_last()), calls.last())
    }
}

/// Every call a sequence of lifecycle notifications forwards to the
/// strategy, in order, starting from interest set `s`.
pub open spec fn run_forwards(s: Set<u64>, calls: Seq<LifecycleCall>) -> Seq<Event>
    decreases calls.len(),
{
    if calls.len() == 0 {
        Seq::empty()
    } else {
        run_forwards(s, calls.drop_last()) + step_forwards(
            run_interest(s, calls.drop_last()),
            calls.last(),
        )
    }
}

/// Idempotent deactivation: two consecutive `deactivated` notifications
/// for one entity forward exactly one `deactivated` call when the entity
/// was a member and none otherwise; the second notification changes
/// nothing and forwards nothing.
pub proof fn lemma_deactivation_idempotent(s: Set<u64>, e: u64)
    ensures
        step_interest(
            step_interest(s, LifecycleCall::Deactivated(e)),
            LifecycleCall::Deactivated(e),
        ) == step_interest(s, LifecycleCall::Deactivated(e)),
        step_forwards(
            step_interest(s, LifecycleCall::Deactivated(e)),
            LifecycleCall::Deactivated(e),
        ) == Seq::<Event>::empty(),
        step_forwards(s, LifecycleCall::Deactivated(e)) + step_forwards(
            step_interest(s, LifecycleCall::Deactivated(e)),
            LifecycleCall::Deactivated(e),
        ) == if s.contains(e) {
            seq![Event::Deactivated(e)]
        } else {
            Seq::<Event>::empty()
        },
{
    assert(s.remove(e).remove(e) =~= s.remove(e));
    if s.contains(e) {
        assert(seq![Event::Deactivated(e)] + Seq::<Event>::empty() =~= seq![
            Event::Deactivated(e),
        ]);
    } else {
        assert(Seq::<Event>::empty() + Seq::<Event>::empty() =~= Seq::<Event>::empty());
    }
}

/// Whether an entity ends a run of notifications as a member, going by
/// the protocol's prose: it does exactly when the most recent aspect
/// verdict for it was true and no later explicit deactivation removed
/// it.
pub open spec fn last_verdict(calls: Seq<LifecycleCall>, e: u64) -> bool
    decreases calls.len(),
{
    if calls.len() == 0 {
        false
    } else {
        match calls.last() {
            LifecycleCall::Activated(i, m) => if i == e {
                m
            } else {
                last_verdict(calls.drop_last(), e)
            },
            LifecycleCall::Reactivated(i, m) => if i == e {
                m
            } else {
                last_verdict(calls.drop_last(), e)
            },
            LifecycleCall::Deactivated(i) => if i == e {
                false
            } else {
                last_verdict(calls.drop_last(), e)
            },
        }
    }
}

/// Whether a run never delivers an `activated` notification with a
/// false verdict for an entity that is currently a member.  A driving
/// world activates an entity at most once before deactivating it, so
/// such a call does not arise; an activation that leaves the set
/// untouched despite a false verdict is the one input on which the
/// prose of `last_verdict` would not match the protocol.
pub open spec fn well_driven(s: Set<u64>, calls: Seq<LifecycleCall>) -> bool
    decreases calls.len(),
{
    if calls.len() == 0 {
        true
    } else {
        well_driven(s, calls.drop_last()) && match calls.last() {
            LifecycleCall::Activated(i, m) => m || !run_interest(s, calls.drop_last()).contains(
                i,
            ),
            LifecycleCall::Reactivated(i, m) => true,
            LifecycleCall::Deactivated(i) => true,
        }
    }
}

/// Membership correctness: starting from an empty interest set, after
/// any finite well-driven sequence of lifecycle notifications an entity
/// is a member exactly when the most recent aspect evaluation for it
/// returned true and no later explicit deactivation removed it.
pub proof fn lemma_membership_correctness(calls: Seq<LifecycleCall>, e: u64)
    requires
        well_driven(Set::<u64>::empty(), calls),
    ensures
        run_interest(Set::<u64>::empty(), calls).contains(e) == last_verdict(calls, e),
    decreases calls.len(),
{
    if calls.len() == 0 {
        assert(!Set::<u64>::empty().contains(e));
    } else {
        lemma_membership_correctness(calls.drop_last(), e);
    }
}

/// No spurious notification: if every aspect verdict for an entity is
/// false across a run that starts with the entity outside the interest
/// set, the run forwards no call concerning that entity, and the entity
/// never enters the set.
pub proof fn lemma_no_spurious_notification(s: Set<u64>, calls: Seq<LifecycleCall>, e: u64)
    requires
        !s.contains(e),
        forall|i: int|
            0 <= i < calls.len() ==> match #[trigger] calls[i] {
                LifecycleCall::Activated(j, m) => j == e ==> !m,
                LifecycleCall::Reactivated(j, m) => j == e ==> !m,
                LifecycleCall::Deactivated(j) => true,
            },
    ensures
        !run_interest(s, calls).contains(e),
        forall|k: int|
            0 <= k < run_forwards(s, calls).len() ==> !concerns(
                #[trigger] run_forwards(s, calls)[k],
                e,
            ),
    decreases calls.len(),
{
    if calls.len() == 0 {
    } else {
        let prefix = calls.drop_last();
        assert forall|i: int| 0 <= i < prefix.len() implies match #[trigger] prefix[i] {
            LifecycleCall::Activated(j, m) => j == e ==> !m,
            LifecycleCall::Reactivated(j, m) => j == e ==> !m,
            LifecycleCall::Deactivated(j) => true,
        } by {
            assert(prefix[i] == calls[i]);
        }
        lemma_no_spurious_notification(s, prefix, e);
        let ri = run_interest(s, prefix);
        let c = calls.last();
        let appended = step_forwards(ri, c);
        assert(calls.len() - 1 < calls.len());
        assert forall|k: int| 0 <= k < appended.len() implies !concerns(appended[k], e) by {
            assert(k == 0);
        }
        assert forall|k: int|
            0 <= k < run_forwards(s, calls).len() implies !concerns(
            run_forwards(s, calls)[k],
            e,
        ) by {
            if k < run_forwards(s, prefix).len() {
                assert(run_forwards(s, calls)[k] == run_forwards(s, prefix)[k]);
            } else {
                assert(run_forwards(s, calls)[k] == appended[k - run_forwards(s, prefix).len()]);
            }
        }
    }
}

/// How often an event occurs in a forwarded sequence.
pub open spec fn count_of(evs: Seq<Event>, ev: Event) -> nat
    decreases evs.len(),
{
    if evs.len() == 0 {
        0
    } else {
        count_of(evs.drop_last(), ev) + if evs.last() == ev {
            1nat
        } else {
            0nat
        }
    }
}

/// Per-entity completeness: one processing pass over a well-formed
/// membership forwards exactly one `process` call per member — no
/// duplicates, no omissions — and none for any other entity.
pub proof fn lemma_per_entity_completeness(ids: Seq<u64>, x: u64)
    requires
        sorted_strict(ids),
    ensures
        count_of(entity_processed_events(ids), Event::EntityProcessed(x)) == if id_set(
            ids,
        ).contains(x) {
            1nat
        } else {
            0nat
        },
    decreases ids.len(),
{
    let ev = Event::EntityProcessed(x);
    if ids.len() == 0 {
        assert(entity_processed_events(ids) =~= Seq::<Event>::empty());
    } else {
        let pre = ids.drop_last();
        let last = ids.last();
        assert forall|i: int, j: int| 0 <= i < j < pre.len() implies pre[i] < pre[j] by {
            assert(pre[i] == ids[i]);
            assert(pre[j] == ids[j]);
        }
        lemma_per_entity_completeness(pre, x);
        assert(entity_processed_events(ids) =~= entity_processed_events(pre).push(
            Event::EntityProcessed(last),
        ));
        assert(entity_processed_events(pre).push(Event::EntityProcessed(last)).drop_last()
            =~= entity_processed_events(pre));
        if last == x {
            assert(!pre.contains(x)) by {
                if pre.contains(x) {
                    let k = choose|k: int| 0 <= k < pre.len() && pre[k] == x;
                    assert(ids[k] == x);
                    assert(ids[k] < ids[ids.len() - 1]);
                }
            }
            assert(ids.contains(x)) by {
                assert(ids[ids.len() - 1] == x);
            }
        } else {
            assert(ids.contains(x) == pre.contains(x)) by {
                if ids.contains(x) {
                    let k = choose|k: int| 0 <= k < ids.len() && ids[k] == x;
                    assert(k < ids.len() - 1);
                    assert(pre[k] == x);
                }
                if pre.contains(x) {
                    let k = choose|k: int| 0 <= k < pre.len() && pre[k] == x;
                    assert(ids[k] == x);
                }
            }
        }
    }
}

/// Deterministic iteration: two well-formed interest sets with the same
/// membership iterate in the same order, because strictly sorted
/// identifier sequences over the same identifiers are equal.
pub proof fn lemma_sorted_same_set_equal(a: Seq<u64>, b: Seq<u64>)
    requires
        sorted_strict(a),
        sorted_strict(b),
        id_set(a) == id_set(b),
    ensures
        a == b,
    decreases a.len(),
{
    assert forall|x: u64| a.contains(x) == b.contains(x) by {
        assert(id_set(a).contains(x) == a.contains(x));
        assert(id_set(b).contains(x) == b.contains(x));
        assert(id_set(a).contains(x) == id_set(b).contains(x));
    }
    if a.len() == 0 {
        if b.len() > 0 {
            assert(b.contains(b[0]));
        }
        assert(a =~= b);
    } else {
        if b.len() == 0 {
            assert(a.contains(a[0]));
        }
        assert(b.len() > 0);
        let la = a.last();
        let lb = b.last();
        assert(a.contains(la));
        assert(b.contains(lb));
        assert(la <= lb) by {
            let k = choose|k: int| 0 <= k < b.len() && b[k] == la;
            if k < b.len() - 1 {
                assert(b[k] < b[b.len() - 1]);
            }
        }
        assert(lb <= la) by {
            let k = choose|k: int| 0 <= k < a.len() && a[k] == lb;
            if k < a.len() - 1 {
                assert(a[k] < a[a.len() - 1]);
            }
        }
        let pa = a.drop_last();
        let pb = b.drop_last();
        assert forall|i: int, j: int| 0 <= i < j < pa.len() implies pa[i] < pa[j] by {
            assert(pa[i] == a[i]);
            assert(pa[j] == a[j]);
        }
        assert forall|i: int, j: int| 0 <= i < j < pb.len() implies pb[i] < pb[j] by {
            assert(pb[i] == b[i]);
            assert(pb[j] == b[j]);
        }
        assert forall|x: u64| pa.contains(x) == pb.contains(x) by {
            if pa.contains(x) {
                let k = choose|k: int| 0 <= k < pa.len() && pa[k] == x;
                assert(a[k] == x);
                assert(a[k] < a[a.len() - 1]);
                assert(a.contains(x));
                let k2 = choose|k2: int| 0 <= k2 < b.len() && b[k2] == x;
                assert(k2 < b.len() - 1);
                assert(pb[k2] == x);
                assert(pb.contains(x));
            }
            if pb.contains(x) {
                let k = choose|k: int| 0 <= k < pb.len() && pb[k] == x;
                assert(b[k] == x);
                assert(b[k] < b[b.len() - 1]);
                assert(b.contains(x));
                let k2 = choose|k2: int| 0 <= k2 < a.len() && a[k2] == x;
                assert(k2 < a.len() - 1);
                assert(pa[k2] == x);
                assert(pa.contains(x));
            }
        }
        assert(id_set(pa) =~= id_set(pb));
        lemma_sorted_same_set_equal(pa, pb);
        assert(a =~= pa.push(la));
        assert(b =~= pb.push(lb));
    }
}

/// Find the index holding this identifier, if any.
fn find_index(v: &Vec<Entity>, id: u64) -> (r: Option<usize>)
    ensures
        match r {
            Some(i) => i < v@.len() && v@[i as int].id == id,
            None => !ids_of(v@).contains(id),
        },
{
    let mut i: usize = 0;
    while i < v.len()
        invariant
            0 <= i <= v@.len(),
            forall|j: int| 0 <= j < i ==> v@[j].id != id,
        decreases v@.len() - i,
    {
        if v[i].id == id {
            return Some(i);
        }
        i = i + 1;
    }
    proof {
        assert forall|k: int| 0 <= k < ids_of(v@).len() implies ids_of(v@)[k] != id by {
            assert(v@[k].id != id);
        }
    }
    None
}

/// Insert an entity into a strictly sorted vector, keeping it sorted;
/// inserting an identifier already present leaves the membership as it
/// was.
fn insert_entity(v: &mut Vec<Entity>, e: Entity)
    requires
        sorted_strict(ids_of(old(v)@)),
    ensures
        sorted_strict(ids_of(final(v)@)),
        id_set(ids_of(final(v)@)) == id_set(ids_of(old(v)@)).insert(e.id),
{
    let mut i: usize = 0;
    while i < v.len() && v[i].id < e.id
        invariant
            0 <= i <= v@.len(),
            forall|j: int| 0 <= j < i ==> v@[j].id < e.id,
            *v == *old(v),
        decreases v@.len() - i,
    {
        i = i + 1;
    }
    if i < v.len() && v[i].id == e.id {
        proof {
            assert(ids_of(v@)[i as int] == e.id);
            assert(ids_of(v@).contains(e.id));
            assert(id_set(ids_of(v@)) =~= id_set(ids_of(v@)).insert(e.id));
        }
    } else {
        let ghost pre = v@;
        v.insert(i, e);
        proof {
            pre.insert_ensures(i as int, e);
            assert(ids_of(v@).len() == ids_of(pre).len() + 1);
            assert forall|k: int| 0 <= k < ids_of(v@).len() implies ids_of(v@)[k] == (if k < i {
                ids_of(pre)[k]
            } else if k == i {
                e.id
            } else {
                ids_of(pre)[k - 1]
            }) by {
                if k < i {
                    assert(pre.insert(i as int, e)[k] == pre[k]);
                    assert(ids_of(pre)[k] == pre[k].id);
                } else if k == i {
                    assert(pre.insert(i as int, e)[i as int] == e);
                } else {
                    assert(pre.insert(i as int, e)[(k - 1) + 1] == pre[k - 1]);
                    assert(ids_of(pre)[k - 1] == pre[k - 1].id);
                }
                assert(ids_of(v@)[k] == v@[k].id);
            }
            assert forall|j: int| 0 <= j < i implies ids_of(pre)[j] < e.id by {
                assert(pre[j].id < e.id);
            }
            assert(i < pre.len() ==> ids_of(pre)[i as int] > e.id);
            assert forall|a: int, b: int|
                0 <= a < b < ids_of(v@).len() implies ids_of(v@)[a] < ids_of(v@)[b] by {
                if a < i && b > i {
                    assert(ids_of(pre)[a] < e.id);
                    assert(a < b - 1);
                } else if a == i && b > i {
                    assert(ids_of(pre)[i as int] <= ids_of(pre)[b - 1]);
                }
            }
            assert forall|x: u64|
                ids_of(v@).contains(x) == (ids_of(pre).contains(x) || x == e.id) by {
                if ids_of(pre).contains(x) {
                    let k = choose|k: int| 0 <= k < ids_of(pre).len() && ids_of(pre)[k] == x;
                    if k < i {
                        assert(ids_of(v@)[k] == x);
                    } else {
                        assert(ids_of(v@)[k + 1] == x);
                    }
                    assert(ids_of(v@).contains(x));
                }
                if x == e.id {
                    assert(ids_of(v@)[i as int] == x);
                    assert(ids_of(v@).contains(x));
                }
                if ids_of(v@).contains(x) && x != e.id {
                    let k = choose|k: int| 0 <= k < ids_of(v@).len() && ids_of(v@)[k] == x;
                    if k < i {
                        assert(ids_of(pre)[k] == x);
                    } else {
                        assert(k != i);
                        assert(ids_of(pre)[k - 1] == x);
                    }
                    assert(ids_of(pre).contains(x));
                }
            }
            assert forall|x: u64|
                id_set(ids_of(v@)).contains(x) == id_set(ids_of(pre)).insert(e.id).contains(
                    x,
                ) by {
                assert(ids_of(v@).contains(x) == (ids_of(pre).contains(x) || x == e.id));
            }
            assert(id_set(ids_of(v@)) =~= id_set(ids_of(pre)).insert(e.id));
        }
    }
}

/// Remove the entity at one index of a strictly sorted vector; its
/// identifier leaves the membership.
fn remove_entity(v: &mut Vec<Entity>, i: usize)
    requires
        sorted_strict(ids_of(old(v)@)),
        i < old(v)@.len(),
    ensures
        sorted_strict(ids_of(final(v)@)),
        id_set(ids_of(final(v)@)) == id_set(ids_of(old(v)@)).remove(old(v)@[i as int].id),
{
    let ghost pre = v@;
    let ghost gone = v@[i as int].id;
    v.remove(i);
    proof {
        pre.remove_ensures(i as int);
        assert(ids_of(v@).len() == ids_of(pre).len() - 1);
        assert(gone == ids_of(pre)[i as int]);
        assert forall|k: int| 0 <= k < ids_of(v@).len() implies ids_of(v@)[k] == (if k < i {
            ids_of(pre)[k]
        } else {
            ids_of(pre)[k + 1]
        }) by {
            if k < i {
                assert(pre.remove(i as int)[k] == pre[k]);
                assert(ids_of(pre)[k] == pre[k].id);
            } else {
                assert(pre.remove(i as int)[k] == pre[k + 1]);
                assert(ids_of(pre)[k + 1] == pre[k + 1].id);
            }
            assert(ids_of(v@)[k] == v@[k].id);
        }
        assert forall|x: u64|
            ids_of(v@).contains(x) == (ids_of(pre).contains(x) && x != gone) by {
            if ids_of(pre).contains(x) && x != gone {
                let k = choose|k: int| 0 <= k < ids_of(pre).len() && ids_of(pre)[k] == x;
                assert(k != i);
                if k < i {
                    assert(ids_of(v@)[k] == x);
                } else {
                    assert(ids_of(v@)[k - 1] == x);
                }
                assert(ids_of(v@).contains(x));
            }
            if ids_of(v@).contains(x) {
                let k = choose|k: int| 0 <= k < ids_of(v@).len() && ids_of(v@)[k] == x;
                if k < i {
                    assert(ids_of(pre)[k] == x);
                    assert(ids_of(pre)[k] < ids_of(pre)[i as int]);
                } else {
                    assert(ids_of(pre)[k + 1] == x);
                    assert(ids_of(pre)[i as int] < ids_of(pre)[k + 1]);
                }
                assert(ids_of(pre).contains(x));
                assert(x != gone);
            }
        }
        assert(id_set(ids_of(v@)) =~= id_set(ids_of(pre)).remove(gone));
    }
}

/// An entity system that processes one interested entity at a time.
///
/// It pairs a user strategy with an aspect and maintains the interest
/// set: exactly the entities whose last aspect evaluation was true and
/// that no later `deactivated` notification removed.
pub struct EntitySystem<T, A> where T: EntityProcess, A: Aspect<World = <T as System>::World> {
    interested: Vec<Entity>,
    aspect: A,
    inner: T,
    log: Ghost<Seq<Event>>,
}

impl<T, A> EntitySystem<T, A> where T: EntityProcess, A: Aspect<World = <T as System>::World> {
    /// The interest set's identifiers, in iteration order (strictly
    /// ascending whenever the system is well formed).
    pub closed spec fn interest_ids(&self) -> Seq<u64> {
        ids_of(self.interested@)
    }

    /// The interest set as a set of identifiers.
    pub open spec fn interest(&self) -> Set<u64> {
        id_set(self.interest_ids())
    }

    /// The strategy this system forwards to.
    pub closed spec fn strategy(&self) -> T {
        self.inner
    }

    /// The aspect that decides interest.
    pub closed spec fn aspect(&self) -> A {
        self.aspect
    }

    /// Return a new entity system with the specified process strategy
    /// and aspect; its interest set starts empty.
    pub fn new(inner: T, aspect: A) -> (r: EntitySystem<T, A>)
        requires
            inner.inv(),
        ensures
            r.inv(),
            r.log() == Seq::<Event>::empty(),
            r.interest_ids() == Seq::<u64>::empty(),
            r.interest() == Set::<u64>::empty(),
            r.strategy() == inner,
            r.aspect() == aspect,
    {
        let r = EntitySystem { interested: Vec::new(), aspect, inner, log: Ghost(Seq::empty()) };
        proof {
            assert(r.interest_ids() =~= Seq::<u64>::empty());
            assert(r.interest() =~= Set::<u64>::empty());
        }
        r
    }

    /// Borrow the strategy, e.g. to read state it accumulated.
    pub fn strategy_ref(&self) -> (r: &T)
        ensures
            *r == self.strategy(),
    {
        &self.inner
    }

    /// The identifiers of the currently interested entities, in
    /// iteration order.
    pub fn interested_ids(&self) -> (r: Vec<u64>)
        ensures
            r@ == self.interest_ids(),
    {
        let mut r: Vec<u64> = Vec::new();
        let mut i: usize = 0;
        while i < self.interested.len()
            invariant
                0 <= i <= self.interested@.len(),
                r@ == ids_of(self.interested@).take(i as int),
            decreases self.interested@.len() - i,
        {
            r.push(self.interested[i].id);
            proof {
                assert(r@ =~= ids_of(self.interested@).take(i as int + 1));
            }
            i = i + 1;
        }
        proof {
            assert(r@ =~= ids_of(self.interested@));
        }
        r
    }

    /// A well-formed system keeps its interest set strictly sorted and
    /// its strategy well formed.
    pub proof fn lemma_inv_unfold(&self)
        requires
            self.inv(),
        ensures
            sorted_strict(self.interest_ids()),
            self.strategy().inv(),
    {
    }
}

impl<T, A> System for EntitySystem<T, A> where
    T: EntityProcess,
    A: Aspect<World = <T as System>::World>,
 {
    type World = <T as System>::World;

    type Ctx = <T as System>::Ctx;

    closed spec fn inv(&self) -> bool {
        sorted_strict(ids_of(self.interested@)) && self.inner.inv()
    }

    closed spec fn log(&self) -> Seq<Event> {
        self.log@
    }

    fn activated(&mut self, e: &Entity, w: &<T as System>::World)
        ensures
            final(self).aspect() == old(self).aspect(),
            final(self).interest() == step_interest(
                old(self).interest(),
                LifecycleCall::Activated(e.id, old(self).aspect().matches(*e, *w)),
            ),
            final(self).strategy().log() == old(self).strategy().log() + step_forwards(
                old(self).interest(),
                LifecycleCall::Activated(e.id, old(self).aspect().matches(*e, *w)),
            ),
    {
        let m = self.aspect.check(e, w);
        if m {
            insert_entity(&mut self.interested, *e);
            self.inner.activated(e, w);
        }
        self.log = Ghost(self.log@.push(Event::Activated(e.id)));
        proof {
            if m {
                assert(old(self).strategy().log() + seq![Event::Activated(e.id)]
                    =~= old(self).strategy().log().push(Event::Activated(e.id)));
            } else {
                assert(old(self).strategy().log() + Seq::<Event>::empty()
                    =~= old(self).strategy().log());
            }
        }
    }

    fn reactivated(&mut self, e: &Entity, w: &<T as System>::World)
        ensures
            final(self).aspect() == old(self).aspect(),
            final(self).interest() == step_interest(
                old(self).interest(),
                LifecycleCall::Reactivated(e.id, old(self).aspect().matches(*e, *w)),
            ),
            final(self).strategy().log() == old(self).strategy().log() + step_forwards(
                old(self).interest(),
                LifecycleCall::Reactivated(e.id, old(self).aspect().matches(*e, *w)),
            ),
    {
        let m = self.aspect.check(e, w);
        match find_index(&self.interested, e.id) {
            Some(i) => {
                proof {
                    assert(old(self).interest_ids()[i as int] == e.id);
                    assert(old(self).interest_ids().contains(e.id));
                }
                if m {
                    self.inner.reactivated(e, w);
                    proof {
                        assert(old(self).strategy().log() + seq![Event::Reactivated(e.id)]
                            =~= old(self).strategy().log().push(Event::Reactivated(e.id)));
                    }
                } else {
                    remove_entity(&mut self.interested, i);
                    self.inner.deactivated(e, w);
                    proof {
                        assert(old(self).strategy().log() + seq![Event::Deactivated(e.id)]
                            =~= old(self).strategy().log().push(Event::Deactivated(e.id)));
                    }
                }
            },
            None => {
                if m {
                    insert_entity(&mut self.interested, *e);
                    self.inner.activated(e, w);
                    proof {
                        assert(old(self).strategy().log() + seq![Event::Activated(e.id)]
                            =~= old(self).strategy().log().push(Event::Activated(e.id)));
                    }
                } else {
                    proof {
                        assert(old(self).strategy().log() + Seq::<Event>::empty()
                            =~= old(self).strategy().log());
                    }
                }
            },
        }
        self.log = Ghost(self.log@.push(Event::Reactivated(e.id)));
    }

    fn deactivated(&mut self, e: &Entity, w: &<T as System>::World)
        ensures
            final(self).aspect() == old(self).aspect(),
            final(self).interest() == step_interest(
                old(self).interest(),
                LifecycleCall::Deactivated(e.id),
            ),
            final(self).strategy().log() == old(self).strategy().log() + step_forwards(
                old(self).interest(),
                LifecycleCall::Deactivated(e.id),
            ),
    {
        match find_index(&self.interested, e.id) {
            Some(i) => {
                proof {
                    assert(old(self).interest_ids()[i as int] == e.id);
                    assert(old(self).interest_ids().contains(e.id));
                }
                remove_entity(&mut self.interested, i);
                self.inner.deactivated(e, w);
                proof {
                    assert(old(self).strategy().log() + seq![Event::Deactivated(e.id)]
                        =~= old(self).strategy().log().push(Event::Deactivated(e.id)));
                }
            },
            None => {
                proof {
                    assert(old(self).interest() =~= old(self).interest().remove(e.id));
                    assert(old(self).strategy().log() + Seq::<Event>::empty()
                        =~= old(self).strategy().log());
                }
            },
        }
        self.log = Ghost(self.log@.push(Event::Deactivated(e.id)));
    }
}

impl<T, A> Process for EntitySystem<T, A> where
    T: EntityProcess,
    A: Aspect<World = <T as System>::World>,
 {
    open spec fn active(&self) -> bool {
        true
    }

    fn process(&mut self, c: &mut <T as System>::Ctx)
        ensures
            final(self).aspect() == old(self).aspect(),
            final(self).interest_ids() == old(self).interest_ids(),
            final(self).strategy().log() == old(self).strategy().log() + entity_processed_events(
                old(self).interest_ids(),
            ),
    {
        let ghost pre = *self;
        let mut i: usize = 0;
        while i < self.interested.len()
            invariant
                0 <= i <= self.interested@.len(),
                self.interested == pre.interested,
                self.aspect == pre.aspect,
                self.log == pre.log,
                self.inner.inv(),
                sorted_strict(ids_of(self.interested@)),
                self.inner.log() == pre.inner.log() + entity_processed_events(
                    ids_of(pre.interested@).take(i as int),
                ),
            decreases self.interested@.len() - i,
        {
            let e = self.interested[i];
            self.inner.process(&e, c);
            proof {
                assert(entity_processed_events(ids_of(pre.interested@).take(i as int + 1))
                    =~= entity_processed_events(ids_of(pre.interested@).take(i as int)).push(
                    Event::EntityProcessed(e.id),
                ));
                assert(pre.inner.log() + entity_processed_events(
                    ids_of(pre.interested@).take(i as int + 1),
                ) =~= (pre.inner.log() + entity_processed_events(
                    ids_of(pre.interested@).take(i as int),
                )).push(Event::EntityProcessed(e.id)));
            }
            i = i + 1;
        }
        proof {
            assert(ids_of(pre.interested@).take(pre.interested@.len() as int)
                =~= ids_of(pre.interested@));
        }
        self.log = Ghost(self.log@.push(Event::Processed));
    }

    fn is_active(&self) -> (r: bool) {
        true
    }
}

/// An entity system that operates on all interested entities at once:
/// every update forwards exactly one call to the bulk strategy with a
/// fresh snapshot of the entire current membership, even when it is
/// empty.
pub struct BulkEntitySystem<T, A> where
    T: BulkEntityProcess,
    A: Aspect<World = <T as System>::World>,
 {
    interested: Vec<Entity>,
    aspect: A,
    inner: T,
    log: Ghost<Seq<Event>>,
}

impl<T, A> BulkEntitySystem<T, A> where
    T: BulkEntityProcess,
    A: Aspect<World = <T as System>::World>,
 {
    /// The interest set's identifiers, in iteration order (strictly
    /// ascending whenever the system is well formed).
    pub closed spec fn interest_ids(&self) -> Seq<u64> {
        ids_of(self.interested@)
    }

    /// The interest set as a set of identifiers.
    pub open spec fn interest(&self) -> Set<u64> {
        id_set(self.interest_ids())
    }

    /// The strategy this system forwards to.
    pub closed spec fn strategy(&self) -> T {
        self.inner
    }

    /// The aspect that decides interest.
    pub closed spec fn aspect(&self) -> A {
        self.aspect
    }

    /// Return a new entity system with the specified bulk process
    /// strategy and aspect; its interest set starts empty.
    pub fn new(inner: T, aspect: A) -> (r: BulkEntitySystem<T, A>)
        requires
            inner.inv(),
        ensures
            r.inv(),
            r.log() == Seq::<Event>::empty(),
            r.interest_ids() == Seq::<u64>::empty(),
            r.interest() == Set::<u64>::empty(),
            r.strategy() == inner,
            r.aspect() == aspect,
    {
        let r = BulkEntitySystem {
            interested: Vec::new(),
            aspect,
            inner,
            log: Ghost(Seq::empty()),
        };
        proof {
            assert(r.interest_ids() =~= Seq::<u64>::empty());
            assert(r.interest() =~= Set::<u64>::empty());
        }
        r
    }

    /// Borrow the strategy, e.g. to read state it accumulated.
    pub fn strategy_ref(&self) -> (r: &T)
        ensures
            *r == self.strategy(),
    {
        &self.inner
    }

    /// The identifiers of the currently interested entities, in
    /// iteration order.
    pub fn interested_ids(&self) -> (r: Vec<u64>)
        ensures
            r@ == self.interest_ids(),
    {
        let mut r: Vec<u64> = Vec::new();
        let mut i: usize = 0;
        while i < self.interested.len()
            invariant
                0 <= i <= self.interested@.len(),
                r@ == ids_of(self.interested@).take(i as int),
            decreases self.interested@.len() - i,
        {
            r.push(self.interested[i].id);
            proof {
                assert(r@ =~= ids_of(self.interested@).take(i as int + 1));
            }
            i = i + 1;
        }
        proof {
            assert(r@ =~= ids_of(self.interested@));
        }
        r
    }

    /// A well-formed system keeps its interest set strictly sorted and
    /// its strategy well formed.
    pub proof fn lemma_inv_unfold(&self)
        requires
            self.inv(),
        ensures
            sorted_strict(self.interest_ids()),
            self.strategy().inv(),
    {
    }
}

impl<T, A> System for BulkEntitySystem<T, A> where
    T: BulkEntityProcess,
    A: Aspect<World = <T as System>::World>,
 {
    type World = <T as System>::World;

    type Ctx = <T as System>::Ctx;

    closed spec fn inv(&self) -> bool {
        sorted_strict(ids_of(self.interested@)) && self.inner.inv()
    }

    closed spec fn log(&self) -> Seq<Event> {
        self.log@
    }

    fn activated(&mut self, e: &Entity, w: &<T as System>::World)
        ensures
            final(self).aspect() == old(self).aspect(),
            final(self).interest() == step_interest(
                old(self).interest(),
                LifecycleCall::Activated(e.id, old(self).aspect().matches(*e, *w)),
            ),
            final(self).strategy().log() == old(self).strategy().log() + step_forwards(
                old(self).interest(),
                LifecycleCall::Activated(e.id, old(self).aspect().matches(*e, *w)),
            ),
    {
        let m = self.aspect.check(e, w);
        if m {
            insert_entity(&mut self.interested, *e);
            self.inner.activated(e, w);
        }
        self.log = Ghost(self.log@.push(Event::Activated(e.id)));
        proof {
            if m {
                assert(old(self).strategy().log() + seq![Event::Activated(e.id)]
                    =~= old(self).strategy().log().push(Event::Activated(e.id)));
            } else {
                assert(old(self).strategy().log() + Seq::<Event>::empty()
                    =~= old(self).strategy().log());
            }
        }
    }

    fn reactivated(&mut self, e: &Entity, w: &<T as System>::World)
        ensures
            final(self).aspect() == old(self).aspect(),
            final(self).interest() == step_interest(
                old(self).interest(),
                LifecycleCall::Reactivated(e.id, old(self).aspect().matches(*e, *w)),
            ),
            final(self).strategy().log() == old(self).strategy().log() + step_forwards(
                old(self).interest(),
                LifecycleCall::Reactivated(e.id, old(self).aspect().matches(*e, *w)),
            ),
    {
        let m = self.aspect.check(e, w);
        match find_index(&self.interested, e.id) {
            Some(i) => {
                proof {
                    assert(old(self).interest_ids()[i as int] == e.id);
                    assert(old(self).interest_ids().contains(e.id));
                }
                if m {
                    self.inner.reactivated(e, w);
                    proof {
                        assert(old(self).strategy().log() + seq![Event::Reactivated(e.id)]
                            =~= old(self).strategy().log().push(Event::Reactivated(e.id)));
                    }
                } else {
                    remove_entity(&mut self.interested, i);
                    self.inner.deactivated(e, w);
                    proof {
                        assert(old(self).strategy().log() + seq![Event::Deactivated(e.id)]
                            =~= old(self).strategy().log().push(Event::Deactivated(e.id)));
                    }
                }
            },
            None => {
                if m {
                    insert_entity(&mut self.interested, *e);
                    self.inner.activated(e, w);
                    proof {
                        assert(old(self).strategy().log() + seq![Event::Activated(e.id)]
                            =~= old(self).strategy().log().push(Event::Activated(e.id)));
                    }
                } else {
                    proof {
                        assert(old(self).strategy().log() + Seq::<Event>::empty()
                            =~= old(self).strategy().log());
                    }
                }
            },
        }
        self.log = Ghost(self.log@.push(Event::Reactivated(e.id)));
    }

    fn deactivated(&mut self, e: &Entity, w: &<T as System>::World)
        ensures
            final(self).aspect() == old(self).aspect(),
            final(self).interest() == step_interest(
                old(self).interest(),
                LifecycleCall::Deactivated(e.id),
            ),
            final(self).strategy().log() == old(self).strategy().log() + step_forwards(
                old(self).interest(),
                LifecycleCall::Deactivated(e.id),
            ),
    {
        match find_index(&self.interested, e.id) {
            Some(i) => {
                proof {
                    assert(old(self).interest_ids()[i as int] == e.id);
                    assert(old(self).interest_ids().contains(e.id));
                }
                remove_entity(&mut self.interested, i);
                self.inner.deactivated(e, w);
                proof {
                    assert(old(self).strategy().log() + seq![Event::Deactivated(e.id)]
                        =~= old(self).strategy().log().push(Event::Deactivated(e.id)));
                }
            },
            None => {
                proof {
                    assert(old(self).interest() =~= old(self).interest().remove(e.id));
                    assert(old(self).strategy().log() + Seq::<Event>::empty()
                        =~= old(self).strategy().log());
                }
            },
        }
        self.log = Ghost(self.log@.push(Event::Deactivated(e.id)));
    }
}

impl<T, A> Process for BulkEntitySystem<T, A> where
    T: BulkEntityProcess,
    A: Aspect<World = <T as System>::World>,
 {
    open spec fn active(&self) -> bool {
        true
    }

    fn process(&mut self, c: &mut <T as System>::Ctx)
        ensures
            final(self).aspect() == old(self).aspect(),
            final(self).interest_ids() == old(self).interest_ids(),
            final(self).strategy().log() == old(self).strategy().log().push(
                Event::BulkProcessed(old(self).interest_ids()),
            ),
    {
        let mut snapshot: Vec<Entity> = Vec::new();
        let mut i: usize = 0;
        while i < self.interested.len()
            invariant
                0 <= i <= self.interested@.len(),
                snapshot@ == self.interested@.take(i as int),
            decreases self.interested@.len() - i,
        {
            let e = self.interested[i];
            snapshot.push(e);
            proof {
                assert(snapshot@ =~= self.interested@.take(i as int + 1));
            }
            i = i + 1;
        }
        proof {
            assert(snapshot@ =~= self.interested@);
        }
        self.inner.process(&snapshot, c);
        self.log = Ghost(self.log@.push(Event::Processed));
    }

    fn is_active(&self) -> (r: bool) {
        true
    }
}

} // verus!
