//! A decorator that throttles periodic work.

use vstd::prelude::*;

use crate::entity::Entity;
use crate::events::{lifecycle_of, processed_count, Event};
use crate::events::{lemma_lifecycle_of_push, lemma_processed_count_push};
use crate::system::{Process, System};
use vstd::arithmetic::div_mod::{lemma_fundamental_div_mod, lemma_fundamental_div_mod_converse,
    lemma_mod_bound};

verus! {

/// A system which forwards `process` to an inner [`Process`] only every
/// `interval`-th call, with no drift, while passing every lifecycle
/// notification and the `is_active` query through unconditionally and
/// immediately.
///
/// Because it satisfies [`Process`] itself, an interval system may wrap
/// another interval system or an entity system, composing throttling
/// policies without modifying the wrapped component.
///
/// Its invariant states the throttling exactly: with `n` the interval
/// and `p` the `process` calls received so far, the ticker reads
/// `p % n`, the inner system has processed exactly `p / n` times, and
/// the inner system has seen exactly the lifecycle notifications this
/// one has.
pub struct IntervalSystem<T: Process> {
    /// The throttled inner system.
    pub inner: T,
    interval: u8,
    ticker: u8,
    log: Ghost<Seq<Event>>,
}

impl<T: Process> IntervalSystem<T> {
    /// The wrapped system, as seen by specifications.
    pub closed spec fn spec_inner(&self) -> T {
        self.inner
    }

    /// The number of updates between forwarded processes.
    pub closed spec fn spec_interval(&self) -> u8 {
        self.interval
    }

    /// Update calls since the last forwarded process.
    pub closed spec fn spec_ticker(&self) -> u8 {
        self.ticker
    }

    /// Create a new interval system with the specified number of updates
    /// between processes.  A zero interval would never fire, so it is
    /// rejected here at construction; the wrapped system starts fresh,
    /// before any notification.
    pub fn new(system: T, interval: u8) -> (r: IntervalSystem<T>)
        requires
            interval >= 1,
            system.inv(),
            system.log() == Seq::<Event>::empty(),
        ensures
            r.inv(),
            r.log() == Seq::<Event>::empty(),
            r.spec_inner() == system,
            r.spec_interval() == interval,
            r.spec_ticker() == 0,
    {
        let r = IntervalSystem { inner: system, interval, ticker: 0, log: Ghost(Seq::empty()) };
        proof {
            lemma_fundamental_div_mod_converse(0, interval as int, 0, 0);
            assert(processed_count(Seq::<Event>::empty()) == 0);
            assert(lifecycle_of(Seq::<Event>::empty()) == Seq::<Event>::empty());
        }
        r
    }

    /// A well-formed interval system throttles exactly: the ticker
    /// counts received `process` calls modulo the interval, the inner
    /// system has processed once per full interval, and lifecycle
    /// notifications pass through one for one.
    pub proof fn lemma_inv_unfold(&self)
        requires
            self.inv(),
        ensures
            self.spec_interval() >= 1,
            self.spec_ticker() as nat == processed_count(self.log()) % (
            self.spec_interval() as nat),
            processed_count(self.spec_inner().log()) == processed_count(self.log()) / (
            self.spec_interval() as nat),
            lifecycle_of(self.spec_inner().log()) == lifecycle_of(self.log()),
            self.spec_inner().inv(),
    {
    }
}

/// Exact-period throttling: however many `process` calls an interval
/// system has received, its inner system has processed exactly the
/// floor of that count divided by the interval.
pub proof fn lemma_exact_period<T: Process>(s: &IntervalSystem<T>, m: nat)
    requires
        s.inv(),
        processed_count(s.log()) == m,
    ensures
        processed_count(s.spec_inner().log()) == m / (s.spec_interval() as nat),
{
}

/// An interval system fires exactly on the calls whose ordinal is a
/// multiple of the interval: with `p` processes received so far, the
/// next call fires (the ticker, which reads `p % n`, is about to reach
/// the interval) exactly when `p + 1` is a multiple of `n`.
pub proof fn lemma_fires_on_multiples(p: nat, n: nat)
    requires
        n >= 1,
    ensures
        ((p % n) + 1 == n) <==> ((p + 1) % n == 0),
{
    let pi = p as int;
    let ni = n as int;
    lemma_fundamental_div_mod(pi, ni);
    if (p % n) + 1 == n {
        assert(pi + 1 == ni * ((pi / ni) + 1) + 0) by {
            assert(ni * ((pi / ni) + 1) == ni * (pi / ni) + ni) by (nonlinear_arith);
        }
        lemma_fundamental_div_mod_converse(pi + 1, ni, (pi / ni) + 1, 0);
    } else {
        lemma_mod_bound(pi, ni);
        assert(pi + 1 == (pi / ni) * ni + ((pi % ni) + 1)) by {
            assert((pi / ni) * ni == ni * (pi / ni)) by (nonlinear_arith);
        }
        lemma_fundamental_div_mod_converse(pi + 1, ni, pi / ni, (pi % ni) + 1);
    }
}

/// Lifecycle pass-through independence: whatever the ticker state, an
/// interval system has forwarded exactly the lifecycle notifications it
/// received, in order.
pub proof fn lemma_lifecycle_pass_through<T: Process>(s: &IntervalSystem<T>)
    requires
        s.inv(),
    ensures
        lifecycle_of(s.spec_inner().log()) == lifecycle_of(s.log()),
{
}

impl<T: Process> System for IntervalSystem<T> {
    type World = <T as System>::World;

    type Ctx = <T as System>::Ctx;

    closed spec fn inv(&self) -> bool {
        &&& self.interval >= 1
        &&& self.ticker as nat == processed_count(self.log@) % (self.interval as nat)
        &&& processed_count(self.inner.log()) == processed_count(self.log@) / (
        self.interval as nat)
        &&& lifecycle_of(self.inner.log()) == lifecycle_of(self.log@)
        &&& self.inner.inv()
    }

    closed spec fn log(&self) -> Seq<Event> {
        self.log@
    }

    fn activated(&mut self, e: &Entity, w: &<T as System>::World)
        ensures
            final(self).spec_inner().log() == old(self).spec_inner().log().push(Event::Activated(e.id)),
            final(self).spec_interval() == old(self).spec_interval(),
            final(self).spec_ticker() == old(self).spec_ticker(),
    {
        self.inner.activated(e, w);
        self.log = Ghost(self.log@.push(Event::Activated(e.id)));
        proof {
            lemma_processed_count_push(old(self).log@, Event::Activated(e.id));
            lemma_processed_count_push(old(self).inner.log(), Event::Activated(e.id));
            lemma_lifecycle_of_push(old(self).log@, Event::Activated(e.id));
            lemma_lifecycle_of_push(old(self).inner.log(), Event::Activated(e.id));
        }
    }

    fn reactivated(&mut self, e: &Entity, w: &<T as System>::World)
        ensures
            final(self).spec_inner().log() == old(self).spec_inner().log().push(Event::Reactivated(e.id)),
            final(self).spec_interval() == old(self).spec_interval(),
            final(self).spec_ticker() == old(self).spec_ticker(),
    {
        self.inner.reactivated(e, w);
        self.log = Ghost(self.log@.push(Event::Reactivated(e.id)));
        proof {
            lemma_processed_count_push(old(self).log@, Event::Reactivated(e.id));
            lemma_processed_count_push(old(self).inner.log(), Event::Reactivated(e.id));
            lemma_lifecycle_of_push(old(self).log@, Event::Reactivated(e.id));
            lemma_lifecycle_of_push(old(self).inner.log(), Event::Reactivated(e.id));
        }
    }

    fn deactivated(&mut self, e: &Entity, w: &<T as System>::World)
        ensures
            final(self).spec_inner().log() == old(self).spec_inner().log().push(Event::Deactivated(e.id)),
            final(self).spec_interval() == old(self).spec_interval(),
            final(self).spec_ticker() == old(self).spec_ticker(),
    {
        self.inner.deactivated(e, w);
        self.log = Ghost(self.log@.push(Event::Deactivated(e.id)));
        proof {
            lemma_processed_count_push(old(self).log@, Event::Deactivated(e.id));
            lemma_processed_count_push(old(self).inner.log(), Event::Deactivated(e.id));
            lemma_lifecycle_of_push(old(self).log@, Event::Deactivated(e.id));
            lemma_lifecycle_of_push(old(self).inner.log(), Event::Deactivated(e.id));
        }
    }
}

impl<T: Process> Process for IntervalSystem<T> {
    open spec fn active(&self) -> bool {
        self.spec_inner().active()
    }

    fn process(&mut self, c: &mut <T as System>::Ctx)
        ensures
            final(self).spec_interval() == old(self).spec_interval(),
            if old(self).spec_ticker() + 1 == old(self).spec_interval() {
                final(self).spec_inner().log() == old(self).spec_inner().log().push(Event::Processed)
                    && final(self).spec_ticker() == 0
            } else {
                final(self).spec_inner().log() == old(self).spec_inner().log() && final(self).spec_ticker()
                    == old(self).spec_ticker() + 1
            },
    {
        proof {
            let n = self.interval as int;
            let p = processed_count(self.log@) as int;
            lemma_fundamental_div_mod(p, n);
            if self.ticker as int + 1 == n {
                assert((p + 1) == n * ((p / n) + 1) + 0) by {
                    assert(n * ((p / n) + 1) == n * (p / n) + n) by (nonlinear_arith);
                };
                lemma_fundamental_div_mod_converse(p + 1, n, (p / n) + 1, 0);
            } else {
                lemma_fundamental_div_mod_converse(p + 1, n, p / n, (p % n) + 1);
            }
        }
        self.ticker = self.ticker + 1;
        if self.ticker == self.interval {
            self.ticker = 0;
            self.inner.process(c);
        }
        self.log = Ghost(self.log@.push(Event::Processed));
        proof {
            lemma_processed_count_push(old(self).log@, Event::Processed);
            lemma_lifecycle_of_push(old(self).log@, Event::Processed);
            if old(self).ticker as int + 1 == old(self).interval as int {
                lemma_processed_count_push(old(self).inner.log(), Event::Processed);
                lemma_lifecycle_of_push(old(self).inner.log(), Event::Processed);
            }
        }
    }

    fn is_active(&self) -> (r: bool) {
        self.inner.is_active()
    }
}

} // verus!
