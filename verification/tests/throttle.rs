use ecs_dispatch::aspect::{ComponentTable, RequiresComponent};
use ecs_dispatch::entity::Entity;
use ecs_dispatch::entitysystem::EntitySystem;
use ecs_dispatch::interval::IntervalSystem;
use ecs_dispatch::recorder::{CallRecord, Recorder};
use ecs_dispatch::system::{Process, System};

type Rec = Recorder<ComponentTable, u64>;

fn processed_count(calls: &Vec<CallRecord>) -> usize {
    calls.iter().filter(|c| matches!(c, CallRecord::Processed)).count()
}

#[test]
fn interval_three_fires_on_third_and_sixth_call() {
    let mut sys = IntervalSystem::new(Rec::new(), 3);
    let mut ctx: u64 = 0;
    sys.process(&mut ctx);
    sys.process(&mut ctx);
    assert_eq!(processed_count(sys.inner.calls()), 0);
    sys.process(&mut ctx);
    assert_eq!(processed_count(sys.inner.calls()), 1);
    sys.process(&mut ctx);
    sys.process(&mut ctx);
    assert_eq!(processed_count(sys.inner.calls()), 1);
    sys.process(&mut ctx);
    assert_eq!(processed_count(sys.inner.calls()), 2);
}

#[test]
fn interval_exact_floor_over_many_calls() {
    let mut sys = IntervalSystem::new(Rec::new(), 4);
    let mut ctx: u64 = 0;
    for i in 1..=25u32 {
        sys.process(&mut ctx);
        assert_eq!(processed_count(sys.inner.calls()), (i / 4) as usize);
    }
}

#[test]
fn interval_one_fires_every_call() {
    let mut sys = IntervalSystem::new(Rec::new(), 1);
    let mut ctx: u64 = 0;
    sys.process(&mut ctx);
    sys.process(&mut ctx);
    assert_eq!(processed_count(sys.inner.calls()), 2);
}

#[test]
fn interval_passes_lifecycle_through_whatever_the_ticker() {
    let w = ComponentTable::new();
    let mut sys = IntervalSystem::new(Rec::new(), 3);
    let mut ctx: u64 = 0;
    sys.activated(&Entity::new(1), &w);
    sys.process(&mut ctx);
    sys.reactivated(&Entity::new(1), &w);
    sys.process(&mut ctx);
    sys.deactivated(&Entity::new(1), &w);
    let calls = sys.inner.calls();
    // Two process calls arrived, neither fired; all three lifecycle
    // notifications went straight through.
    assert_eq!(calls.len(), 3);
    assert!(matches!(calls[0], CallRecord::Activated(1)));
    assert!(matches!(calls[1], CallRecord::Reactivated(1)));
    assert!(matches!(calls[2], CallRecord::Deactivated(1)));
}

#[test]
fn nested_intervals_compose_periods() {
    let mut sys = IntervalSystem::new(IntervalSystem::new(Rec::new(), 2), 3);
    let mut ctx: u64 = 0;
    for _ in 0..11 {
        sys.process(&mut ctx);
    }
    // The outer system fires on calls 3, 6 and 9; the inner one fires on
    // every second of those, i.e. once so far.
    assert_eq!(processed_count(sys.inner.inner.calls()), 1);
    sys.process(&mut ctx);
    assert_eq!(processed_count(sys.inner.inner.calls()), 2);
}

#[test]
fn interval_wraps_entity_system() {
    let mut w = ComponentTable::new();
    w.attach(6, 1);
    let inner = EntitySystem::new(Rec::new(), RequiresComponent { component: 1 });
    let mut sys = IntervalSystem::new(inner, 2);
    let mut ctx: u64 = 0;
    sys.activated(&Entity::new(6), &w);
    sys.process(&mut ctx);
    assert_eq!(sys.inner.strategy_ref().calls().len(), 1);
    sys.process(&mut ctx);
    let calls = sys.inner.strategy_ref().calls();
    // The membership was forwarded immediately; per-entity processing
    // happened only on the second update.
    assert_eq!(calls.len(), 2);
    assert!(matches!(calls[0], CallRecord::Activated(6)));
    assert!(matches!(calls[1], CallRecord::EntityProcessed(6)));
}

#[test]
fn largest_interval_fires_once_after_full_period() {
    let mut sys = IntervalSystem::new(Rec::new(), u8::MAX);
    let mut ctx: u64 = 0;
    for _ in 0..254 {
        sys.process(&mut ctx);
    }
    assert_eq!(processed_count(sys.inner.calls()), 0);
    sys.process(&mut ctx);
    assert_eq!(processed_count(sys.inner.calls()), 1);
}

#[test]
fn interval_is_active_passes_through() {
    let sys = IntervalSystem::new(Rec::new(), 3);
    assert!(sys.is_active());
}
