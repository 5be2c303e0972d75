use ecs_dispatch::aspect::{Aspect, ComponentTable, RequiresComponent};
use ecs_dispatch::entity::Entity;
use ecs_dispatch::entitysystem::EntitySystem;
use ecs_dispatch::recorder::{CallRecord, Recorder};
use ecs_dispatch::system::System;

type Rec = Recorder<ComponentTable, u64>;

fn system_with(component: u64) -> EntitySystem<Rec, RequiresComponent> {
    EntitySystem::new(Rec::new(), RequiresComponent { component })
}

#[test]
fn activated_inserts_and_forwards() {
    let mut w = ComponentTable::new();
    w.attach(7, 1);
    let mut sys = system_with(1);
    sys.activated(&Entity::new(7), &w);
    assert_eq!(sys.interested_ids(), vec![7u64]);
    let calls = sys.strategy_ref().calls();
    assert_eq!(calls.len(), 1);
    assert!(matches!(calls[0], CallRecord::Activated(7)));
}

#[test]
fn activated_uninterested_is_silent() {
    let w = ComponentTable::new();
    let mut sys = system_with(1);
    sys.activated(&Entity::new(7), &w);
    assert_eq!(sys.interested_ids(), Vec::<u64>::new());
    assert_eq!(sys.strategy_ref().calls().len(), 0);
}

#[test]
fn reactivated_after_gaining_component_forwards_activated() {
    // The aspect requires component 1 ("Position"); entity 7 lacks it.
    let mut w = ComponentTable::new();
    let mut sys = system_with(1);
    sys.activated(&Entity::new(7), &w);
    assert_eq!(sys.interested_ids(), Vec::<u64>::new());
    assert_eq!(sys.strategy_ref().calls().len(), 0);
    // The world later adds the component; on reactivation the entity was
    // absent and the aspect now holds, so one `activated` is forwarded,
    // not a `reactivated`.
    w.attach(7, 1);
    sys.reactivated(&Entity::new(7), &w);
    assert_eq!(sys.interested_ids(), vec![7u64]);
    let calls = sys.strategy_ref().calls();
    assert_eq!(calls.len(), 1);
    assert!(matches!(calls[0], CallRecord::Activated(7)));
}

#[test]
fn reactivated_member_still_matching_forwards_reactivated() {
    let mut w = ComponentTable::new();
    w.attach(7, 1);
    let mut sys = system_with(1);
    sys.activated(&Entity::new(7), &w);
    sys.reactivated(&Entity::new(7), &w);
    assert_eq!(sys.interested_ids(), vec![7u64]);
    let calls = sys.strategy_ref().calls();
    assert_eq!(calls.len(), 2);
    assert!(matches!(calls[1], CallRecord::Reactivated(7)));
}

#[test]
fn reactivated_member_no_longer_matching_forwards_deactivated() {
    let mut w = ComponentTable::new();
    w.attach(7, 1);
    let mut sys = system_with(1);
    sys.activated(&Entity::new(7), &w);
    // A world without the component: the member stops matching.
    let bare = ComponentTable::new();
    sys.reactivated(&Entity::new(7), &bare);
    assert_eq!(sys.interested_ids(), Vec::<u64>::new());
    let calls = sys.strategy_ref().calls();
    assert_eq!(calls.len(), 2);
    assert!(matches!(calls[1], CallRecord::Deactivated(7)));
}

#[test]
fn reactivated_absent_and_uninterested_is_silent() {
    let w = ComponentTable::new();
    let mut sys = system_with(1);
    sys.reactivated(&Entity::new(7), &w);
    sys.reactivated(&Entity::new(7), &w);
    assert_eq!(sys.interested_ids(), Vec::<u64>::new());
    assert_eq!(sys.strategy_ref().calls().len(), 0);
}

#[test]
fn deactivated_twice_forwards_exactly_once() {
    let mut w = ComponentTable::new();
    w.attach(7, 1);
    let mut sys = system_with(1);
    sys.activated(&Entity::new(7), &w);
    sys.deactivated(&Entity::new(7), &w);
    sys.deactivated(&Entity::new(7), &w);
    assert_eq!(sys.interested_ids(), Vec::<u64>::new());
    let calls = sys.strategy_ref().calls();
    assert_eq!(calls.len(), 2);
    assert!(matches!(calls[0], CallRecord::Activated(7)));
    assert!(matches!(calls[1], CallRecord::Deactivated(7)));
}

#[test]
fn deactivated_absent_is_silent() {
    let w = ComponentTable::new();
    let mut sys = system_with(1);
    sys.deactivated(&Entity::new(7), &w);
    assert_eq!(sys.strategy_ref().calls().len(), 0);
}

#[test]
fn activated_twice_forwards_twice_with_single_membership() {
    let mut w = ComponentTable::new();
    w.attach(7, 1);
    let mut sys = system_with(1);
    sys.activated(&Entity::new(7), &w);
    sys.activated(&Entity::new(7), &w);
    // Activation checks only the aspect, so the strategy hears of both
    // calls, while the membership holds the entity once.
    assert_eq!(sys.interested_ids(), vec![7u64]);
    let calls = sys.strategy_ref().calls();
    assert_eq!(calls.len(), 2);
    assert!(matches!(calls[0], CallRecord::Activated(7)));
    assert!(matches!(calls[1], CallRecord::Activated(7)));
}

#[test]
fn largest_identifier_is_ordinary() {
    let mut w = ComponentTable::new();
    w.attach(u64::MAX, 1);
    w.attach(0, 1);
    let mut sys = system_with(1);
    sys.activated(&Entity::new(u64::MAX), &w);
    sys.activated(&Entity::new(0), &w);
    assert_eq!(sys.interested_ids(), vec![0u64, u64::MAX]);
    sys.deactivated(&Entity::new(u64::MAX), &w);
    assert_eq!(sys.interested_ids(), vec![0u64]);
}

#[test]
fn aspect_check_reads_component_table() {
    let mut w = ComponentTable::new();
    w.attach(3, 2);
    let a = RequiresComponent { component: 2 };
    assert!(a.check(&Entity::new(3), &w));
    assert!(!a.check(&Entity::new(4), &w));
    let other = RequiresComponent { component: 9 };
    assert!(!other.check(&Entity::new(3), &w));
}
