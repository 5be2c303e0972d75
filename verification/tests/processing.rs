use ecs_dispatch::aspect::{ComponentTable, RequiresComponent};
use ecs_dispatch::entity::Entity;
use ecs_dispatch::entitysystem::{BulkEntitySystem, EntitySystem};
use ecs_dispatch::recorder::{CallRecord, Recorder};
use ecs_dispatch::system::{Process, System};

type Rec = Recorder<ComponentTable, u64>;

fn world_with(ids: &[u64]) -> ComponentTable {
    let mut w = ComponentTable::new();
    for &id in ids {
        w.attach(id, 1);
    }
    w
}

#[test]
fn entity_process_visits_each_member_once_ascending() {
    let w = world_with(&[5, 2, 9]);
    let mut sys = EntitySystem::new(Rec::new(), RequiresComponent { component: 1 });
    sys.activated(&Entity::new(5), &w);
    sys.activated(&Entity::new(2), &w);
    sys.activated(&Entity::new(9), &w);
    assert_eq!(sys.interested_ids(), vec![2u64, 5, 9]);
    let mut ctx: u64 = 0;
    sys.process(&mut ctx);
    let calls = sys.strategy_ref().calls();
    assert_eq!(calls.len(), 6);
    assert!(matches!(calls[3], CallRecord::EntityProcessed(2)));
    assert!(matches!(calls[4], CallRecord::EntityProcessed(5)));
    assert!(matches!(calls[5], CallRecord::EntityProcessed(9)));
}

#[test]
fn entity_process_empty_membership_makes_no_calls() {
    let mut sys = EntitySystem::new(Rec::new(), RequiresComponent { component: 1 });
    let mut ctx: u64 = 0;
    sys.process(&mut ctx);
    assert_eq!(sys.strategy_ref().calls().len(), 0);
}

#[test]
fn entity_process_skips_departed_member() {
    let w = world_with(&[2, 5]);
    let mut sys = EntitySystem::new(Rec::new(), RequiresComponent { component: 1 });
    sys.activated(&Entity::new(2), &w);
    sys.activated(&Entity::new(5), &w);
    sys.deactivated(&Entity::new(2), &w);
    let mut ctx: u64 = 0;
    sys.process(&mut ctx);
    let calls = sys.strategy_ref().calls();
    assert_eq!(calls.len(), 4);
    assert!(matches!(calls[3], CallRecord::EntityProcessed(5)));
}

#[test]
fn bulk_process_forwards_one_snapshot_of_whole_membership() {
    let w = world_with(&[3, 1]);
    let mut sys = BulkEntitySystem::new(Rec::new(), RequiresComponent { component: 1 });
    sys.activated(&Entity::new(3), &w);
    sys.activated(&Entity::new(1), &w);
    let mut ctx: u64 = 0;
    sys.process(&mut ctx);
    let calls = sys.strategy_ref().calls();
    assert_eq!(calls.len(), 3);
    match &calls[2] {
        CallRecord::BulkProcessed(ids) => assert_eq!(ids, &vec![1u64, 3]),
        _ => panic!("expected one bulk process call"),
    }
}

#[test]
fn bulk_process_empty_membership_still_one_call() {
    let mut sys = BulkEntitySystem::new(Rec::new(), RequiresComponent { component: 1 });
    let mut ctx: u64 = 0;
    sys.process(&mut ctx);
    let calls = sys.strategy_ref().calls();
    assert_eq!(calls.len(), 1);
    match &calls[0] {
        CallRecord::BulkProcessed(ids) => assert_eq!(ids.len(), 0),
        _ => panic!("expected one bulk process call"),
    }
}

#[test]
fn bulk_lifecycle_matches_entity_system_protocol() {
    let w = world_with(&[4]);
    let mut sys = BulkEntitySystem::new(Rec::new(), RequiresComponent { component: 1 });
    sys.activated(&Entity::new(4), &w);
    let bare = ComponentTable::new();
    sys.reactivated(&Entity::new(4), &bare);
    sys.deactivated(&Entity::new(4), &bare);
    assert_eq!(sys.interested_ids(), Vec::<u64>::new());
    let calls = sys.strategy_ref().calls();
    assert_eq!(calls.len(), 2);
    assert!(matches!(calls[0], CallRecord::Activated(4)));
    assert!(matches!(calls[1], CallRecord::Deactivated(4)));
}

#[test]
fn entity_system_is_active() {
    let sys = EntitySystem::new(Rec::new(), RequiresComponent { component: 1 });
    assert!(sys.is_active());
}
