use mini_ecs::world::Entity;
use mini_ecs::world::World;
use mini_ecs::world::WorldError;

#[test]
fn spawn_then_query_yields_entity_with_value() {
    let mut w: World<u32> = World::new();
    let e = w.spawn(1, 10).unwrap();
    let q = w.query(1);
    assert_eq!(q.len(), 1);
    assert_eq!(q[0], e);
    assert_eq!(w.get(1, e), Some(&10));
}

#[test]
fn entities_are_dense_and_monotonic() {
    let mut w: World<u32> = World::new();
    let a = w.spawn(1, 10).unwrap();
    let b = w.spawn(1, 20).unwrap();
    let c = w.spawn(2, 30).unwrap();
    assert_eq!(a, Entity { id: 0 });
    assert_eq!(b, Entity { id: 1 });
    assert_eq!(c, Entity { id: 2 });
    assert!(w.is_live(a) && w.is_live(b) && w.is_live(c));
    assert!(!w.is_live(Entity { id: 3 }));
}

#[test]
fn query_keeps_insertion_order() {
    let mut w: World<u32> = World::new();
    let a = w.spawn(1, 10).unwrap();
    let b = w.spawn(1, 20).unwrap();
    let c = w.spawn(1, 30).unwrap();
    assert_eq!(w.query(1), vec![a, b, c]);
}

#[test]
fn query_yields_only_holders_each_once() {
    let mut w: World<u32> = World::new();
    let a = w.spawn(1, 10).unwrap();
    let b = w.spawn(2, 20).unwrap();
    // unrelated attach and spawn operations on other kinds
    w.attach(a, 3, 33).unwrap();
    let c = w.spawn(1, 40).unwrap();
    w.attach(b, 1, 50).unwrap();
    assert_eq!(w.query(1), vec![a, c, b]);
    assert_eq!(w.query(2), vec![b]);
    assert_eq!(w.query(3), vec![a]);
    assert_eq!(w.get(1, a), Some(&10));
    assert_eq!(w.get(1, c), Some(&40));
    assert_eq!(w.get(1, b), Some(&50));
    assert_eq!(w.get(2, a), None);
}

#[test]
fn attach_overwrite_observable_on_next_query() {
    let mut w: World<u32> = World::new();
    let a = w.spawn(1, 10).unwrap();
    let b = w.spawn(1, 20).unwrap();
    w.attach(a, 1, 11).unwrap();
    // the overwritten entity keeps its position in the iteration order
    assert_eq!(w.query(1), vec![a, b]);
    assert_eq!(w.get(1, a), Some(&11));
    assert_eq!(w.get(1, b), Some(&20));
}

#[test]
fn attach_to_dead_entity_fails() {
    let mut w: World<u32> = World::new();
    let r = w.attach(Entity { id: 0 }, 1, 10);
    assert_eq!(r, Err(WorldError::EntityNotLive));
    assert!(!WorldError::EntityNotLive.message().is_empty());
    // the world is unchanged
    assert_eq!(w.query(1), vec![]);
}

#[test]
fn empty_world_query_is_empty() {
    let w: World<u32> = World::new();
    assert_eq!(w.query(1), vec![]);
    assert_eq!(w.query(0), vec![]);
    assert_eq!(w.get(1, Entity { id: 0 }), None);
}
