use std::cmp::Ordering;
use ecs::world::entity::{Entities, Entity};

#[test]
fn spawn_hands_out_fresh_ids() {
    let mut entities = Entities::new();
    let a = entities.spawn();
    let b = entities.spawn();
    assert_eq!(a, Entity::new(0, 1));
    assert_eq!(b, Entity::new(1, 1));
}

#[test]
fn despawned_id_comes_back_with_next_generation() {
    let mut entities = Entities::new();
    let a = entities.spawn();
    entities.spawn();
    entities.despawn(a);
    let c = entities.spawn();
    assert_eq!(c.id(), a.id());
    assert_eq!(c.generation(), 2);
    assert_ne!(c, a);
    let d = entities.spawn();
    assert_eq!(d, Entity::new(2, 1));
}

#[test]
fn clear_starts_over() {
    let mut entities = Entities::new();
    entities.spawn();
    entities.spawn();
    entities.clear();
    assert_eq!(entities.spawn(), Entity::new(0, 1));
}

#[test]
fn root_entity_has_generation_zero() {
    let e = Entity::root(7);
    assert_eq!(e.id(), 7);
    assert_eq!(e.generation(), 0);
}

#[test]
fn entities_order_by_generation_then_id() {
    assert!(Entity::new(9, 1) < Entity::new(0, 2));
    assert!(Entity::new(1, 3) < Entity::new(2, 3));
}

#[test]
fn entity_debug_names_id_then_generation() {
    assert_eq!(format!("{:?}", Entity::new(1, 2)), "Entity { id: 1, generation: 2 }");
}

#[test]
fn entity_partial_cmp_orders_by_generation_then_id() {
    assert_eq!(Entity::new(9, 1).partial_cmp(&Entity::new(0, 2)), Some(Ordering::Less));
    assert_eq!(Entity::new(2, 3).partial_cmp(&Entity::new(1, 3)), Some(Ordering::Greater));
    assert_eq!(Entity::new(4, 4).partial_cmp(&Entity::new(4, 4)), Some(Ordering::Equal));
}
