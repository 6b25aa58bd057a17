use ecs::sync::{EntityWorldMap, MainEntity};
use ecs::world::entity::Entity;

#[test]
fn despawned_entities_take_their_counterparts_along() {
    let mut map = EntityWorldMap::default();
    let a = Entity::new(0, 1);
    let b = Entity::new(1, 1);
    let c = Entity::new(2, 1);
    map.insert(a, Entity::new(10, 0));
    map.insert(b, Entity::new(11, 0));

    let taken = map.take_despawned(&[b, c, b, a]);
    assert_eq!(taken, vec![Entity::new(11, 0), Entity::new(10, 0)]);
    assert_eq!(map.get(a), None);
    assert_eq!(map.get(b), None);
}

#[test]
fn entity_map_tells_generations_apart() {
    let mut map = EntityWorldMap::default();
    map.insert(Entity::new(3, 1), Entity::new(7, 0));
    assert_eq!(map.get(Entity::new(3, 1)), Some(Entity::new(7, 0)));
    assert_eq!(map.get(Entity::new(3, 2)), None);
    map.insert(Entity::new(3, 1), Entity::new(8, 0));
    assert_eq!(map.get(Entity::new(3, 1)), Some(Entity::new(8, 0)));
}

#[test]
fn main_entity_derefs_to_its_entity() {
    let main = MainEntity(Entity::new(4, 2));
    assert_eq!(*main, Entity::new(4, 2));
}
