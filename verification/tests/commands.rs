use ecs::commands::CommandBuffer;
use ecs::commands::Despawn;
use ecs::hierarchy::Children;
use ecs::world::event::entity_key_of;
use std::collections::HashMap;
use ecs::commands::{
    AddChild, AddChildren, AddComponent, InsertChildren, RemoveChild, RemoveChildren,
    RemoveComponent,
};
use ecs::world::component::Component;
use ecs::world::entity::Entity;

struct Age(u32);
impl Component for Age {}

#[test]
fn add_component_holds_entity_and_component() {
    let command = AddComponent::new(Entity::root(3), Age(7));
    assert_eq!(command.entity, Entity::root(3));
    assert_eq!(command.component.0, 7);
}

#[test]
fn remove_component_names_its_entity() {
    let command = RemoveComponent::<Age>::new(Entity::new(4, 2));
    assert_eq!(command.entity(), Entity::new(4, 2));
    assert_eq!(command.0, Entity::new(4, 2));
}

#[test]
fn child_commands_hold_their_entities() {
    let parent = Entity::root(1);
    let child = Entity::root(2);

    let add = AddChild::new(parent, child);
    assert_eq!((add.parent, add.child), (parent, child));

    let remove = RemoveChild::new(parent, child);
    assert_eq!((remove.parent, remove.child), (parent, child));

    let add_all = AddChildren::new(parent, vec![child, Entity::root(3)]);
    assert_eq!(add_all.parent, parent);
    assert_eq!(add_all.children, vec![child, Entity::root(3)]);

    let insert = InsertChildren::new(parent, vec![child], 5);
    assert_eq!(insert.parent, parent);
    assert_eq!(insert.children, vec![child]);
    assert_eq!(insert.index, 5);

    let remove_all = RemoveChildren::new(parent, vec![child]);
    assert_eq!(remove_all.parent, parent);
    assert_eq!(remove_all.children, vec![child]);
}

#[test]
fn despawn_plan_goes_depth_first_and_skips_dead_entities() {
    let root = Entity::new(0, 1);
    let a = Entity::new(1, 1);
    let b = Entity::new(2, 1);
    let c = Entity::new(3, 1);
    let dead = Entity::new(4, 1);
    let mut live: HashMap<u64, Vec<Entity>> = HashMap::new();
    live.insert(entity_key_of(root), vec![a, b, dead]);
    live.insert(entity_key_of(a), vec![c]);
    live.insert(entity_key_of(b), vec![]);
    live.insert(entity_key_of(c), vec![root]);

    let plan = Despawn(root).plan(&live);
    assert_eq!(plan, vec![root, b, a, c]);
    assert_eq!(Despawn(dead).plan(&live), Vec::<Entity>::new());
}

#[test]
fn despawn_detaches_from_siblings() {
    let gone = Entity::new(2, 1);
    let mut siblings = Children::from_entities(vec![Entity::new(1, 1), gone, Entity::new(3, 1)]);
    Despawn(gone).detach(&mut siblings);
    assert_eq!(siblings.as_slice(), &[Entity::new(1, 1), Entity::new(3, 1)]);
}

#[test]
fn command_buffer_keeps_commands_in_order() {
    let mut buffer = CommandBuffer::new();
    assert!(buffer.is_empty());
    buffer.add(1);
    buffer.add(2);
    let mut more = CommandBuffer::new();
    more.add(3);
    buffer.extend(more);
    assert_eq!(buffer.len(), 3);
    assert_eq!(buffer.drain(), vec![1, 2, 3]);
    assert!(buffer.is_empty());
    assert_eq!(buffer.drain(), Vec::<i32>::new());
}
