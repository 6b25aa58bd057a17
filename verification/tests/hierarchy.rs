use ecs::hierarchy::finish_components;
use ecs::hierarchy::{Children, Parent};
use ecs::world::entity::Entity;
use ecs::world::hierarchy as world_hierarchy;

#[test]
fn parent_wraps_entity() {
    let e = Entity::new(3, 1);
    let p = Parent::from(e);
    assert_eq!(p.get(), e);
    assert_eq!(*p, e);
}

#[test]
fn children_from_entities_drops_repeats() {
    let a = Entity::new(0, 1);
    let b = Entity::new(1, 1);
    let children = Children::from_entities(vec![a, a, b, a]);
    assert_eq!(children.as_slice(), &[a, b, a]);
    assert_eq!(children.len(), 3);
    assert!(!children.is_empty());
    assert_eq!(children.get(1), Some(b));
    assert_eq!(children.get(3), None);
    assert!(children.contains(b));
    assert!(!children.contains(Entity::new(5, 5)));
}

#[test]
fn children_sort_by_generation_then_id() {
    let a = Entity::new(4, 2);
    let b = Entity::new(9, 1);
    let c = Entity::new(1, 2);
    let mut children = Children::from_entities(vec![a, b, c]);
    children.sort();
    assert_eq!(children.as_slice(), &[b, c, a]);
    children.sort_by(|x, y| y.id().cmp(&x.id()));
    assert_eq!(children.as_slice(), &[b, a, c]);
}

#[test]
fn single_child() {
    let a = Entity::root(1);
    let children = Children::from_entity(a);
    assert_eq!(children.as_slice(), &[a]);
}

#[test]
fn world_hierarchy_types() {
    let a = Entity::new(1, 1);
    let p = world_hierarchy::Parent::new(a);
    assert_eq!(p.get(), a);
    assert_eq!(*p, a);
    let children = world_hierarchy::Children::with_child(a);
    assert_eq!(children.get(), &[a]);
    assert_eq!(children.iter(), vec![&a]);
    assert_eq!(world_hierarchy::Children::new().get().len(), 0);
    let add = world_hierarchy::AddChild { parent: a, child: a };
    assert_eq!(add.parent, add.child);
    let many = world_hierarchy::AddChildren { parent: a, children: vec![a] };
    assert_eq!(many.children.len(), 1);
}

#[test]
fn children_sort_by_is_stable() {
    let a = Entity::new(1, 1);
    let b = Entity::new(2, 1);
    let c = Entity::new(1, 2);
    let d = Entity::new(0, 3);
    let mut children = Children::from_entities(vec![a, b, c, d]);
    children.sort_by(|x, y| x.id().cmp(&y.id()));
    assert_eq!(children.as_slice(), &[d, a, c, b]);
}

#[test]
fn children_edits() {
    let a = Entity::new(1, 1);
    let b = Entity::new(2, 1);
    let c = Entity::new(3, 1);
    let mut children = Children::from_entity(a);
    children.push(b);
    children.insert(1, vec![c, c]);
    assert_eq!(children.as_slice(), &[a, c, c, b]);
    assert!(children.remove(c));
    assert_eq!(children.as_slice(), &[a, c, b]);
    assert!(!children.remove(Entity::new(9, 9)));
    children.retain(|e| *e != a);
    assert_eq!(children.as_slice(), &[c, b]);

    let mut parent = Parent::from(a);
    assert_eq!(parent.set(b), a);
    assert_eq!(parent.get(), b);
}

#[test]
fn finish_components_gives_parent_and_children() {
    let parent = Entity::new(1, 1);
    let (p, c) = finish_components(Some(parent), vec![Entity::new(2, 1), Entity::new(3, 1)]);
    assert_eq!(p.map(|p| p.get()), Some(parent));
    assert_eq!(c.unwrap().as_slice(), &[Entity::new(2, 1), Entity::new(3, 1)]);
    let (p, c) = finish_components(None, Vec::new());
    assert!(p.is_none());
    assert!(c.is_none());
}
