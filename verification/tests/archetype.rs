use ecs::world::archetype::{
    Archetype, ArchetypeEdgeId, ArchetypeId, ArchetypeQuery, Archetypes, Edge, Edges, EntityIndex,
    RemovedComponent, RowIndex,
};
use ecs::world::entity::Entity;
use ecs::world::table::{Row, TableBuilder, TableCell};
use ecs::world::component::{Component, ComponentId};
use fixedbitset::FixedBitSet;

fn bits(ones: &[usize]) -> FixedBitSet {
    let mut set = FixedBitSet::with_capacity(8);
    for &one in ones {
        set.insert(one);
    }
    set
}

#[test]
fn query_requires_includes_and_excludes() {
    let mut query = ArchetypeQuery::new();
    query.require(ComponentId(0));
    query.include_component(ComponentId(1));
    query.include_component(ComponentId(3));
    query.exclude(ComponentId(2));

    assert!(query.matches(&bits(&[0, 1])));
    assert!(query.matches(&bits(&[0, 3, 4])));
    assert!(!query.matches(&bits(&[0])));
    assert!(!query.matches(&bits(&[1, 3])));
    assert!(!query.matches(&bits(&[0, 1, 2])));
}

#[test]
fn empty_query_matches_every_archetype() {
    let query = ArchetypeQuery::new();
    assert!(query.matches(&bits(&[])));
    assert!(query.matches(&bits(&[0, 5])));
}

#[test]
fn edges_keep_added_and_removed_apart() {
    let mut edges = Edges::new();
    let age = ArchetypeEdgeId::Component(ComponentId(1));
    let kit = ArchetypeEdgeId::Kit(ComponentId(1));
    edges.insert(age, ArchetypeId(4), Edge::Add);
    edges.insert(kit, ArchetypeId(5), Edge::Add);
    edges.insert(age, ArchetypeId(6), Edge::Remove);

    assert_eq!(edges.get(age, Edge::Add), Some(ArchetypeId(4)));
    assert_eq!(edges.added(kit), Some(ArchetypeId(5)));
    assert_eq!(edges.removed(age), Some(ArchetypeId(6)));
    assert_eq!(edges.removed(kit), None);
}

#[derive(Debug, PartialEq)]
struct Age(u32);
impl Component for Age {}

#[test]
fn removed_component_gives_its_value_back() {
    let removed = RemovedComponent::new(Age(9));
    assert_eq!(removed.take(), Age(9));
}

#[test]
fn entity_index_holds_archetype_and_row() {
    let index = EntityIndex::new(ArchetypeId(2), RowIndex(7));
    assert_eq!(index.archetype, ArchetypeId(2));
    assert_eq!(*index.row, 7);
}

#[test]
fn archetypes_start_every_entity_in_the_empty_archetype() {
    let mut archetypes = Archetypes::new();
    let a = Entity::new(0, 1);
    let b = Entity::new(1, 1);
    assert_eq!(archetypes.add_entity(a), ArchetypeId(0));
    assert_eq!(archetypes.add_entity(b), ArchetypeId(0));
    assert_eq!(archetypes.add_entity(a), ArchetypeId(0));
    assert_eq!(archetypes.archetypes().len(), 1);
    let index = archetypes.get_entity(b).unwrap();
    assert_eq!(index.archetype, ArchetypeId(0));
    assert_eq!(index.row.0, 1);
    assert!(archetypes.entity_archetype(a).unwrap().contains(a));
}

#[test]
fn archetypes_remove_entity_forgets_it() {
    let mut archetypes = Archetypes::new();
    let a = Entity::new(0, 1);
    let b = Entity::new(1, 1);
    archetypes.add_entity(a);
    archetypes.add_entity(b);
    assert!(archetypes.remove_entity(a).is_some());
    assert!(archetypes.remove_entity(a).is_none());
    assert!(archetypes.get_entity(a).is_none());
    assert_eq!(archetypes.get_entity(b).map(|i| i.row.0), Some(0));
}

#[test]
fn archetypes_query_visits_matching_archetypes() {
    let archetypes = Archetypes::new();
    let query = ArchetypeQuery::new();
    assert_eq!(archetypes.query(&query).len(), 1);
    let mut needs = ArchetypeQuery::new();
    needs.require(ComponentId(2));
    assert!(archetypes.query(&needs).is_empty());
}

#[test]
fn archetype_delegates_to_its_table() {
    let id = ComponentId(1);
    let table = TableBuilder::new().with_column(id, 4).build();
    let mut archetype = Archetype::new(ArchetypeId(3), table, bits(&[1]));
    assert!(archetype.has_component(1));
    assert!(!archetype.has_component(0));
    assert!(archetype.has_component_id(id));
    assert!(archetype.has_components(&bits(&[1])));
    let entity = Entity::new(5, 2);
    let mut row = Row::new();
    row.insert_cell(id, TableCell::new(vec![1, 2, 3, 4]));
    let index = archetype.add_entity(entity, row);
    assert_eq!(index.archetype, ArchetypeId(3));
    assert_eq!(index.row.0, 0);
    assert!(archetype.contains(entity));
    assert_eq!(archetype.get_entity(entity).map(|i| i.row.0), Some(0));
    let row = archetype.remove_entity(entity).unwrap();
    assert_eq!(row.get_cell(id).map(|c| c.data().to_vec()), Some(vec![1, 2, 3, 4]));
    let mut query = ArchetypeQuery::new();
    query.require(id);
    assert!(archetype.matches(&query));
}
