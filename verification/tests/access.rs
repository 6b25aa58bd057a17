use ecs::world::access::{Access, AccessError, AppAccess, ArchetypeAccess, WorldAccess};
use ecs::world::component::ComponentId;
use ecs::world::resource::ResourceId;

#[test]
fn disjoint_archetype_access() {
    let mut access = ArchetypeAccess::new();
    let mut other = ArchetypeAccess::new();

    access.read(ComponentId(0));
    access.write(ComponentId(1));

    other.write(ComponentId(0));
    other.exclude(ComponentId(1));

    assert!(access.is_disjoint(&other));
}

#[test]
fn world_access_conflict() {
    let mut access = WorldAccess::new();
    let mut other = WorldAccess::new();

    access.components_mut().read(ComponentId(0));
    access.components_mut().write(ComponentId(1));
    access.resources_mut().read(ResourceId(0));

    other.components_mut().read(ComponentId(0));
    other.components_mut().write(ComponentId(2));
    other.resources_mut().write(ResourceId(1));

    assert_eq!(access.conflicts(&other), Ok(()));
}

#[test]
fn world_access_validate() {
    let mut valid = WorldAccess::new();
    valid.components_mut().read(ComponentId(0));
    valid.components_mut().write(ComponentId(1));
    valid.resources_mut().read(ResourceId(0));

    assert_eq!(valid.validate(), Ok(()));

    let mut archetype = ArchetypeAccess::new();
    archetype.write(ComponentId(0));

    let mut invalid = WorldAccess::new();
    invalid.components_mut().read(ComponentId(0));
    invalid.add_archetype(archetype);

    assert_ne!(invalid.validate(), Ok(()));
}

#[test]
fn access_read_and_write_report_first_use() {
    let mut access = Access::<ComponentId>::new();
    assert!(access.read(ComponentId(3)));
    assert!(access.reads(ComponentId(3)));
    assert!(!access.writes(ComponentId(3)));
    assert!(!access.write(ComponentId(3)));
    assert!(access.write(ComponentId(5)));
    assert!(!access.write(ComponentId(5)));
    assert!(!access.read(ComponentId(5)));
    assert_eq!(access.validate(), Err(3));
}

#[test]
fn access_conflicts_report_lowest_clash() {
    let mut a = Access::<ResourceId>::with_capacity(8);
    let mut b = Access::<ResourceId>::new();
    a.read(ResourceId(4));
    a.read(ResourceId(6));
    b.write(ResourceId(6));
    b.write(ResourceId(4));
    assert_eq!(a.conflicts(&b), Err(4));
    assert_eq!(b.conflicts(&a), Err(4));
    let c = Access::<ResourceId>::new();
    assert_eq!(a.conflicts(&c), Ok(()));
}

#[test]
fn access_collect_unites_reads_and_writes() {
    let mut a = Access::<ComponentId>::new();
    a.read(ComponentId(1));
    a.write(ComponentId(4));
    let bits = a.collect();
    assert_eq!(bits.ones().collect::<Vec<_>>(), vec![1, 4]);
    assert_eq!(bits.len(), 5);
}

#[test]
fn archetype_access_conflicts_unless_excluded() {
    let mut a = ArchetypeAccess::new();
    let mut b = ArchetypeAccess::new();
    a.write(ComponentId(2));
    b.read(ComponentId(2));
    assert!(!a.is_disjoint(&b));
    assert_eq!(a.conflicts(&b), Err(2));
    b.exclude(ComponentId(7));
    a.include_component(ComponentId(7));
    assert!(a.is_disjoint(&b));
    assert_eq!(a.conflicts(&b), Ok(()));
    let mut c = ArchetypeAccess::new();
    c.read_optional(ComponentId(2));
    c.write_optional(ComponentId(9));
    assert!(c.includes().is_clear());
    assert!(c.reads().contains(2));
    assert!(c.writes().contains(9));
}

#[test]
fn app_access_reports_resource_clash_first() {
    let mut app = AppAccess::default();
    app.resources.read(ResourceId(1));
    app.resources.write(ResourceId(1));
    app.components.read(ComponentId(0));
    app.components.write(ComponentId(0));
    assert_eq!(app.validate(), Err(AccessError::Resource(ResourceId(1))));
}

#[test]
fn app_access_conflicts_between_queries() {
    let mut a = AppAccess::default();
    let mut q = ArchetypeAccess::new();
    q.write(ComponentId(3));
    a.archetypes.push(q);
    let mut b = AppAccess::default();
    let mut p = ArchetypeAccess::new();
    p.read(ComponentId(3));
    b.archetypes.push(p);
    assert_eq!(a.conflicts(&b), Err(AccessError::Component(ComponentId(3))));
}

#[test]
fn world_access_extend_takes_queries() {
    let mut a = WorldAccess::default();
    let mut b = WorldAccess::new();
    b.add_archetype(ArchetypeAccess::new());
    b.main_mut().archetypes.push(ArchetypeAccess::new());
    a.extend(b);
    assert_eq!(a.validate(), Ok(()));
    assert!(a.components().get_read().is_clear());
    assert!(a.resources().get_write().is_clear());
}

#[test]
fn queries_are_checked_against_components_of_a_side_with_queries() {
    let mut writer = WorldAccess::new();
    writer.components_mut().write(ComponentId(0));

    let mut query = ArchetypeAccess::new();
    query.read(ComponentId(0));
    let mut reader = WorldAccess::new();
    reader.add_archetype(query);

    assert_eq!(writer.conflicts(&reader), Ok(()));
    assert_eq!(
        reader.conflicts(&writer),
        Err(AccessError::Component(ComponentId(0)))
    );
}

#[test]
fn collect_holds_reads_and_writes_up_to_the_highest() {
    let mut access = Access::<ComponentId>::new();
    access.read(ComponentId(1));
    access.write(ComponentId(3));
    let bits = access.collect();
    assert_eq!(bits.len(), 4);
    assert_eq!(bits.ones().collect::<Vec<_>>(), vec![1, 3]);
    assert_eq!(Access::<ComponentId>::new().collect().len(), 0);
}

#[test]
fn validate_reports_the_first_query_clash() {
    let mut app = AppAccess::default();
    app.components.read(ComponentId(7));
    let mut q0 = ArchetypeAccess::new();
    q0.read(ComponentId(1));
    let mut q1 = ArchetypeAccess::new();
    q1.write(ComponentId(3));
    q1.write(ComponentId(1));
    app.archetypes.push(q0);
    app.archetypes.push(q1);
    assert_eq!(app.validate(), Err(AccessError::Component(ComponentId(1))));

    let mut other = AppAccess::default();
    other.components.write(ComponentId(9));
    let mut q2 = ArchetypeAccess::new();
    q2.read(ComponentId(9));
    app.archetypes.clear();
    app.archetypes.push(q2);
    assert_eq!(app.conflicts(&other), Err(AccessError::Component(ComponentId(9))));
}
