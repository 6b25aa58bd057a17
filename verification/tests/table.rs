use ecs::world::component::ComponentId;
use ecs::world::entity::Entity;
use ecs::frame::Frame;
use ecs::world::table::{Column, Row, TableBuilder, TableCell};

fn age_bytes(age: u32) -> Vec<u8> {
    age.to_ne_bytes().to_vec()
}

fn age_of(bytes: &[u8]) -> u32 {
    let mut raw = [0u8; 4];
    raw.copy_from_slice(bytes);
    u32::from_ne_bytes(raw)
}

#[test]
fn build_table() {
    let id = ComponentId(0);

    let table = TableBuilder::new().with_column(id, std::mem::size_of::<u32>()).build();
    let column = table.get_column(id).unwrap();

    assert!(column.is_empty());
    assert_eq!(column.len(), 0);
    assert!(table.has_component(id));
    assert!(!table.has_component(ComponentId(1)));
}

#[test]
fn table_add_entity() {
    let id = ComponentId(0);

    let entity = Entity::root(0);
    let mut row = Row::new();
    row.insert_cell(id, TableCell::new(age_bytes(0)));

    let mut table = TableBuilder::new().with_column(id, 4).build();
    let index = table.add_entity(entity, row);

    assert_eq!(index.0, 0);
    let column = table.get_column(id).unwrap();
    assert_eq!(age_of(&column.data()[0..4]), 0);
    assert_eq!(table.get_entity_row(entity).map(|r| r.0), Some(0));
    assert!(table.contains(entity));
}

#[test]
fn table_remove_entity() {
    let id = ComponentId(0);

    let entity = Entity::root(0);
    let mut row = Row::new();
    row.insert_cell(id, TableCell::new(age_bytes(0)));

    let mut table = TableBuilder::new().with_column(id, 4).build();
    table.add_entity(entity, row);

    let row = table.remove_entity(entity).unwrap();
    let age = row.get_cell(id).map(|cell| age_of(cell.data()));
    assert_eq!(age, Some(0));
    assert!(!table.contains(entity));
    assert!(table.remove_entity(entity).is_none());
}

#[test]
fn table_remove_moves_last_row_into_place() {
    let age = ComponentId(0);
    let size = ComponentId(3);
    let mut table = TableBuilder::new().with_column(age, 4).with_column(size, 4).build();
    let entities = [Entity::new(0, 1), Entity::new(1, 1), Entity::new(2, 1)];
    for (i, entity) in entities.iter().enumerate() {
        let mut row = Row::new();
        row.insert_cell(age, TableCell::new(age_bytes(10 + i as u32)));
        row.insert_cell(size, TableCell::new(age_bytes(100 + i as u32)));
        assert_eq!(table.add_entity(*entity, row).0, i as u32);
    }
    let removed = table.remove_entity(entities[0]).unwrap();
    assert_eq!(removed.get_cell(age).map(|c| age_of(c.data())), Some(10));
    assert_eq!(removed.get_cell(size).map(|c| age_of(c.data())), Some(100));
    assert_eq!(table.entities(), vec![entities[2], entities[1]]);
    assert_eq!(table.get_entity_row(entities[2]).map(|r| r.0), Some(0));
    let column = table.get_column(age).unwrap();
    assert_eq!(age_of(&column.data()[0..4]), 12);
    assert_eq!(age_of(&column.data()[4..8]), 11);
    assert_eq!(column.frames().len(), 2);
}

#[test]
fn column_push_and_remove_cells() {
    let mut column = Column::with_item_size(4);
    column.push_cell(TableCell::with_frame(age_bytes(7), Frame(3)));
    column.push_cell(TableCell::new(age_bytes(8)));
    column.push_cell(TableCell::new(age_bytes(9)));
    assert_eq!(column.len(), 3);
    let cell = column.remove(0).unwrap();
    assert_eq!(age_of(cell.data()), 7);
    assert_eq!(cell.frame().added, Frame(3));
    assert_eq!(age_of(&column.data()[0..4]), 8);
    let cell = column.swap_remove(0).unwrap();
    assert_eq!(age_of(cell.data()), 8);
    assert_eq!(age_of(column.data()), 9);
    let single = Column::from_cell(TableCell::new(age_bytes(5)));
    assert_eq!(single.len(), 1);
}
