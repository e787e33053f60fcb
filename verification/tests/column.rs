use t51core::column::{Column, ShardedColumn};
use t51core::identity::EntityId;

fn filled() -> ShardedColumn<u32> {
    let mut column: ShardedColumn<u32> = ShardedColumn::new();
    let first = column.new_section();
    let second = column.new_section();
    assert_eq!((first, second), (0, 1));
    let mut values = vec![10, 11, 12];
    column.ingest(&[EntityId(5), EntityId(6), EntityId(7)], &mut values, 1);
    assert!(values.is_empty());
    let mut more = vec![20];
    column.ingest(&[EntityId(9)], &mut more, 0);
    column
}

#[test]
fn column_ingest_places_entities_after_existing_values() {
    let mut column = filled();
    assert_eq!(column.section_len(0), 1);
    assert_eq!(column.section_len(1), 3);
    assert_eq!(column.get_coords(EntityId(5)), Some((1, 0)));
    assert_eq!(column.get_coords(EntityId(7)), Some((1, 2)));
    assert_eq!(column.get_coords(EntityId(9)), Some((0, 0)));
    assert_eq!(column.get_coords(EntityId(8)), None);

    let mut values = vec![13, 14];
    column.ingest(&[EntityId(1), EntityId(2)], &mut values, 1);
    assert_eq!(column.section_len(1), 5);
    assert_eq!(column.get_coords(EntityId(2)), Some((1, 4)));
    assert_eq!(column.get(1, 3), Some(&13));
    assert_eq!(column.get(1, 5), None);
}

#[test]
fn column_swap_remove_moves_last_value_into_place() {
    let mut column = filled();
    assert_eq!(column.swap_remove(EntityId(5), 1), Some(10));
    assert_eq!(column.section_len(1), 2);
    assert_eq!(column.get_coords(EntityId(5)), None);
    assert_eq!(column.get_coords(EntityId(7)), Some((1, 0)));
    assert_eq!(column.get(1, 0), Some(&12));
    assert_eq!(column.get(1, 1), Some(&11));
}

#[test]
fn column_swap_remove_of_last_value_forgets_it() {
    let mut column = filled();
    assert_eq!(column.swap_remove(EntityId(7), 1), Some(12));
    assert_eq!(column.get_coords(EntityId(7)), None);
    assert_eq!(column.get_coords(EntityId(6)), Some((1, 1)));
    assert_eq!(column.section_len(1), 2);
}

#[test]
fn column_swap_remove_of_unknown_entity_changes_nothing() {
    let mut column = filled();
    assert_eq!(column.swap_remove(EntityId(42), 1), None);
    assert_eq!(column.section_len(1), 3);
    assert_eq!(column.get(1, 2), Some(&12));
}

#[test]
fn column_update_replaces_one_value() {
    let mut column = filled();
    column.update(99, 1, 1);
    assert_eq!(column.get(1, 0), Some(&10));
    assert_eq!(column.get(1, 1), Some(&99));
    assert_eq!(column.get(1, 2), Some(&12));
    assert_eq!(column.get_coords(EntityId(6)), Some((1, 1)));
}

#[test]
fn column_trait_drops_values_whatever_their_type() {
    let mut column = filled();
    let third = Column::new_section(&mut column);
    assert_eq!(third, 2);
    assert_eq!(Column::section_len(&column, 2), 0);
    Column::swap_remove(&mut column, EntityId(6), 1);
    assert_eq!(Column::section_len(&column, 1), 2);
    assert_eq!(column.get_coords(EntityId(6)), None);
    assert_eq!(column.get_coords(EntityId(7)), Some((1, 1)));
    Column::swap_remove(&mut column, EntityId(6), 1);
    assert_eq!(Column::section_len(&column, 1), 2);
}
