use dancing_links_matrix::{Cell, CellRow, ColumnInfo, ColumnName, ProtoCell, ProtoColumn};

#[test]
fn test_cell_new() {
    let cell = Cell::new(42, 2, CellRow::Data(3));
    assert_eq!(cell.index, 42);
    assert_eq!(cell.up, 42);
    assert_eq!(cell.down, 42);
    assert_eq!(cell.left, 42);
    assert_eq!(cell.right, 42);
    assert_eq!(cell.header, 2);
    assert_eq!(cell.row, CellRow::Data(3));
}

#[test]
fn test_proto_cell_new() {
    let proto = ProtoCell::new(42, 3, CellRow::Header);
    assert_eq!(proto.index, 42);
    assert_eq!(proto.column, 3);
    assert_eq!(proto.row, CellRow::Header);
    assert_eq!(proto.up, 42);
    assert_eq!(proto.down, 42);
    assert_eq!(proto.left, 42);
    assert_eq!(proto.right, 42);
}

#[test]
fn test_proto_column_new() {
    let proto = ProtoColumn::<()>::new(42, ColumnName::First, true);
    assert_eq!(proto.index, 42);
    assert_eq!(proto.name, ColumnName::First);
    assert_eq!(proto.size, 0);
    assert!(proto.primary);

    let proto2 = ProtoColumn::new(42, ColumnName::Other(1), false);
    assert_eq!(proto2.name, ColumnName::Other(1));
    assert!(!proto2.primary);
}

#[test]
fn test_column_new() {
    let column = ColumnInfo::new(ColumnName::Other(1), 3, 2, true);
    assert_eq!(column.name, ColumnName::Other(1));
    assert_eq!(column.size, 2);
    assert_eq!(column.index, 3);
    assert!(column.primary);
    assert!(!column.has_cell());

    let column = ColumnInfo::<u32>::new(ColumnName::First, 10, 8, false);
    assert_eq!(column.name, ColumnName::First);
    assert_eq!(column.size, 8);
    assert_eq!(column.index, 10);
    assert!(!column.primary);
    assert!(!column.has_cell());
}

#[test]
fn test_column_from_proto() {
    let proto = ProtoColumn::new(42, ColumnName::Other(1), true);
    let column = ColumnInfo::from_proto(proto.clone());
    assert_eq!(column.name, ColumnName::Other(1));
    assert_eq!(column.size, 0);
    assert_eq!(column.index, 42);
    assert!(!column.has_cell());
    assert!(column.primary);

    let mut proto = proto;
    proto.primary = false;
    let column = ColumnInfo::from_proto(proto);
    assert!(!column.primary);
}

#[test]
fn test_column_update_pointer() {
    let mut column = ColumnInfo::<u32>::new(ColumnName::First, 10, 8, true);
    let cell = Cell::new(42, 10, CellRow::Header);

    column.update_pointer(cell.index);

    assert_eq!(column.cell, Some(42));
    assert!(column.has_cell());
}

#[test]
fn test_column_size() {
    let mut column = ColumnInfo::new(ColumnName::Other(1), 3, 1, true);
    assert_eq!(column.size, 1);

    assert_eq!(column.increase_size(), 2);
    assert_eq!(column.size, 2);

    assert_eq!(column.decrease_size(), 1);
    assert_eq!(column.size, 1);

    column.increase_size();
    assert_eq!(column.size, 2);

    column.decrease_size();
    assert_eq!(column.size, 1);

    column.decrease_size();
    assert_eq!(column.size, 0);

    assert!(column.empty());

    column.increase_size();
    assert_eq!(column.size, 1);
}
