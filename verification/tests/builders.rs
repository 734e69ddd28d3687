use dancing_links_matrix::{
    ColumnName, ColumnSpec, DancingLinksMatrix, MatrixBuilder,
};

/// Matrix:
/// ```md
/// | 0   | 1   | 2   | 3   |
/// | --- | --- | --- | --- |
/// |     | 4   | 5   |     |
/// |     | 6   |     | 7   |
/// |     |     | 8   | 9   |
/// |     | 10  | 11  | 12  |
/// ```
fn build_matrix() -> DancingLinksMatrix<String> {
    MatrixBuilder
        .add_column(ColumnSpec::primary(1.to_string()))
        .add_column(ColumnSpec::primary(2.to_string()))
        .add_column(ColumnSpec::primary(3.to_string()))
        .end_columns()
        .add_sorted_row(create_row(["1", "2"]))
        .unwrap()
        .add_sorted_row(create_row(["1", "3"]))
        .unwrap()
        .add_sorted_row(create_row(["2", "3"]))
        .unwrap()
        .add_sorted_row(create_row(["1", "2", "3"]))
        .unwrap()
        .build()
}

fn create_row<const N: usize>(v: [&str; N]) -> Vec<String> {
    v.iter().map(|v| v.to_string()).collect()
}

#[test]
fn test_builder_columns() {
    let matrix = build_matrix();

    assert_eq!(matrix.row_count(), 4);
    assert_eq!(matrix.column_count(), 3);

    assert_eq!(matrix.cell_count(), 13);

    check_column(&matrix, 0, ColumnName::First);
    check_column(&matrix, 1, ColumnName::Other("1".to_string()));
    check_column(&matrix, 2, ColumnName::Other("2".to_string()));
    check_column(&matrix, 3, ColumnName::Other("3".to_string()));
}

#[test]
fn test_builder_cells() {
    let matrix = build_matrix();

    assert_eq!(matrix.row_count(), 4);
    assert_eq!(matrix.column_count(), 3);

    assert_eq!(matrix.cell_count(), 13);

    check_cell(&matrix, 0, 0, 0, 3, 1, 0);
    check_cell(&matrix, 1, 10, 4, 0, 2, 1);
    check_cell(&matrix, 2, 11, 5, 1, 3, 2);
    check_cell(&matrix, 3, 12, 7, 2, 0, 3);

    check_cell(&matrix, 4, 1, 6, 5, 5, 1);
    check_cell(&matrix, 5, 2, 8, 4, 4, 2);

    check_cell(&matrix, 6, 4, 10, 7, 7, 1);
    check_cell(&matrix, 7, 3, 9, 6, 6, 3);

    check_cell(&matrix, 8, 5, 11, 9, 9, 2);
    check_cell(&matrix, 9, 7, 12, 8, 8, 3);

    check_cell(&matrix, 10, 6, 1, 12, 11, 1);
    check_cell(&matrix, 11, 8, 2, 10, 12, 2);
    check_cell(&matrix, 12, 9, 3, 11, 10, 3);
}

fn check_cell(
    matrix: &DancingLinksMatrix<String>,
    index: usize,
    up: usize,
    down: usize,
    left: usize,
    right: usize,
    column: usize,
) {
    assert_eq!(matrix.cell_up(index), up);
    assert_eq!(matrix.cell_down(index), down);
    assert_eq!(matrix.cell_left(index), left);
    assert_eq!(matrix.cell_right(index), right);
    assert_eq!(matrix.cell_header(index), column);
}

fn check_column(matrix: &DancingLinksMatrix<String>, index: usize, name: ColumnName<String>) {
    assert_eq!(*matrix.header_name(index), name);
    assert_eq!(matrix.cell_header(index), index);
}

#[test]
fn test_locate_cell() {
    let matrix = build_matrix();

    assert_eq!(matrix.locate_cell(1, &"1".to_string()).unwrap(), 4);
    assert_eq!(matrix.locate_cell(1, &"2".to_string()).unwrap(), 5);
    assert_eq!(matrix.locate_cell(1, &"3".to_string()), None);
    assert_eq!(matrix.locate_cell(2, &"1".to_string()).unwrap(), 6);
    assert_eq!(matrix.locate_cell(2, &"2".to_string()), None);
    assert_eq!(matrix.locate_cell(2, &"3".to_string()).unwrap(), 7);
}

#[test]
fn test_locate_column() {
    let matrix = build_matrix();
    assert_eq!(matrix.locate_header(&"1".to_string()).unwrap(), 1);
    assert_eq!(matrix.locate_header(&"2".to_string()).unwrap(), 2);
    assert_eq!(matrix.locate_header(&"6".to_string()), None);
}

#[test]
fn test_iterator() {
    let matrix = build_matrix();

    let mut it = matrix.iter_rows().into_iter();

    fn n(v: Option<Vec<String>>) -> Vec<String> {
        let mut v = v.unwrap();
        v.sort();
        v
    }

    assert_eq!(n(it.next()), ["1", "2"]);
    assert_eq!(n(it.next()), ["1", "3"]);
    assert_eq!(n(it.next()), ["2", "3"]);
    assert_eq!(n(it.next()), ["1", "2", "3"]);
    assert_eq!(it.next(), None);
}

#[test]
fn test_iterator_no_rows() {
    let matrix = MatrixBuilder
        .add_column(ColumnSpec::primary("1".to_string()))
        .add_column(ColumnSpec::primary("2".to_string()))
        .add_column(ColumnSpec::primary("3".to_string()))
        .end_columns()
        .build();

    let mut it = matrix.iter_rows().into_iter();
    assert_eq!(it.next(), None);
}

fn build_matrix_key() -> DancingLinksMatrix<usize> {
    MatrixBuilder
        .add_column(ColumnSpec::primary(1))
        .add_column(ColumnSpec::primary(2))
        .add_column(ColumnSpec::primary(3))
        .end_columns()
        .add_sorted_row_index(vec![1, 2])
        .add_sorted_row_index(vec![1, 3])
        .add_sorted_row_index(vec![2, 3])
        .add_sorted_row_index(vec![1, 2, 3])
        .build()
}

#[test]
fn matrix_test_locate_cell() {
    let matrix = build_matrix_key();
    assert_eq!(matrix.locate_cell(1, &1).unwrap(), 4);
    assert_eq!(matrix.locate_cell(1, &2).unwrap(), 5);
    assert_eq!(matrix.locate_cell(1, &3), None);
    assert_eq!(matrix.locate_cell(2, &1).unwrap(), 6);
    assert_eq!(matrix.locate_cell(2, &2), None);
    assert_eq!(matrix.locate_cell(2, &3).unwrap(), 7);
}

#[test]
fn test_locate_header() {
    let matrix = build_matrix_key();
    assert_eq!(matrix.locate_header(&1).unwrap(), 1);
    assert_eq!(matrix.locate_header(&2).unwrap(), 2);
    assert_eq!(matrix.locate_header(&6), None);
}

#[test]
fn matrix_test_iterator() {
    let matrix = build_matrix_key();

    let mut it = matrix.iter_rows().into_iter();
    let rows = matrix.row_count();
    assert_eq!(rows, 4);

    fn n(v: Option<Vec<usize>>) -> Vec<usize> {
        let mut v = v.unwrap();
        v.sort();
        v
    }

    assert_eq!(n(it.next()), [1, 2]);
    assert_eq!(n(it.next()), [1, 3]);
    assert_eq!(n(it.next()), [2, 3]);
    assert_eq!(n(it.next()), [1, 2, 3]);
    assert_eq!(it.next(), None);
}

#[test]
fn matrix_test_iterator_no_rows() {
    let matrix = MatrixBuilder
        .add_column(ColumnSpec::primary(1))
        .add_column(ColumnSpec::primary(2))
        .add_column(ColumnSpec::primary(3))
        .end_columns()
        .build();

    let it = matrix.iter_rows();
    assert_eq!(it.len(), 0);
    assert_eq!(it.into_iter().next(), None);
}

#[test]
fn test_builder_introspection() {
    let matrix = MatrixBuilder::from_iterable(vec![
        ColumnSpec::primary("1".to_string()),
        ColumnSpec::primary("2".to_string()),
        ColumnSpec::primary("3".to_string()),
    ])
    .add_row(create_row(["1", "2"]))
    .unwrap()
    .add_row(create_row(["1", "3"]))
    .unwrap()
    .add_row(create_row(["2", "3"]))
    .unwrap()
    .add_row(create_row(["1", "2", "3"]))
    .unwrap()
    .build();

    assert_eq!(matrix.row_count(), 4);
    assert_eq!(matrix.column_count(), 3);

    let rows: Vec<Vec<String>> = matrix.iter_rows();
    let expected: Vec<Vec<&str>> =
        vec![vec!["1", "2"], vec!["1", "3"], vec!["2", "3"], vec!["1", "2", "3"]];
    assert_eq!(rows.len(), expected.len());
    for (row, exp) in rows.iter().zip(expected.iter()) {
        let mut got: Vec<&str> = row.iter().map(|s| s.as_str()).collect();
        got.sort();
        let mut want = exp.clone();
        want.sort();
        assert_eq!(got, want);
    }
}

#[test]
fn test_unknown_item_is_rejected() {
    let builder = MatrixBuilder::from_iterable(vec![
        ColumnSpec::primary("1".to_string()),
        ColumnSpec::primary("2".to_string()),
    ]);
    let result = builder.add_row(create_row(["1", "7"]));
    assert!(matches!(
        result,
        Err(dancing_links_matrix::builders::BuilderError::UnknownItem)
    ));
}

#[test]
fn test_min_column_prefers_small_columns() {
    let matrix = MatrixBuilder
        .add_column(ColumnSpec::primary(1))
        .add_column(ColumnSpec::primary(2))
        .add_column(ColumnSpec::primary(3))
        .end_columns()
        .add_sorted_row_index(vec![1, 2])
        .add_sorted_row_index(vec![2, 3])
        .add_sorted_row_index(vec![2])
        .build();

    // sizes: column 1 -> 1, column 2 -> 3, column 3 -> 1; ties go to the
    // least index.
    assert_eq!(matrix.min_column(), Some(1));
}
