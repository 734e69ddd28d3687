use dancing_links_matrix::{ColumnSpec, DancingLinksMatrix, MatrixBuilder};

fn build_matrix() -> DancingLinksMatrix<usize> {
    MatrixBuilder
        .add_column(ColumnSpec::primary(1))
        .add_column(ColumnSpec::primary(2))
        .add_column(ColumnSpec::primary(3))
        .end_columns()
        .add_sorted_row_index(vec![1, 2])
        .add_sorted_row_index(vec![1, 3])
        .add_sorted_row_index(vec![2, 3])
        .add_sorted_row_index(vec![1, 2, 3])
        .build()
}

fn snapshot(matrix: &DancingLinksMatrix<usize>) -> Vec<(usize, usize, usize, usize, usize, usize)> {
    let mut v = Vec::new();
    for i in 0..matrix.cell_count() {
        v.push((
            matrix.cell_up(i),
            matrix.cell_down(i),
            matrix.cell_left(i),
            matrix.cell_right(i),
            matrix.cell_header(i),
            if i < matrix.column_count() + 1 { matrix.header_size(i) } else { 0 },
        ));
    }
    v
}

#[test]
fn test_cover_uncover_restores_links() {
    let mut matrix = build_matrix();
    let before = snapshot(&matrix);

    matrix.cover(1);
    let covered = snapshot(&matrix);
    assert_ne!(before, covered);
    // the covered header leaves the header ring
    assert_eq!(matrix.cell_right(0), 2);
    assert_eq!(matrix.cell_left(2), 0);
    // the rows of column 1 leave the other columns' vertical rings
    assert_eq!(matrix.header_size(2), 1);
    assert_eq!(matrix.header_size(3), 1);

    matrix.uncover(1);
    let after = snapshot(&matrix);
    assert_eq!(before, after);
}

#[test]
fn test_cover_uncover_lifo_pairs() {
    let mut matrix = build_matrix();
    let before = snapshot(&matrix);

    matrix.cover(1);
    matrix.cover(2);
    matrix.cover(3);
    matrix.uncover(3);
    matrix.uncover(2);
    matrix.uncover(1);

    assert_eq!(before, snapshot(&matrix));

    matrix.cover(2);
    matrix.uncover(2);
    matrix.cover(3);
    matrix.cover(1);
    matrix.uncover(1);
    matrix.uncover(3);

    assert_eq!(before, snapshot(&matrix));
}

#[test]
fn test_cover_removes_column_from_queue() {
    let mut matrix = build_matrix();
    // sizes: column 1 -> 3, column 2 -> 3, column 3 -> 3; minimum is the
    // least index.
    assert_eq!(matrix.min_column(), Some(1));
    matrix.cover(1);
    // column 1 left the queue; the sizes of columns 2 and 3 dropped to 2.
    assert_eq!(matrix.min_column(), Some(2));
    matrix.cover(2);
    assert_eq!(matrix.min_column(), Some(3));
    matrix.uncover(2);
    matrix.uncover(1);
    assert_eq!(matrix.min_column(), Some(1));
    assert_eq!(matrix.header_size(1), 3);
    assert_eq!(matrix.header_size(2), 3);
    assert_eq!(matrix.header_size(3), 3);
}
