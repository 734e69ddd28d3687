use std::collections::{HashMap, HashSet};

use dancing_links_matrix::{
    ColumnSpec, DancingLinksMatrix, IterativeAlgorithmXSolver, MatrixBuilder,
};

fn specs(names: std::ops::RangeInclusive<usize>) -> Vec<ColumnSpec<usize>> {
    names.map(ColumnSpec::primary).collect()
}

fn solve(solver: &mut IterativeAlgorithmXSolver<usize>) -> Vec<HashMap<usize, Vec<usize>>> {
    let solutions = solver.solve();
    solutions.into_iter().map(|v| v.solution_map).collect()
}

fn check<'a>(
    actual: impl IntoIterator<Item = &'a usize>,
    expected: impl IntoIterator<Item = usize>,
) {
    let actual: HashSet<_> = actual.into_iter().copied().collect();
    let expected: HashSet<_> = expected.into_iter().collect();
    assert_eq!(actual, expected);
}

fn find_and_remove<T>(v: &mut Vec<T>, pred: impl Fn(&T) -> bool) -> Option<T> {
    let idx = v.iter().position(pred)?;
    Some(v.remove(idx))
}

#[test]
fn solve_single_sol() {
    let matrix = MatrixBuilder::from_iterable(specs(1..=6))
        .add_row(vec![1, 2])
        .unwrap()
        .add_row(vec![3, 4])
        .unwrap()
        .add_row(vec![5, 6])
        .unwrap()
        .add_row(vec![2, 3, 5])
        .unwrap()
        .build();

    let mut solver = IterativeAlgorithmXSolver::new(matrix, true, true);
    let mut solutions = solve(&mut solver);
    assert!(solutions.len() == 1);

    let solution = &mut solutions[0];

    check(solution.keys(), [1, 2, 3]);
    check(&solution.remove(&1).unwrap(), [1, 2]);
    check(&solution.remove(&2).unwrap(), [3, 4]);
    check(&solution.remove(&3).unwrap(), [5, 6]);
}

#[test]
fn solve_multiple_sol() {
    let matrix = MatrixBuilder::from_iterable(specs(1..=6))
        .add_row(vec![1, 2])
        .unwrap()
        .add_row(vec![3, 4])
        .unwrap()
        .add_row(vec![5, 6])
        .unwrap()
        .add_row(vec![2, 3, 5])
        .unwrap()
        .add_row(vec![1, 4, 6])
        .unwrap()
        .build();

    let mut solver = IterativeAlgorithmXSolver::new(matrix, true, false);
    let mut solutions = solve(&mut solver);
    assert_eq!(solutions.len(), 2);

    let mut solution = find_and_remove(&mut solutions, |v| v.len() == 3).unwrap();

    check(solution.keys(), [1, 2, 3]);
    check(&solution.remove(&1).unwrap(), [1, 2]);
    check(&solution.remove(&2).unwrap(), [3, 4]);
    check(&solution.remove(&3).unwrap(), [5, 6]);

    let mut solution = find_and_remove(&mut solutions, |v| v.len() == 2).unwrap();

    check(solution.keys(), [4, 5]);
    check(&solution.remove(&4).unwrap(), [2, 3, 5]);
    check(&solution.remove(&5).unwrap(), [1, 4, 6]);
}

#[test]
fn solve_first_sol() {
    let matrix = MatrixBuilder::from_iterable(specs(1..=4))
        .add_row(vec![1, 2])
        .unwrap()
        .add_row(vec![3, 4])
        .unwrap()
        .add_row(vec![2, 3])
        .unwrap()
        .add_row(vec![1, 4])
        .unwrap()
        .build();

    let mut solver = IterativeAlgorithmXSolver::new(matrix, true, true);
    let mut solutions = solve(&mut solver);
    assert_eq!(solutions.len(), 1);

    let solution = &mut solutions[0];
    let k: HashSet<_> = solution.keys().copied().collect();

    if k == HashSet::from_iter([1, 2]) {
        check(&solution.remove(&1).unwrap(), [1, 2]);
        check(&solution.remove(&2).unwrap(), [3, 4]);
    } else if k == HashSet::from_iter([3, 4]) {
        check(&solution.remove(&3).unwrap(), [3, 4]);
        check(&solution.remove(&4).unwrap(), [1, 4]);
    } else {
        panic!("Unexpected solution {k:?}");
    }
}

#[test]
fn solve_no_rows_primary_schema() {
    let matrix: DancingLinksMatrix<usize> =
        MatrixBuilder::from_iterable(specs(1..=3)).build();
    let mut solver = IterativeAlgorithmXSolver::new(matrix, true, false);
    let solutions = solver.solve();
    assert_eq!(solutions.len(), 0);
}

#[test]
fn solve_no_rows_secondary_schema() {
    let matrix: DancingLinksMatrix<usize> = MatrixBuilder::from_iterable(vec![
        ColumnSpec::secondary(1),
        ColumnSpec::secondary(2),
    ])
    .build();
    let mut solver = IterativeAlgorithmXSolver::new(matrix, true, false);
    let solutions = solver.solve();
    assert_eq!(solutions.len(), 1);
    assert!(solutions[0].solution_map.is_empty());
}

#[test]
fn solve_empty_column_backtracks() {
    // Column 2 has no rows, so nothing can cover it: the search backtracks
    // and emits nothing.
    let matrix = MatrixBuilder::from_iterable(specs(1..=2))
        .add_row(vec![1])
        .unwrap()
        .build();
    let mut solver = IterativeAlgorithmXSolver::new(matrix, true, false);
    let solutions = solver.solve();
    assert_eq!(solutions.len(), 0);
}

#[test]
fn solve_secondary_at_most_once() {
    // Item 3 is secondary: both rows cover it, so they cannot both be taken,
    // and each alone leaves a primary item uncovered except the pair {1,3},
    // {2}.
    let matrix = MatrixBuilder::from_iterable(vec![
        ColumnSpec::primary(1),
        ColumnSpec::primary(2),
        ColumnSpec::secondary(3),
    ])
    .add_row(vec![1, 3])
    .unwrap()
    .add_row(vec![2, 3])
    .unwrap()
    .add_row(vec![2])
    .unwrap()
    .build();
    let mut solver = IterativeAlgorithmXSolver::new(matrix, true, false);
    let mut solutions = solve(&mut solver);
    assert_eq!(solutions.len(), 1);
    let solution = &mut solutions[0];
    check(solution.keys(), [1, 3]);
    check(&solution.remove(&1).unwrap(), [1, 3]);
    check(&solution.remove(&3).unwrap(), [2]);
}

#[test]
fn solve_random_column_choice() {
    // With a unique exact cover, the random chooser must find the same
    // solution whatever columns it draws.
    let matrix = MatrixBuilder::from_iterable(specs(1..=6))
        .add_row(vec![1, 2])
        .unwrap()
        .add_row(vec![3, 4])
        .unwrap()
        .add_row(vec![5, 6])
        .unwrap()
        .add_row(vec![2, 3, 5])
        .unwrap()
        .build();

    let mut solver = IterativeAlgorithmXSolver::new(matrix, false, false);
    let mut solutions = solve(&mut solver);
    assert_eq!(solutions.len(), 1);
    let solution = &mut solutions[0];
    check(solution.keys(), [1, 2, 3]);
    check(&solution.remove(&1).unwrap(), [1, 2]);
    check(&solution.remove(&2).unwrap(), [3, 4]);
    check(&solution.remove(&3).unwrap(), [5, 6]);
}
