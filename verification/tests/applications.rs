use std::collections::HashSet;

use dancing_links_matrix::{ColumnSpec, IterativeAlgorithmXSolver, MatrixBuilder};

fn queens_names(n: usize) -> Vec<ColumnSpec<String>> {
    let mut names = Vec::new();
    for i in 0..n {
        names.push(ColumnSpec::primary(format!("R{i}")));
    }
    for i in 0..n {
        names.push(ColumnSpec::primary(format!("F{i}")));
    }
    for i in 0..2 * n - 1 {
        names.push(ColumnSpec::secondary(format!("A{i}")));
    }
    for i in 0..2 * n - 1 {
        names.push(ColumnSpec::secondary(format!("B{i}")));
    }
    names
}

fn queens_row(i: usize, j: usize, n: usize) -> Vec<usize> {
    [i, n + j, 2 * n + i + j, 5 * n - 2 - i + j].into_iter().map(|v| v + 1).collect()
}

#[test]
fn test_eight_queens() {
    let n = 8;
    let mut builder = MatrixBuilder::from_iterable(queens_names(n));
    for i in 0..n {
        for j in 0..n {
            builder = builder.add_sorted_row_index(queens_row(i, j, n));
        }
    }
    let matrix = builder.build();

    let mut solver = IterativeAlgorithmXSolver::new(matrix, true, true);
    let solutions = solver.solve();
    assert_eq!(solutions.len(), 1);

    let sol = &solutions[0];
    assert_eq!(sol.solution_map.len(), n);

    let mut placements = Vec::new();
    for names in sol.solution_map.values() {
        let mut v: Vec<&String> = names.iter().collect();
        v.sort();
        // sorted: A.., B.., F.., R..
        let file: usize = v[2][1..].parse().unwrap();
        let row: usize = v[3][1..].parse().unwrap();
        placements.push((row, file));
    }
    assert_eq!(placements.len(), n);
    let rows: HashSet<usize> = placements.iter().map(|p| p.0).collect();
    let files: HashSet<usize> = placements.iter().map(|p| p.1).collect();
    let diag_a: HashSet<usize> = placements.iter().map(|p| p.0 + p.1).collect();
    let diag_b: HashSet<isize> = placements.iter().map(|p| p.0 as isize - p.1 as isize).collect();
    assert_eq!(rows.len(), n);
    assert_eq!(files.len(), n);
    assert_eq!(diag_a.len(), n);
    assert_eq!(diag_b.len(), n);
}

fn sudoku_names() -> Vec<ColumnSpec<String>> {
    let mut names = Vec::new();
    for i in 1..=9 {
        for j in 1..=9 {
            names.push(ColumnSpec::primary(format!("R{i}C{j}")));
        }
    }
    for i in 1..=9 {
        for v in 1..=9 {
            names.push(ColumnSpec::primary(format!("R{i}#{v}")));
        }
    }
    for j in 1..=9 {
        for v in 1..=9 {
            names.push(ColumnSpec::primary(format!("C{j}#{v}")));
        }
    }
    for b in 1..=9 {
        for v in 1..=9 {
            names.push(ColumnSpec::primary(format!("B{b}#{v}")));
        }
    }
    names
}

fn sudoku_row(i: usize, j: usize, v: usize) -> Vec<usize> {
    let (i0, j0, v0) = (i - 1, j - 1, v - 1);
    let i1 = j0 + 9 * i0;
    let i2 = 81 + v0 + 9 * i0;
    let i3 = 81 * 2 + v0 + 9 * j0;
    let iq = i0 / 3;
    let jq = j0 / 3;
    let i4 = 81 * 3 + v0 + 9 * (3 * iq + jq);
    [i1, i2, i3, i4].into_iter().map(|v| v + 1).collect()
}

#[test]
fn test_sudoku_completion() {
    let board = [
        "53..7....",
        "6..195...",
        ".98....6.",
        "8...6...3",
        "4..8.3..1",
        "7...2...6",
        ".6....28.",
        "...419..5",
        "....8..79",
    ];
    let mut clues = Vec::new();
    for (i, line) in board.iter().enumerate() {
        for (j, c) in line.chars().enumerate() {
            if c != '.' {
                clues.push((i + 1, j + 1, c.to_digit(10).unwrap() as usize));
            }
        }
    }

    let mut builder = MatrixBuilder::from_iterable(sudoku_names());
    for i in 1..=9 {
        for j in 1..=9 {
            match clues.iter().find(|(ci, cj, _)| *ci == i && *cj == j) {
                Some((_, _, v)) => {
                    builder = builder.add_sorted_row_index(sudoku_row(i, j, *v));
                },
                None => {
                    for v in 1..=9 {
                        builder = builder.add_sorted_row_index(sudoku_row(i, j, v));
                    }
                },
            }
        }
    }
    let matrix = builder.build();

    let mut solver = IterativeAlgorithmXSolver::new(matrix, true, true);
    let solutions = solver.solve();
    assert_eq!(solutions.len(), 1);

    let mut grid = [[0usize; 9]; 9];
    for names in solutions[0].solution_map.values() {
        let mut i = 0;
        let mut j = 0;
        let mut v = 0;
        for name in names {
            let bytes: Vec<char> = name.chars().collect();
            if bytes[0] == 'R' && bytes[2] == 'C' {
                i = bytes[1].to_digit(10).unwrap() as usize;
                j = bytes[3].to_digit(10).unwrap() as usize;
            } else if bytes[0] == 'R' && bytes[2] == '#' {
                v = bytes[3].to_digit(10).unwrap() as usize;
            }
        }
        assert!(i >= 1 && j >= 1 && v >= 1);
        grid[i - 1][j - 1] = v;
    }

    // every clue is kept
    for (i, j, v) in clues {
        assert_eq!(grid[i - 1][j - 1], v);
    }
    // every row, file and box holds each digit exactly once
    for i in 0..9 {
        let row: HashSet<usize> = (0..9).map(|j| grid[i][j]).collect();
        assert_eq!(row, (1..=9).collect());
        let col: HashSet<usize> = (0..9).map(|j| grid[j][i]).collect();
        assert_eq!(col, (1..=9).collect());
        let boxed: HashSet<usize> =
            (0..9).map(|j| grid[3 * (i / 3) + j / 3][3 * (i % 3) + j % 3]).collect();
        assert_eq!(boxed, (1..=9).collect());
    }
}
