use pseudokude::search::{solve_grid, SolveError};

/// Every row, column and house holds each value 1..=n exactly once.
fn is_valid_solution(g: &Vec<Vec<u16>>, n: usize, h: usize) -> bool {
    if g.len() != n {
        return false;
    }
    for row in g.iter() {
        if row.len() != n {
            return false;
        }
    }
    for r in 0..n {
        let mut seen = vec![false; n + 1];
        for c in 0..n {
            let v = g[r][c] as usize;
            if v < 1 || v > n || seen[v] {
                return false;
            }
            seen[v] = true;
        }
    }
    for c in 0..n {
        let mut seen = vec![false; n + 1];
        for r in 0..n {
            let v = g[r][c] as usize;
            if v < 1 || v > n || seen[v] {
                return false;
            }
            seen[v] = true;
        }
    }
    for br in (0..n).step_by(h) {
        for bc in (0..n).step_by(h) {
            let mut seen = vec![false; n + 1];
            for i in 0..h {
                for j in 0..h {
                    let v = g[br + i][bc + j] as usize;
                    if v < 1 || v > n || seen[v] {
                        return false;
                    }
                    seen[v] = true;
                }
            }
        }
    }
    true
}

/// A complete valid base grid of side n = h * h.
fn base_grid(n: usize, h: usize) -> Vec<Vec<u16>> {
    let mut g = Vec::new();
    for r in 0..n {
        let mut row = Vec::new();
        for c in 0..n {
            row.push((((h * (r % h) + r / h + c) % n) + 1) as u16);
        }
        g.push(row);
    }
    g
}

fn clues_preserved(input: &Vec<Vec<u16>>, out: &Vec<Vec<u16>>) -> bool {
    for (ri, row) in input.iter().enumerate() {
        for (ci, &v) in row.iter().enumerate() {
            if v != 0 && out[ri][ci] != v {
                return false;
            }
        }
    }
    true
}

#[test]
fn single_clue_nine_by_nine_solves() {
    let mut grid = vec![vec![0u16; 9]; 9];
    grid[0][0] = 5;
    let board = match solve_grid(&grid) {
        Ok(b) => b,
        Err(_) => panic!("expected a solution"),
    };
    let out = board.to_grid();
    assert!(is_valid_solution(&out, 9, 3));
    assert_eq!(out[0][0], 5);
    assert!(board.is_solved());
}

#[test]
fn duplicate_clues_in_one_row_unsolvable() {
    // one pair of identical clues in row 0 (columns 0 and 4); every other
    // clue is conflict-free, so the search must exhaust and report failure.
    let grid: Vec<Vec<u16>> = vec![
        vec![1, 2, 3, 4, 1, 6, 7, 8, 9],
        vec![4, 5, 6, 7, 8, 9, 1, 2, 3],
        vec![7, 8, 9, 0, 2, 3, 4, 0, 6],
        vec![2, 3, 4, 5, 6, 7, 8, 9, 1],
        vec![0, 6, 7, 8, 9, 1, 2, 3, 4],
        vec![8, 9, 1, 2, 3, 0, 5, 6, 7],
        vec![3, 4, 5, 6, 7, 8, 9, 1, 2],
        vec![6, 7, 8, 0, 0, 2, 3, 4, 5],
        vec![9, 1, 2, 3, 4, 5, 6, 7, 0],
    ];
    assert!(matches!(solve_grid(&grid), Err(SolveError::Unsolvable)));
}

#[test]
fn sixteen_by_sixteen_solves() {
    // a 16 x 16 grid (house size 4) with 37 blanks spread over the board.
    let mut grid = base_grid(16, 4);
    for r in 0..16 {
        for c in 0..16 {
            if (r * 16 + c) % 7 == 0 {
                grid[r][c] = 0;
            }
        }
    }
    let board = match solve_grid(&grid) {
        Ok(b) => b,
        Err(_) => panic!("expected a solution"),
    };
    let out = board.to_grid();
    assert!(is_valid_solution(&out, 16, 4));
    assert!(clues_preserved(&grid, &out));
}

#[test]
fn ten_by_ten_invalid_dimension() {
    let grid = vec![vec![0u16; 10]; 10];
    assert!(matches!(solve_grid(&grid), Err(SolveError::InvalidDimension)));
}

#[test]
fn ragged_row_invalid_dimension() {
    let grid = vec![
        vec![0u16, 0, 0, 0],
        vec![0u16, 0, 0],
        vec![0u16, 0, 0, 0],
        vec![0u16, 0, 0, 0],
    ];
    assert!(matches!(solve_grid(&grid), Err(SolveError::InvalidDimension)));
}

#[test]
fn repeated_runs_identical() {
    // a sparse grid with many solutions: the deterministic scan order must
    // reproduce the same one on every run.
    let mut grid = vec![vec![0u16; 9]; 9];
    grid[0][0] = 3;
    grid[4][4] = 7;
    grid[8][8] = 1;
    let out1 = match solve_grid(&grid) {
        Ok(b) => b.to_grid(),
        Err(_) => panic!("expected a solution"),
    };
    let out2 = match solve_grid(&grid) {
        Ok(b) => b.to_grid(),
        Err(_) => panic!("expected a solution"),
    };
    assert_eq!(out1, out2);
    assert!(is_valid_solution(&out1, 9, 3));
}

#[test]
fn nine_by_nine_puzzle_solves() {
    let grid: Vec<Vec<u16>> = vec![
        vec![0, 4, 5, 8, 7, 0, 9, 0, 0],
        vec![0, 0, 0, 9, 0, 0, 0, 0, 0],
        vec![2, 0, 8, 0, 6, 0, 0, 0, 4],
        vec![0, 1, 0, 2, 0, 0, 4, 0, 0],
        vec![9, 3, 0, 5, 4, 7, 2, 0, 0],
        vec![0, 0, 4, 6, 9, 0, 7, 0, 3],
        vec![0, 6, 0, 4, 8, 0, 0, 3, 1],
        vec![3, 8, 0, 7, 0, 2, 6, 0, 9],
        vec![0, 0, 0, 0, 0, 6, 0, 2, 7],
    ];
    let board = match solve_grid(&grid) {
        Ok(b) => b,
        Err(_) => panic!("expected a solution"),
    };
    let out = board.to_grid();
    assert!(is_valid_solution(&out, 9, 3));
    assert!(clues_preserved(&grid, &out));
}

#[test]
fn complete_grid_comes_back_unchanged() {
    let grid = base_grid(9, 3);
    let board = match solve_grid(&grid) {
        Ok(b) => b,
        Err(_) => panic!("expected a solution"),
    };
    let out = board.to_grid();
    assert_eq!(out, grid);
}

#[test]
fn one_by_one_solves() {
    let grid = vec![vec![0u16]];
    let out = match solve_grid(&grid) {
        Ok(b) => b.to_grid(),
        Err(_) => panic!("expected a solution"),
    };
    assert_eq!(out, vec![vec![1u16]]);
}

#[test]
fn four_by_four_solves() {
    let grid: Vec<Vec<u16>> = vec![
        vec![1, 0, 0, 0],
        vec![0, 0, 3, 0],
        vec![0, 4, 0, 0],
        vec![0, 0, 0, 2],
    ];
    let board = match solve_grid(&grid) {
        Ok(b) => b,
        Err(_) => panic!("expected a solution"),
    };
    let out = board.to_grid();
    assert!(is_valid_solution(&out, 4, 2));
    assert!(clues_preserved(&grid, &out));
}

#[test]
fn blank_marker_tracks_input() {
    let mut grid = vec![vec![0u16; 4]; 4];
    grid[0][0] = 1;
    grid[2][3] = 4;
    let board = match solve_grid(&grid) {
        Ok(b) => b,
        Err(_) => panic!("expected a solution"),
    };
    assert!(!board.was_empty_at(0, 0));
    assert!(!board.was_empty_at(2, 3));
    assert!(board.was_empty_at(1, 1));
}
