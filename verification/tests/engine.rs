use pseudokude::board::Board;

fn board_from(grid: &Vec<Vec<u16>>) -> Board {
    let mut b = Board::new(grid.len());
    b.init(grid);
    b
}

#[test]
fn candidates_are_exact_after_rescan() {
    let grid: Vec<Vec<u16>> = vec![
        vec![1, 2, 0, 0],
        vec![0, 0, 0, 0],
        vec![0, 3, 0, 0],
        vec![0, 0, 0, 4],
    ];
    let mut b = board_from(&grid);
    b.update_all_cand();
    // cell (0,2): row holds 1 and 2; its column and house hold nothing.
    assert_eq!(b.candidates_at(0, 2), vec![3, 4]);
    // cell (1,0): column holds 1, row nothing, house holds 1 and 2.
    assert_eq!(b.candidates_at(1, 0), vec![3, 4]);
    // cell (1,1): house holds 1 and 2, column holds 2 and 3.
    assert_eq!(b.candidates_at(1, 1), vec![4]);
    // assigned cells are not recomputed: their candidate lists stay empty.
    assert_eq!(b.candidates_at(0, 0), Vec::<u16>::new());
    assert_eq!(b.candidates_at(0, 1), Vec::<u16>::new());
    // a second rescan changes nothing.
    let before = b.snapshot();
    b.update_all_cand();
    for i in 0..4 {
        for j in 0..4 {
            assert_eq!(b.digit_at(i, j), before.digit_at(i, j));
            assert_eq!(b.candidates_at(i, j), before.candidates_at(i, j));
        }
    }
}

#[test]
fn rescan_and_localized_propagation_agree() {
    // assign one cell of a sparse board, then recompute candidates once by
    // localized propagation and once by full rescan: every cell must end
    // with identical candidate lists.
    let mut grid = vec![vec![0u16; 9]; 9];
    grid[3][5] = 2;
    grid[7][1] = 6;
    let n = 9usize;

    let mut local = board_from(&grid);
    local.update_all_cand();
    let mut rescan = board_from(&grid);
    rescan.update_all_cand();

    let t = 4 * n + 4;
    let d = 9u16;
    assert!(local.candidates_at(4, 4).contains(&d));

    local.set_digit(t, d);
    local.update_cand(t);

    rescan.set_digit(t, d);
    rescan.update_all_cand();

    for i in 0..n {
        for j in 0..n {
            assert_eq!(local.digit_at(i, j), rescan.digit_at(i, j));
            if local.digit_at(i, j) == 0 {
                assert_eq!(
                    local.candidates_at(i, j),
                    rescan.candidates_at(i, j),
                    "candidate sets diverge at ({}, {})",
                    i,
                    j
                );
            }
        }
    }
}

#[test]
fn forced_single_is_committed() {
    // row 0 already holds 1..=8, so 9 is forced into its last cell.
    let grid: Vec<Vec<u16>> = vec![
        vec![1, 2, 3, 4, 5, 6, 7, 8, 0],
        vec![0, 0, 0, 0, 0, 0, 0, 0, 0],
        vec![0, 0, 0, 0, 0, 0, 0, 0, 0],
        vec![0, 0, 0, 0, 0, 0, 0, 0, 0],
        vec![0, 0, 0, 0, 0, 0, 0, 0, 0],
        vec![0, 0, 0, 0, 0, 0, 0, 0, 0],
        vec![0, 0, 0, 0, 0, 0, 0, 0, 0],
        vec![0, 0, 0, 0, 0, 0, 0, 0, 0],
        vec![0, 0, 0, 0, 0, 0, 0, 0, 0],
    ];
    let mut b = board_from(&grid);
    b.update_all_cand();
    b.process_of_elimination();
    assert_eq!(b.digit_at(0, 8), 9);
    assert!(!b.is_solved());
}

#[test]
fn cascade_assigns_naked_singles() {
    // a 4x4 board where assigning the last blank of row 0 collapses
    // further cells to single candidates.
    let grid: Vec<Vec<u16>> = vec![
        vec![1, 2, 3, 0],
        vec![3, 4, 0, 2],
        vec![2, 1, 4, 3],
        vec![4, 3, 0, 1],
    ];
    let mut b = board_from(&grid);
    b.update_all_cand();
    b.process_of_elimination();
    assert!(b.is_solved());
    assert_eq!(b.digit_at(0, 3), 4);
    assert_eq!(b.digit_at(1, 2), 1);
    assert_eq!(b.digit_at(3, 2), 2);
}

#[test]
fn candidates_exclude_all_peer_digits() {
    let grid: Vec<Vec<u16>> = vec![
        vec![1, 2, 0, 0],
        vec![0, 0, 0, 0],
        vec![0, 3, 0, 0],
        vec![0, 0, 0, 4],
    ];
    let mut b = board_from(&grid);
    b.update_all_cand();
    // peers of (3,1): its row holds 4, its column holds 2 and 3, and its
    // house holds 3 -- only 1 is left.
    assert_eq!(b.candidates_at(3, 1), vec![1]);
}

#[test]
fn solved_flag_set_on_complete_board() {
    let grid: Vec<Vec<u16>> = vec![
        vec![1, 2, 3, 4],
        vec![3, 4, 1, 2],
        vec![2, 1, 4, 3],
        vec![4, 3, 2, 1],
    ];
    let mut b = board_from(&grid);
    b.update_all_cand();
    b.process_of_elimination();
    assert!(b.is_solved());
}

#[test]
fn snapshot_is_deep() {
    let grid: Vec<Vec<u16>> = vec![
        vec![1, 0, 0, 0],
        vec![0, 0, 0, 0],
        vec![0, 0, 0, 0],
        vec![0, 0, 0, 0],
    ];
    let mut b = board_from(&grid);
    b.update_all_cand();
    let snap = b.snapshot();
    let t = 1usize * 4 + 1;
    b.set_digit(t, 3);
    b.update_cand(t);
    assert_eq!(b.digit_at(1, 1), 3);
    assert_eq!(snap.digit_at(1, 1), 0);
}

#[test]
fn coords_to_digits_in_area_order() {
    let grid: Vec<Vec<u16>> = vec![
        vec![1, 2, 0, 0],
        vec![0, 0, 0, 0],
        vec![0, 3, 0, 0],
        vec![0, 0, 0, 4],
    ];
    let mut b = board_from(&grid);
    b.update_all_cand();
    // digits of column 1, read top to bottom from the flat indices: the
    // assigned cells contribute 2 then 3, in that order.
    let area: Vec<usize> = vec![1, 5, 9, 13];
    assert_eq!(b.coords_to_digits(&area, false), vec![2, 3]);
    // the same area read for candidates concatenates the unassigned
    // cells' ascending candidate lists in area order.
    let cands = b.coords_to_digits(&area, true);
    let c11 = b.candidates_at(1, 1);
    let c31 = b.candidates_at(3, 1);
    let mut expected = c11.clone();
    expected.extend(c31.iter().copied());
    assert_eq!(cands, expected);
}

#[test]
fn cascade_leaves_no_naked_single() {
    // after a fresh rescan plus one localized propagation, no cell in the
    // assigned cell's area-of-effect keeps exactly one candidate.
    let mut grid = vec![vec![0u16; 4]; 4];
    grid[0][0] = 1;
    let mut b = board_from(&grid);
    b.update_all_cand();
    let t = 1usize * 4 + 1;
    b.set_digit(t, 2);
    b.update_cand(t);
    for i in 0..4 {
        for j in 0..4 {
            if b.digit_at(i, j) == 0 {
                assert_ne!(b.candidates_at(i, j).len(), 1);
            }
        }
    }
}

#[test]
fn board_shape_getters() {
    let grid = vec![vec![0u16; 9]; 9];
    let b = board_from(&grid);
    assert_eq!(b.size(), 9);
    assert_eq!(b.house_size(), 3);
}
