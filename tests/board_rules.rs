use blockfill::board::{Board, Piece};

fn filled(b: &Board) -> usize {
    let mut n = 0;
    for x in 0..9 {
        for y in 0..9 {
            if b.get(x, y) {
                n += 1;
            }
        }
    }
    n
}

fn same(a: &Board, b: &Board) -> bool {
    for x in 0..9 {
        for y in 0..9 {
            if a.get(x, y) != b.get(x, y) {
                return false;
            }
        }
    }
    true
}

fn no_full_line(b: &Board) -> bool {
    for x in 0..9 {
        if (0..9).all(|y| b.get(x, y)) {
            return false;
        }
    }
    for y in 0..9 {
        if (0..9).all(|x| b.get(x, y)) {
            return false;
        }
    }
    true
}

#[test]
fn new_board_is_empty() {
    assert_eq!(filled(&Board::new()), 0);
}

#[test]
fn set_and_get() {
    let mut b = Board::new();
    b.set(2, 7, true);
    assert!(b.get(2, 7));
    assert!(!b.get(7, 2));
    b.set(2, 7, false);
    assert!(!b.get(2, 7));
}

#[test]
fn single_cell_round_trip() {
    let single: Piece = vec![(0, 0)];
    let b = Board::new();
    assert!(b.can_be_placed(&single, 0, 0));
    let after = b.place(&single, 0, 0);
    assert_eq!(filled(&after), 1);
    let mut expected = Board::new();
    expected.set(0, 0, true);
    assert!(same(&after, &expected));
}

#[test]
fn full_row_clears() {
    let mut b = Board::new();
    for y in 0..8 {
        b.set(0, y, true);
    }
    b.set(3, 3, true);
    b.set(8, 0, true);
    let single: Piece = vec![(0, 0)];
    assert!(b.can_be_placed(&single, 0, 8));
    let after = b.place(&single, 0, 8);
    for y in 0..9 {
        assert!(!after.get(0, y));
    }
    assert!(after.get(3, 3));
    assert!(after.get(8, 0));
    assert_eq!(filled(&after), 2);
}

#[test]
fn full_row_and_column_clear_in_row_then_column_order() {
    let mut b = Board::new();
    for k in 1..9 {
        b.set(0, k, true);
        b.set(k, 0, true);
    }
    let single: Piece = vec![(0, 0)];
    let after = b.place(&single, 0, 0);
    // The row pass empties row 0, cell (0, 0) included, so column 0 is no
    // longer full when the column pass looks at it: its other cells stay.
    for y in 0..9 {
        assert!(!after.get(0, y));
    }
    for x in 1..9 {
        assert!(after.get(x, 0));
    }
    assert_eq!(filled(&after), 8);
}

#[test]
fn column_clears() {
    let mut b = Board::new();
    for x in 0..9 {
        if x != 4 {
            b.set(x, 5, true);
        }
    }
    let domino: Piece = vec![(0, 0), (0, 1)];
    let after = b.place(&domino, 4, 4);
    for x in 0..9 {
        assert!(!after.get(x, 5));
    }
    assert!(after.get(4, 4));
    assert_eq!(filled(&after), 1);
}

#[test]
fn placement_keeps_cells_and_leaves_no_full_line() {
    let mut b = Board::new();
    for y in 0..6 {
        b.set(2, y, true);
    }
    let bar: Piece = vec![(0, 0), (0, 1), (0, 2)];
    assert!(b.can_be_placed(&bar, 5, 3));
    let after = b.place(&bar, 5, 3);
    assert_eq!(filled(&after), 9);
    assert!(no_full_line(&after));
    let completing = b.place(&bar, 2, 6);
    assert_eq!(filled(&completing), 0);
    assert!(no_full_line(&completing));
}

#[test]
fn clearing_twice_is_clearing_once() {
    let mut b = Board::new();
    for k in 0..9 {
        b.set(4, k, true);
        b.set(k, 6, true);
    }
    b.set(1, 1, true);
    b.clear_full_lines();
    let once = b;
    assert!(no_full_line(&once));
    b.clear_full_lines();
    assert!(same(&b, &once));
    assert!(b.get(1, 1));
    assert!(!b.get(4, 6));
    assert!(b.get(0, 6) && b.get(8, 6));
    assert_eq!(filled(&b), 9);
}

#[test]
fn can_be_placed_checks_edges_and_cells() {
    let mut b = Board::new();
    let l: Piece = vec![(0, 0), (1, 0), (1, 1)];
    assert!(b.can_be_placed(&l, 7, 7));
    assert!(!b.can_be_placed(&l, 8, 0));
    assert!(!b.can_be_placed(&l, 0, 8));
    b.set(4, 5, true);
    assert!(!b.can_be_placed(&l, 3, 4));
    assert!(!b.can_be_placed(&l, 3, 5));
    assert!(b.can_be_placed(&l, 3, 6));
}

#[test]
fn out_of_bounds_ignores_cells() {
    let mut b = Board::new();
    let bar: Piece = vec![(0, 0), (0, 1), (0, 2), (0, 3)];
    assert!(!b.placement_out_of_bounds(&bar, 8, 5));
    assert!(b.placement_out_of_bounds(&bar, 0, 6));
    assert!(b.placement_out_of_bounds(&bar, 9, 0));
    b.set(8, 5, true);
    assert!(!b.placement_out_of_bounds(&bar, 8, 5));
    assert!(!b.can_be_placed(&bar, 8, 5));
}

#[test]
fn try_place_checks_legality() {
    let mut b = Board::new();
    b.set(0, 1, true);
    let domino: Piece = vec![(0, 0), (0, 1)];
    assert!(b.try_place(&domino, 0, 0).is_none());
    assert!(b.try_place(&domino, 0, 8).is_none());
    let after = b.try_place(&domino, 1, 0).unwrap();
    assert!(after.get(1, 0) && after.get(1, 1) && after.get(0, 1));
    assert_eq!(filled(&after), 3);
}

#[test]
fn placement_count_counts_anchors() {
    let mut b = Board::new();
    let single: Piece = vec![(0, 0)];
    let five: Piece = vec![(0, 0), (0, 1), (0, 2), (0, 3), (0, 4)];
    assert_eq!(b.placement_count(&single), 81);
    assert_eq!(b.placement_count(&five), 45);
    b.set(0, 0, true);
    assert_eq!(b.placement_count(&single), 80);
    assert_eq!(b.placement_count(&five), 44);
}

#[test]
fn position_score_sums_and_penalises() {
    let single: Piece = vec![(0, 0)];
    let five: Piece = vec![(0, 0), (0, 1), (0, 2), (0, 3), (0, 4)];
    let catalog = vec![single, five];
    assert_eq!(Board::new().get_position_score(&catalog), 81 + 45);
    let mut b = Board::new();
    for x in 0..9 {
        for y in 0..9 {
            if (x + y) % 2 == 0 {
                b.set(x, y, true);
            }
        }
    }
    // Single cells fit on the 40 empty cells; no row has five empty in a row.
    assert_eq!(b.get_position_score(&catalog), 40 - 100);
    assert_eq!(b.get_position_score(&vec![]), 0);
}
