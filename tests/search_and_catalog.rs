use blockfill::board::{Board, Piece};
use blockfill::catalog::{centerize_piece, get_pieces};
use blockfill::game::play_hand;
use blockfill::hand::get_3_random_piece_indexes;
use blockfill::search::{catalog_is_valid, hand_is_valid, PiecePlay};

fn single() -> Piece {
    vec![(0, 0)]
}

fn domino() -> Piece {
    vec![(0, 0), (0, 1)]
}

fn full_board() -> Board {
    let mut b = Board::new();
    for x in 0..9 {
        for y in 0..9 {
            b.set(x, y, true);
        }
    }
    b
}

#[test]
fn empty_hand_scores_the_board() {
    let catalog = vec![single(), domino()];
    let mut b = Board::new();
    b.set(3, 3, true);
    let r = b.figure_out_moves(&catalog, &vec![]);
    assert_eq!(r.total_count, 1);
    assert_eq!(r.best_score, b.get_position_score(&catalog));
    assert_eq!(r.best_score, 80 + 70);
    assert!(r.played_pieces.is_empty());
}

#[test]
fn full_board_has_no_completion() {
    let catalog = vec![single(), domino()];
    let b = full_board();
    for hand in [vec![0], vec![1], vec![0, 1], vec![1, 1, 0]] {
        let r = b.figure_out_moves(&catalog, &hand);
        assert_eq!(r.total_count, 0);
        assert_eq!(r.best_score, 0);
        assert!(r.played_pieces.is_empty());
    }
}

#[test]
fn single_piece_first_best_is_kept() {
    let catalog = vec![single()];
    let r = Board::new().figure_out_moves(&catalog, &vec![0]);
    assert_eq!(r.total_count, 81);
    assert_eq!(r.best_score, 80);
    assert_eq!(r.played_pieces, vec![PiecePlay { piece_index: 0, x: 0, y: 0 }]);
}

#[test]
fn negative_scores_are_never_chosen() {
    let mut big: Piece = vec![];
    for r in 0..5 {
        for c in 0..8 {
            big.push((r, c));
        }
    }
    let catalog = vec![big];
    let r = Board::new().figure_out_moves(&catalog, &vec![0]);
    assert_eq!(r.total_count, 10);
    assert_eq!(r.best_score, 0);
    assert!(r.played_pieces.is_empty());
}

#[test]
fn plays_come_last_first() {
    let mut b = full_board();
    b.set(8, 7, false);
    b.set(8, 8, false);
    b.set(0, 0, false);
    let catalog = vec![single(), domino()];
    let r = b.figure_out_moves(&catalog, &vec![0, 1]);
    assert_eq!(r.total_count, brute_force_count(&b, &catalog, 0, 1));
    assert!(r.best_score > 0);
    assert_eq!(r.played_pieces.len(), 2);
    let first = r.played_pieces[1];
    let second = r.played_pieces[0];
    let after = b
        .try_place(&catalog[first.piece_index], first.x, first.y)
        .unwrap();
    assert!(after
        .try_place(&catalog[second.piece_index], second.x, second.y)
        .is_some());
}

fn brute_force_count(b: &Board, catalog: &Vec<Piece>, a: usize, c: usize) -> u64 {
    let mut count = 0;
    for (first, second) in [(a, c), (c, a)] {
        for x1 in 0..9 {
            for y1 in 0..9 {
                if !b.can_be_placed(&catalog[first], x1, y1) {
                    continue;
                }
                let b1 = b.place(&catalog[first], x1, y1);
                for x2 in 0..9 {
                    for y2 in 0..9 {
                        if b1.can_be_placed(&catalog[second], x2, y2) {
                            count += 1;
                        }
                    }
                }
            }
        }
    }
    count
}

#[test]
fn count_matches_brute_force() {
    let corner: Piece = vec![(0, 0), (1, 0), (1, 1)];
    let catalog = vec![single(), domino(), corner];
    let mut b = Board::new();
    for y in 0..9 {
        if y != 4 {
            b.set(6, y, true);
        }
    }
    for x in 0..6 {
        b.set(x, 2, true);
    }
    b.set(7, 7, true);
    for (a, c) in [(0, 1), (1, 2), (2, 2)] {
        let r = b.figure_out_moves(&catalog, &vec![a, c]);
        assert_eq!(r.total_count, brute_force_count(&b, &catalog, a, c));
        assert!(r.total_count > 0);
    }
}

#[test]
fn catalog_has_every_symmetry() {
    let pieces = get_pieces();
    assert_eq!(pieces.len(), 120);
    for p in &pieces {
        assert!(!p.is_empty());
        assert!(p.iter().all(|&(a, b)| a >= 0 && b >= 0));
        assert!(p.iter().any(|&(a, _)| a == 0));
        assert!(p.iter().any(|&(_, b)| b == 0));
    }
    assert_eq!(pieces[0], vec![(0, 0)]);
    assert_eq!(pieces[8], vec![(0, 1), (0, 0)]);
    assert_eq!(pieces[12], vec![(0, 0), (0, 1)]);
    assert_eq!(pieces[13], vec![(0, 0), (1, 0)]);
    assert_eq!(pieces[9], vec![(0, 0), (1, 0)]);
    assert_eq!(pieces[14], vec![(0, 0), (0, 1)]);
    assert!(catalog_is_valid(&pieces));
}

#[test]
fn centerize_moves_to_origin() {
    let p: Piece = vec![(-2, 3), (1, 5), (0, 4)];
    assert_eq!(centerize_piece(&p), vec![(0, 0), (3, 2), (2, 1)]);
    let q: Piece = vec![(0, 0), (0, 1)];
    assert_eq!(centerize_piece(&q), q);
}

#[test]
fn validity_checks() {
    let catalog = vec![single(), domino()];
    assert!(catalog_is_valid(&catalog));
    assert!(!catalog_is_valid(&vec![vec![(0, -1)]]));
    assert!(hand_is_valid(&catalog, &vec![0, 1, 1]));
    assert!(!hand_is_valid(&catalog, &vec![0, 2]));
    assert!(!hand_is_valid(&catalog, &vec![0; 8]));
}

#[test]
fn random_hand_names_catalog_shapes() {
    let catalog = vec![single(), domino()];
    for _ in 0..50 {
        let hand = get_3_random_piece_indexes(&catalog);
        assert_eq!(hand.len(), 3);
        assert!(hand.iter().all(|&i| i < catalog.len()));
    }
}

#[test]
fn a_turn_makes_the_best_plays_in_order() {
    let mut b = full_board();
    b.set(8, 7, false);
    b.set(8, 8, false);
    b.set(0, 0, false);
    let catalog = vec![single(), domino()];
    let hand = vec![0, 1];
    let r = b.figure_out_moves(&catalog, &hand);
    let boards = play_hand(&b, &catalog, &hand).unwrap();
    assert_eq!(boards.len(), 2);
    let first = r.played_pieces[1];
    let second = r.played_pieces[0];
    let b1 = b.place(&catalog[first.piece_index], first.x, first.y);
    let b2 = b1.place(&catalog[second.piece_index], second.x, second.y);
    for x in 0..9 {
        for y in 0..9 {
            assert_eq!(boards[0].get(x, y), b1.get(x, y));
            assert_eq!(boards[1].get(x, y), b2.get(x, y));
        }
    }
}

#[test]
fn a_turn_on_a_full_board_ends_the_game() {
    let catalog = vec![single(), domino()];
    assert!(play_hand(&full_board(), &catalog, &vec![0, 1, 0]).is_none());
    let empty_hand = play_hand(&full_board(), &catalog, &vec![]);
    assert_eq!(empty_hand.map(|bs| bs.len()), Some(0));
}
