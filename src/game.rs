use vstd::prelude::*;
use crate::board::{Board, Piece, catalog_ok, catalog_view, placed, MAX_CATALOG};
use crate::search::{hand_ok, plays_legal, search, PiecePlay, MAX_HAND};

verus! {

/// The grids after each play, in the order in which the plays are made:
/// from the last of the list to the first.
pub open spec fn boards_after(g: Seq<bool>, cat: Seq<Seq<(i32, i32)>>, p: Seq<PiecePlay>) -> Seq<Seq<bool>>
    decreases p.len(),
{
    if p.len() == 0 {
        Seq::empty()
    } else {
        let q = p.last();
        let g1 = placed(g, cat[q.piece_index as int], q.x as int, q.y as int);
        seq![g1] + boards_after(g1, cat, p.drop_last())
    }
}

/// The grids of a sequence of boards.
pub open spec fn views(bs: Seq<Board>) -> Seq<Seq<bool>> {
    bs.map_values(|b: Board| b@)
}

/// One turn of the game: searches the hand, and gives `None` when it cannot
/// be played whole, or else the board after each of the best plays, in the
/// order in which they are made.
pub fn play_hand(board: &Board, pieces: &Vec<Piece>, hand: &Vec<usize>) -> (r: Option<Vec<Board>>)
    requires
        pieces@.len() <= MAX_CATALOG,
        catalog_ok(catalog_view(pieces@)),
        hand@.len() <= MAX_HAND,
        hand_ok(hand@, pieces@.len() as int),
    ensures
        r is None <==> search(board@, catalog_view(pieces@), hand@).count == 0,
        r matches Some(bs) ==> views(bs@) == boards_after(
            board@,
            catalog_view(pieces@),
            search(board@, catalog_view(pieces@), hand@).plays,
        ),
{
    let ghost cat = catalog_view(pieces@);
    let result = board.figure_out_moves(pieces, hand);
    if result.total_count == 0 {
        return None;
    }
    let plays = &result.played_pieces;
    let mut boards: Vec<Board> = Vec::new();
    let mut cur = *board;
    let mut j: usize = plays.len();
    assert(plays@.take(j as int) =~= plays@);
    assert(views(boards@) + boards_after(board@, cat, plays@) =~= boards_after(board@, cat, plays@));
    while j > 0
        invariant
            j <= plays@.len(),
            cat == catalog_view(pieces@),
            catalog_ok(cat),
            plays_legal(cur@, cat, plays@.take(j as int)),
            views(boards@) + boards_after(cur@, cat, plays@.take(j as int)) == boards_after(
                board@,
                cat,
                plays@,
            ),
        decreases j,
    {
        let ghost p = plays@.take(j as int);
        let q = plays[j - 1];
        assert(p.last() == q);
        assert(p.drop_last() =~= plays@.take(j - 1));
        let piece = &pieces[q.piece_index];
        assert(cat[q.piece_index as int] == piece@);
        assert(crate::board::offsets_nonneg(cat[q.piece_index as int]));
        let ghost before = views(boards@);
        cur = cur.place(piece, q.x, q.y);
        boards.push(cur);
        assert(views(boards@) =~= before.push(cur@));
        assert(views(boards@) + boards_after(cur@, cat, plays@.take(j - 1)) =~= before + (seq![cur@]
            + boards_after(cur@, cat, plays@.take(j - 1))));
        j -= 1;
    }
    Some(boards)
}

} // verus!
