use vstd::prelude::*;
use crate::board::{
    Board,
    Piece,
    can_place,
    catalog_ok,
    catalog_view,
    placed,
    position_score,
    MAX_CATALOG,
};

verus! {

/// The largest hand whose number of completions is sure to fit in a `u64`.
pub const MAX_HAND: usize = 7;

/// One play: a shape of the catalog, by index, anchored at `(x, y)`.
#[derive(Clone, Copy, Debug, PartialEq, Eq)]
pub struct PiecePlay {
    pub piece_index: usize,
    pub x: i32,
    pub y: i32,
}

/// What a search of a board and a hand finds.
#[derive(Debug)]
pub struct MoveCalculations {
    /// The number of ways to play the whole hand, one piece after another.
    pub total_count: u64,
    /// The best position score reached, or 0 when none above 0 was.
    pub best_score: i32,
    /// The plays that reach the best score, the last one played first.
    pub played_pieces: Vec<PiecePlay>,
}

/// A search outcome, with its count as a natural number.
pub ghost struct Outcome {
    pub count: nat,
    pub best: int,
    pub plays: Seq<PiecePlay>,
}

impl View for MoveCalculations {
    type V = Outcome;

    open spec fn view(&self) -> Outcome {
        Outcome {
            count: self.total_count as nat,
            best: self.best_score as int,
            plays: self.played_pieces@,
        }
    }
}

/// The outcome of searching grid `g` with hand `h`: with an empty hand, one
/// completion scored by the position score; otherwise the outcome of every
/// first play, folded in order.
pub open spec fn search(g: Seq<bool>, cat: Seq<Seq<(i32, i32)>>, h: Seq<usize>) -> Outcome
    decreases h.len(), 81 * h.len() + 1,
{
    if h.len() == 0 {
        Outcome { count: 1, best: position_score(g, cat), plays: Seq::empty() }
    } else {
        search_upto(g, cat, h, (81 * h.len()) as nat)
    }
}

/// The outcome after the first `k` candidate first plays. Candidate number
/// `81 * i + 9 * x + y` puts the piece at place `i` of the hand at `(x, y)`.
/// A later play replaces the best only with a strictly higher score; it is
/// appended after the plays that follow it.
pub open spec fn search_upto(g: Seq<bool>, cat: Seq<Seq<(i32, i32)>>, h: Seq<usize>, k: nat) -> Outcome
    decreases h.len(), k,
{
    if k == 0 {
        Outcome { count: 0, best: 0, plays: Seq::empty() }
    } else {
        let a = search_upto(g, cat, h, (k - 1) as nat);
        let i = (k - 1) / 81;
        let x = (k - 1) % 81 / 9;
        let y = (k - 1) % 81 % 9;
        if i < h.len() && can_place(g, cat[h[i] as int], x, y) {
            let sub = search(placed(g, cat[h[i] as int], x, y), cat, h.remove(i));
            if sub.best > a.best {
                Outcome {
                    count: a.count + sub.count,
                    best: sub.best,
                    plays: sub.plays.push(PiecePlay { piece_index: h[i], x: x as i32, y: y as i32 }),
                }
            } else {
                Outcome { count: a.count + sub.count, best: a.best, plays: a.plays }
            }
        } else {
            a
        }
    }
}

/// Every index of the hand names a shape of the catalog.
pub open spec fn hand_ok(h: Seq<usize>, n: int) -> bool {
    forall|i: int| 0 <= i < h.len() ==> #[trigger] h[i] < n
}

/// The hand without the piece at place `i`, the others in their order.
fn without(piece_indexes: &Vec<usize>, i: usize) -> (r: Vec<usize>)
    requires
        i < piece_indexes@.len(),
    ensures
        r@ == piece_indexes@.remove(i as int),
{
    let mut r: Vec<usize> = Vec::new();
    let mut j: usize = 0;
    while j < piece_indexes.len()
        invariant
            i < piece_indexes@.len(),
            j <= piece_indexes@.len(),
            r@ == if j <= i {
                piece_indexes@.take(j as int)
            } else {
                piece_indexes@.take(i as int) + piece_indexes@.subrange(i + 1, j as int)
            },
        decreases piece_indexes@.len() - j,
    {
        if j != i {
            r.push(piece_indexes[j]);
        }
        proof {
            if j < i {
                assert(piece_indexes@.take(j + 1) =~= piece_indexes@.take(j as int).push(piece_indexes@[j as int]));
            } else if j == i {
                assert(piece_indexes@.take(i as int) + piece_indexes@.subrange(i + 1, j + 1) =~= piece_indexes@.take(i as int));
            } else {
                assert(piece_indexes@.take(i as int) + piece_indexes@.subrange(i + 1, j + 1) =~=
                    (piece_indexes@.take(i as int) + piece_indexes@.subrange(i + 1, j as int)).push(piece_indexes@[j as int]));
            }
        }
        j += 1;
    }
    r
}

/// The grid with every cell filled.
pub open spec fn full_grid() -> Seq<bool> {
    Seq::new(81, |j: int| true)
}

/// On a full board no shape of the catalog can be placed, so a non-empty
/// hand has no completion.
pub proof fn lemma_full_board_no_moves(cat: Seq<Seq<(i32, i32)>>, h: Seq<usize>)
    requires
        catalog_ok(cat),
        forall|i: int| 0 <= i < cat.len() ==> #[trigger] cat[i].len() > 0,
        hand_ok(h, cat.len() as int),
        h.len() > 0,
    ensures
        search(full_grid(), cat, h).count == 0,
{
    lemma_full_upto(cat, h, (81 * h.len()) as nat);
}

proof fn lemma_full_upto(cat: Seq<Seq<(i32, i32)>>, h: Seq<usize>, k: nat)
    requires
        catalog_ok(cat),
        forall|i: int| 0 <= i < cat.len() ==> #[trigger] cat[i].len() > 0,
        hand_ok(h, cat.len() as int),
    ensures
        search_upto(full_grid(), cat, h, k).count == 0,
    decreases k,
{
    if k > 0 {
        lemma_full_upto(cat, h, (k - 1) as nat);
        let i = (k - 1) / 81;
        let x = (k - 1) % 81 / 9;
        let y = (k - 1) % 81 % 9;
        if i < h.len() {
            let s = cat[h[i] as int];
            assert(s.len() > 0);
            assert(crate::board::offsets_nonneg(s));
            if can_place(full_grid(), s, x, y) {
                assert(s[0].0 + x < 9 && s[0].1 + y < 9);
                crate::board::lemma_idx(s[0].0 + x, s[0].1 + y);
                assert(full_grid()[crate::board::idx(s[0].0 + x, s[0].1 + y)]);
            }
        }
    }
}

/// The plays, taken from the last to the first, can each be made in turn
/// starting from grid `g`.
pub open spec fn plays_legal(g: Seq<bool>, cat: Seq<Seq<(i32, i32)>>, p: Seq<PiecePlay>) -> bool
    decreases p.len(),
{
    if p.len() == 0 {
        true
    } else {
        let q = p.last();
        let s = cat[q.piece_index as int];
        q.piece_index < cat.len() && crate::board::in_grid(q.x as int, q.y as int) && can_place(
            g,
            s,
            q.x as int,
            q.y as int,
        ) && plays_legal(
            placed(g, s, q.x as int, q.y as int),
            cat,
            p.drop_last(),
        )
    }
}

/// The best plays that a search returns can be made, last one first, from
/// the board that was searched.
pub proof fn lemma_search_plays_legal(g: Seq<bool>, cat: Seq<Seq<(i32, i32)>>, h: Seq<usize>)
    requires
        hand_ok(h, cat.len() as int),
    ensures
        plays_legal(g, cat, search(g, cat, h).plays),
    decreases h.len(), 81 * h.len() + 1,
{
    if h.len() > 0 {
        lemma_upto_plays_legal(g, cat, h, (81 * h.len()) as nat);
    }
}

proof fn lemma_upto_plays_legal(g: Seq<bool>, cat: Seq<Seq<(i32, i32)>>, h: Seq<usize>, k: nat)
    requires
        hand_ok(h, cat.len() as int),
    ensures
        plays_legal(g, cat, search_upto(g, cat, h, k).plays),
    decreases h.len(), k,
{
    if k > 0 {
        lemma_upto_plays_legal(g, cat, h, (k - 1) as nat);
        let i = (k - 1) / 81;
        let x = (k - 1) % 81 / 9;
        let y = (k - 1) % 81 % 9;
        if i < h.len() && can_place(g, cat[h[i] as int], x, y) {
            h.remove_ensures(i);
            let s = cat[h[i] as int];
            let sub = search(placed(g, s, x, y), cat, h.remove(i));
            assert forall|m: int| 0 <= m < h.remove(i).len() implies #[trigger] h.remove(i)[m]
                < cat.len() by {
                if m < i {
                    assert(h.remove(i)[m] == h[m]);
                } else {
                    assert(h.remove(i)[m] == h[m + 1]);
                }
            }
            crate::board::lemma_scan(x, y);
            lemma_search_plays_legal(placed(g, s, x, y), cat, h.remove(i));
            let p = sub.plays.push(PiecePlay { piece_index: h[i], x: x as i32, y: y as i32 });
            assert(p.drop_last() =~= sub.plays);
            assert(p.last().x as int == x && p.last().y as int == y);
        }
    }
}

/// An upper bound on the completions of a hand of `n` pieces.
pub open spec fn count_bound(n: nat) -> nat
    decreases n,
{
    if n == 0 {
        1
    } else {
        81 * n * count_bound((n - 1) as nat)
    }
}

pub proof fn lemma_search_count(g: Seq<bool>, cat: Seq<Seq<(i32, i32)>>, h: Seq<usize>)
    ensures
        search(g, cat, h).count <= count_bound(h.len()),
    decreases h.len(), 81 * h.len() + 1,
{
    if h.len() > 0 {
        lemma_upto_count(g, cat, h, (81 * h.len()) as nat);
    }
}

pub proof fn lemma_upto_count(g: Seq<bool>, cat: Seq<Seq<(i32, i32)>>, h: Seq<usize>, k: nat)
    requires
        h.len() > 0,
        k <= 81 * h.len(),
    ensures
        search_upto(g, cat, h, k).count <= k * count_bound((h.len() - 1) as nat),
    decreases h.len(), k,
{
    let b = count_bound((h.len() - 1) as nat);
    if k > 0 {
        lemma_upto_count(g, cat, h, (k - 1) as nat);
        let i = (k - 1) / 81;
        let x = (k - 1) % 81 / 9;
        let y = (k - 1) % 81 % 9;
        if i < h.len() && can_place(g, cat[h[i] as int], x, y) {
            h.remove_ensures(i);
            lemma_search_count(placed(g, cat[h[i] as int], x, y), cat, h.remove(i));
        }
        assert((k - 1) * b + b == k * b) by (nonlinear_arith);
    }
}

/// The bound grows with the hand, and fits a `u64` up to the largest hand.
pub proof fn lemma_count_bound_fits(n: nat)
    requires
        n <= MAX_HAND,
    ensures
        count_bound(n) <= count_bound(MAX_HAND as nat) <= u64::MAX,
{
    reveal_with_fuel(count_bound, 8);
}

/// Whether the catalog may be searched: not too large, and every shape with
/// non-negative offsets.
pub fn catalog_is_valid(pieces: &Vec<Piece>) -> (r: bool)
    ensures
        r == (pieces@.len() <= MAX_CATALOG && catalog_ok(catalog_view(pieces@))),
{
    if pieces.len() > MAX_CATALOG {
        return false;
    }
    let ghost cat = catalog_view(pieces@);
    let mut i: usize = 0;
    while i < pieces.len()
        invariant
            i <= pieces@.len(),
            cat == catalog_view(pieces@),
            forall|m: int| 0 <= m < i ==> #[trigger] crate::board::offsets_nonneg(cat[m]),
        decreases pieces@.len() - i,
    {
        let piece = &pieces[i];
        assert(cat[i as int] == piece@);
        let mut k: usize = 0;
        while k < piece.len()
            invariant
                k <= piece@.len(),
                i < pieces@.len(),
                cat == catalog_view(pieces@),
                cat[i as int] == piece@,
                forall|j: int| 0 <= j < k ==> #[trigger] piece@[j].0 >= 0 && piece@[j].1 >= 0,
            decreases piece@.len() - k,
        {
            if piece[k].0 < 0 || piece[k].1 < 0 {
                assert(!crate::board::offsets_nonneg(cat[i as int]));
                return false;
            }
            k += 1;
        }
        assert(crate::board::offsets_nonneg(cat[i as int]));
        i += 1;
    }
    true
}

/// Whether the hand may be searched with this catalog: not too large, and
/// every index naming a shape.
pub fn hand_is_valid(pieces: &Vec<Piece>, piece_indexes: &Vec<usize>) -> (r: bool)
    ensures
        r == (piece_indexes@.len() <= MAX_HAND && hand_ok(piece_indexes@, pieces@.len() as int)),
{
    if piece_indexes.len() > MAX_HAND {
        return false;
    }
    let mut i: usize = 0;
    while i < piece_indexes.len()
        invariant
            i <= piece_indexes@.len(),
            forall|m: int| 0 <= m < i ==> #[trigger] piece_indexes@[m] < pieces@.len(),
        decreases piece_indexes@.len() - i,
    {
        if piece_indexes[i] >= pieces.len() {
            return false;
        }
        i += 1;
    }
    true
}

impl Board {
    /// Searches every order in which the hand can be played and every cell
    /// for each piece, counting the completions and keeping the plays that
    /// reach the best position score.
    pub fn figure_out_moves(&self, pieces: &Vec<Piece>, piece_indexes: &Vec<usize>) -> (r: MoveCalculations)
        requires
            pieces@.len() <= MAX_CATALOG,
            catalog_ok(catalog_view(pieces@)),
            piece_indexes@.len() <= MAX_HAND,
            hand_ok(piece_indexes@, pieces@.len() as int),
        ensures
            r@ == search(self@, catalog_view(pieces@), piece_indexes@),
            plays_legal(self@, catalog_view(pieces@), r.played_pieces@),
            piece_indexes@.len() == 0 ==> r.total_count == 1 && r.best_score == position_score(
                self@,
                catalog_view(pieces@),
            ) && r.played_pieces@.len() == 0,
        decreases piece_indexes@.len(),
    {
        if piece_indexes.len() == 0 {
            return MoveCalculations {
                total_count: 1,
                best_score: self.get_position_score(pieces),
                played_pieces: Vec::new(),
            };
        }
        let ghost g = self@;
        let ghost cat = catalog_view(pieces@);
        let ghost h = piece_indexes@;
        let ghost bound = count_bound((h.len() - 1) as nat);
        proof {
            lemma_count_bound_fits(h.len());
        }
        let mut move_calculations = MoveCalculations {
            total_count: 0,
            best_score: 0,
            played_pieces: Vec::new(),
        };
        let n = piece_indexes.len();
        let mut i: usize = 0;
        while i < n
            invariant
                n == h.len(),
                0 < n <= MAX_HAND,
                i <= n,
                g == self@,
                cat == catalog_view(pieces@),
                h == piece_indexes@,
                pieces@.len() <= MAX_CATALOG,
                catalog_ok(cat),
                hand_ok(h, pieces@.len() as int),
                bound == count_bound((n - 1) as nat),
                count_bound(n as nat) <= u64::MAX,
                move_calculations@ == search_upto(g, cat, h, (81 * i) as nat),
            decreases n - i,
        {
            let piece_index = piece_indexes[i];
            let playable_piece = &pieces[piece_index];
            assert(cat[piece_index as int] == playable_piece@);
            assert(catalog_ok(cat));
            assert(crate::board::offsets_nonneg(cat[piece_index as int]));
            let new_piece_indexes = without(piece_indexes, i);
            proof {
                h.remove_ensures(i as int);
                assert forall|m: int| 0 <= m < new_piece_indexes@.len() implies #[trigger] new_piece_indexes@[m] < pieces@.len() by {
                    if m < i {
                        assert(new_piece_indexes@[m] == h[m]);
                    } else {
                        assert(new_piece_indexes@[m] == h[m + 1]);
                    }
                }
            }
            let mut x: i32 = 0;
            while x < 9
                invariant
                    n == h.len(),
                    0 < n <= MAX_HAND,
                    i < n,
                    0 <= x <= 9,
                    g == self@,
                    cat == catalog_view(pieces@),
                    h == piece_indexes@,
                    pieces@.len() <= MAX_CATALOG,
                    catalog_ok(cat),
                    hand_ok(h, pieces@.len() as int),
                    piece_index == h[i as int],
                    playable_piece@ == cat[piece_index as int],
                    crate::board::offsets_nonneg(playable_piece@),
                    new_piece_indexes@ == h.remove(i as int),
                    hand_ok(new_piece_indexes@, pieces@.len() as int),
                    new_piece_indexes@.len() == n - 1,
                    bound == count_bound((n - 1) as nat),
                    count_bound(n as nat) <= u64::MAX,
                    move_calculations@ == search_upto(g, cat, h, (81 * i + 9 * x) as nat),
                decreases 9 - x,
            {
                let mut y: i32 = 0;
                while y < 9
                    invariant
                        n == h.len(),
                        0 < n <= MAX_HAND,
                        i < n,
                        0 <= x < 9,
                        0 <= y <= 9,
                        g == self@,
                        cat == catalog_view(pieces@),
                        h == piece_indexes@,
                        pieces@.len() <= MAX_CATALOG,
                        catalog_ok(cat),
                        hand_ok(h, pieces@.len() as int),
                        piece_index == h[i as int],
                        playable_piece@ == cat[piece_index as int],
                        crate::board::offsets_nonneg(playable_piece@),
                        new_piece_indexes@ == h.remove(i as int),
                        hand_ok(new_piece_indexes@, pieces@.len() as int),
                        new_piece_indexes@.len() == n - 1,
                        bound == count_bound((n - 1) as nat),
                        count_bound(n as nat) <= u64::MAX,
                        move_calculations@ == search_upto(g, cat, h, (81 * i + 9 * x + y) as nat),
                    decreases 9 - y,
                {
                    let ghost k = (81 * i + 9 * x + y) as nat;
                    proof {
                        crate::board::lemma_scan(x as int, y as int);
                        vstd::arithmetic::div_mod::lemma_fundamental_div_mod_converse(
                            k as int,
                            81,
                            i as int,
                            9 * x + y,
                        );
                        lemma_upto_count(g, cat, h, k + 1);
                        vstd::arithmetic::mul::lemma_mul_inequality(
                            (k + 1) as int,
                            81 * n,
                            bound as int,
                        );
                    }
                    if self.can_be_placed(playable_piece, x, y) {
                        let new_board = self.place(playable_piece, x, y);
                        let new_move_calculations = new_board.figure_out_moves(
                            pieces,
                            &new_piece_indexes,
                        );
                        proof {
                            assert(search_upto(g, cat, h, k + 1).count == move_calculations@.count
                                + new_move_calculations@.count);
                        }
                        move_calculations.total_count = move_calculations.total_count
                            + new_move_calculations.total_count;
                        if new_move_calculations.best_score > move_calculations.best_score {
                            move_calculations.best_score = new_move_calculations.best_score;
                            move_calculations.played_pieces = new_move_calculations.played_pieces;
                            move_calculations.played_pieces.push(
                                PiecePlay { piece_index: piece_indexes[i], x, y },
                            );
                        }
                    }
                    y += 1;
                }
                x += 1;
            }
            i += 1;
        }
        proof {
            lemma_search_plays_legal(g, cat, h);
        }
        move_calculations
    }
}

} // verus!
