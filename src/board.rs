use vstd::prelude::*;

verus! {

/// A shape: offsets `(dx, dy)` from its anchor cell.
pub type Piece = Vec<(i32, i32)>;

/// Flat index of cell `(x, y)`; `x` is the row, `y` the column.
pub open spec fn idx(x: int, y: int) -> int {
    x + 9 * y
}

/// Cell `(x, y)` is on the 9×9 grid.
pub open spec fn in_grid(x: int, y: int) -> bool {
    0 <= x < 9 && 0 <= y < 9
}

/// Every offset of the shape is non-negative.
pub open spec fn offsets_nonneg(s: Seq<(i32, i32)>) -> bool {
    forall|k: int| 0 <= k < s.len() ==> #[trigger] s[k].0 >= 0 && s[k].1 >= 0
}

/// Anchored at `(x, y)`, no cell of the shape passes the lower or right edge.
pub open spec fn fits(s: Seq<(i32, i32)>, x: int, y: int) -> bool {
    forall|k: int| 0 <= k < s.len() ==> #[trigger] s[k].0 + x < 9 && s[k].1 + y < 9
}

/// Anchored at `(x, y)`, every cell of the shape lies on the grid and is empty.
pub open spec fn can_place(g: Seq<bool>, s: Seq<(i32, i32)>, x: int, y: int) -> bool {
    forall|k: int|
        0 <= k < s.len() ==> #[trigger] s[k].0 + x < 9 && s[k].1 + y < 9 && !g[idx(
            s[k].0 + x,
            s[k].1 + y,
        )]
}

/// Cell `j` is one of the cells that the shape anchored at `(x, y)` covers.
pub open spec fn covers(s: Seq<(i32, i32)>, x: int, y: int, j: int) -> bool {
    exists|k: int| 0 <= k < s.len() && #[trigger] idx(s[k].0 + x, s[k].1 + y) == j
}

/// The grid with every cell of the shape filled, before any line is cleared.
pub open spec fn marked(g: Seq<bool>, s: Seq<(i32, i32)>, x: int, y: int) -> Seq<bool> {
    Seq::new(81, |j: int| g[j] || covers(s, x, y, j))
}

/// Every cell of row `x` is filled.
pub open spec fn row_full(g: Seq<bool>, x: int) -> bool {
    forall|y: int| 0 <= y < 9 ==> #[trigger] g[idx(x, y)]
}

/// Every cell of column `y` is filled.
pub open spec fn col_full(g: Seq<bool>, y: int) -> bool {
    forall|x: int| 0 <= x < 9 ==> #[trigger] g[idx(x, y)]
}

/// Every full row emptied.
pub open spec fn clear_rows(g: Seq<bool>) -> Seq<bool> {
    Seq::new(81, |j: int| g[j] && !row_full(g, j % 9))
}

/// Every full column emptied.
pub open spec fn clear_cols(g: Seq<bool>) -> Seq<bool> {
    Seq::new(81, |j: int| g[j] && !col_full(g, j / 9))
}

/// The clear rule: the row pass, then the column pass on what the row pass left.
pub open spec fn clear_lines(g: Seq<bool>) -> Seq<bool> {
    clear_cols(clear_rows(g))
}

/// The grid after the shape is placed at `(x, y)` and the clear rule has run.
pub open spec fn placed(g: Seq<bool>, s: Seq<(i32, i32)>, x: int, y: int) -> Seq<bool> {
    clear_lines(marked(g, s, x, y))
}

/// The largest catalog whose position score is sure to fit in an `i32`.
pub const MAX_CATALOG: usize = 21_000_000;

/// The catalog's shapes as sequences of offsets.
pub open spec fn catalog_view(c: Seq<Piece>) -> Seq<Seq<(i32, i32)>> {
    c.map_values(|p: Piece| p@)
}

/// Every shape of the catalog has non-negative offsets.
pub open spec fn catalog_ok(c: Seq<Seq<(i32, i32)>>) -> bool {
    forall|i: int| 0 <= i < c.len() ==> #[trigger] offsets_nonneg(c[i])
}

/// How many of the first `n` anchors, in the order `(0, 0), (0, 1), ..,
/// (0, 8), (1, 0), ..`, take the shape.
pub open spec fn placements_upto(g: Seq<bool>, s: Seq<(i32, i32)>, n: nat) -> nat
    decreases n,
{
    if n == 0 {
        0
    } else {
        placements_upto(g, s, (n - 1) as nat) + if can_place(
            g,
            s,
            (n - 1) / 9,
            (n - 1) % 9,
        ) {
            1nat
        } else {
            0nat
        }
    }
}

/// The number of cells of the board where the shape can be placed.
pub open spec fn placement_count(g: Seq<bool>, s: Seq<(i32, i32)>) -> nat {
    placements_upto(g, s, 81)
}

/// A shape's share of the position score: its number of placements, or a
/// penalty of 100 when it has none.
pub open spec fn shape_score(g: Seq<bool>, s: Seq<(i32, i32)>) -> int {
    if placement_count(g, s) == 0 {
        -100
    } else {
        placement_count(g, s) as int
    }
}

/// The shape scores of the first `n` shapes of the catalog, summed.
pub open spec fn score_upto(g: Seq<bool>, cat: Seq<Seq<(i32, i32)>>, n: nat) -> int
    decreases n,
{
    if n == 0 {
        0
    } else {
        score_upto(g, cat, (n - 1) as nat) + shape_score(g, cat[n - 1])
    }
}

/// The position score: the shape scores of the whole catalog, summed.
pub open spec fn position_score(g: Seq<bool>, cat: Seq<Seq<(i32, i32)>>) -> int {
    score_upto(g, cat, cat.len())
}

/// Row and column of an anchor's place in scanning order.
pub proof fn lemma_scan(x: int, y: int)
    requires
        in_grid(x, y),
    ensures
        0 <= x * 9 + y < 81,
        (x * 9 + y) / 9 == x,
        (x * 9 + y) % 9 == y,
{
    vstd::arithmetic::div_mod::lemma_fundamental_div_mod_converse(x * 9 + y, 9, x, y);
}

/// Row and column of a flat index.
pub proof fn lemma_idx(x: int, y: int)
    requires
        in_grid(x, y),
    ensures
        0 <= #[trigger] idx(x, y) < 81,
        idx(x, y) % 9 == x,
        idx(x, y) / 9 == y,
{
    vstd::arithmetic::div_mod::lemma_fundamental_div_mod_converse(idx(x, y), 9, y, x);
}

/// Every flat index below 81 names the cell of its remainder and quotient by 9.
pub proof fn lemma_flat(j: int)
    requires
        0 <= j < 81,
    ensures
        in_grid(j % 9, j / 9),
        j == idx(j % 9, j / 9),
{
}

/// No row and no column of the grid is full.
pub open spec fn no_full_line(g: Seq<bool>) -> bool {
    (forall|x: int| 0 <= x < 9 ==> !#[trigger] row_full(g, x)) && (forall|y: int|
        0 <= y < 9 ==> !#[trigger] col_full(g, y))
}

/// The number of filled cells.
pub open spec fn filled_count(g: Seq<bool>) -> nat
    decreases g.len(),
{
    if g.len() == 0 {
        0
    } else {
        filled_count(g.drop_last()) + if g.last() {
            1nat
        } else {
            0nat
        }
    }
}

/// A grid whose filled cells are all filled in another has no more of them,
/// and fewer when the other fills a cell that it leaves empty.
pub proof fn lemma_filled_count_mono(a: Seq<bool>, b: Seq<bool>)
    requires
        a.len() == b.len(),
        forall|j: int| 0 <= j < a.len() && #[trigger] a[j] ==> b[j],
    ensures
        filled_count(a) <= filled_count(b),
        (exists|j: int| 0 <= j < a.len() && !a[j] && #[trigger] b[j]) ==> filled_count(a)
            < filled_count(b),
    decreases a.len(),
{
    if a.len() > 0 {
        let (a0, b0) = (a.drop_last(), b.drop_last());
        assert forall|j: int| 0 <= j < a0.len() && #[trigger] a0[j] implies b0[j] by {
            assert(a[j]);
        }
        lemma_filled_count_mono(a0, b0);
        if exists|j: int| 0 <= j < a.len() && !a[j] && #[trigger] b[j] {
            let j = choose|j: int| 0 <= j < a.len() && !a[j] && #[trigger] b[j];
            if j < a.len() - 1 {
                assert(!a0[j] && b0[j]);
            }
        }
    }
}

/// The clear rule leaves no full row and no full column.
pub proof fn lemma_cleared_no_full_line(g: Seq<bool>)
    requires
        g.len() == 81,
    ensures
        no_full_line(clear_lines(g)),
{
    let g1 = clear_rows(g);
    let g2 = clear_cols(g1);
    assert forall|x: int| 0 <= x < 9 implies !#[trigger] row_full(g2, x) by {
        lemma_idx(x, 0);
        if row_full(g2, x) {
            assert forall|c: int| 0 <= c < 9 implies #[trigger] g[idx(x, c)] by {
                lemma_idx(x, c);
                assert(g2[idx(x, c)]);
            }
            assert(g2[idx(x, 0)]);
        }
    }
    assert forall|y: int| 0 <= y < 9 implies !#[trigger] col_full(g2, y) by {
        lemma_idx(0, y);
        if col_full(g2, y) {
            assert forall|c: int| 0 <= c < 9 implies #[trigger] g1[idx(c, y)] by {
                lemma_idx(c, y);
                assert(g2[idx(c, y)]);
            }
            assert(g2[idx(0, y)]);
        }
    }
}

/// Clearing a grid that has no full line changes nothing.
pub proof fn lemma_clear_without_full_line(g: Seq<bool>)
    requires
        g.len() == 81,
        no_full_line(g),
    ensures
        clear_lines(g) == g,
{
    assert forall|j: int| 0 <= j < 81 implies !row_full(g, #[trigger] (j % 9)) && !col_full(
        g,
        j / 9,
    ) by {
        lemma_flat(j);
    }
    assert(clear_rows(g) =~= g);
    assert(clear_cols(g) =~= g);
}

/// Clearing twice in succession is clearing once: once the rule has run,
/// running it again is a no-op.
pub proof fn lemma_clear_idempotent(g: Seq<bool>)
    requires
        g.len() == 81,
    ensures
        clear_lines(clear_lines(g)) == clear_lines(g),
{
    lemma_cleared_no_full_line(g);
    lemma_clear_without_full_line(clear_lines(g));
}

/// A legal placement fills at least as many cells as the board had before
/// the clear rule runs, more when the shape has a cell, and the board after
/// the clear rule has no full row or column.
pub proof fn lemma_place_legal(g: Seq<bool>, s: Seq<(i32, i32)>, x: int, y: int)
    requires
        g.len() == 81,
        offsets_nonneg(s),
        0 <= x,
        0 <= y,
        can_place(g, s, x, y),
    ensures
        filled_count(marked(g, s, x, y)) >= filled_count(g),
        s.len() > 0 ==> filled_count(marked(g, s, x, y)) > filled_count(g),
        no_full_line(placed(g, s, x, y)),
{
    let m = marked(g, s, x, y);
    if s.len() > 0 {
        let j = idx(s[0].0 + x, s[0].1 + y);
        lemma_idx(s[0].0 + x, s[0].1 + y);
        assert(covers(s, x, y, j));
        assert(!g[j] && m[j]);
    }
    lemma_filled_count_mono(g, m);
    lemma_cleared_no_full_line(m);
}

/// A 9×9 grid of filled (`true`) and empty cells.
#[derive(Clone, Copy)]
pub struct Board {
    pieces: [bool; 81],
}

impl View for Board {
    type V = Seq<bool>;

    closed spec fn view(&self) -> Seq<bool> {
        self.pieces@
    }
}

/// A board always has 81 cells.
pub broadcast proof fn lemma_board_len(b: Board)
    ensures
        #[trigger] b@.len() == 81,
{
}

/// Marking one more cell of the shape updates the grid at that cell.
proof fn lemma_marked_step(g: Seq<bool>, s: Seq<(i32, i32)>, x: int, y: int, k: int)
    requires
        g.len() == 81,
        0 <= k < s.len(),
        in_grid(s[k].0 + x, s[k].1 + y),
    ensures
        marked(g, s.take(k + 1), x, y) == marked(g, s.take(k), x, y).update(
            idx(s[k].0 + x, s[k].1 + y),
            true,
        ),
{
    let a = marked(g, s.take(k + 1), x, y);
    let b = marked(g, s.take(k), x, y).update(idx(s[k].0 + x, s[k].1 + y), true);
    lemma_idx(s[k].0 + x, s[k].1 + y);
    assert forall|j: int| 0 <= j < 81 implies a[j] == b[j] by {
        if covers(s.take(k + 1), x, y, j) {
            let m = choose|m: int|
                0 <= m < k + 1 && #[trigger] idx(s.take(k + 1)[m].0 + x, s.take(k + 1)[m].1 + y)
                    == j;
            if m < k {
                assert(s.take(k)[m] == s.take(k + 1)[m]);
                assert(covers(s.take(k), x, y, j));
            }
        }
        if covers(s.take(k), x, y, j) {
            let m = choose|m: int|
                0 <= m < k && #[trigger] idx(s.take(k)[m].0 + x, s.take(k)[m].1 + y) == j;
            assert(s.take(k)[m] == s.take(k + 1)[m]);
            assert(covers(s.take(k + 1), x, y, j));
        }
        if j == idx(s[k].0 + x, s[k].1 + y) {
            assert(s.take(k + 1)[k] == s[k]);
            assert(covers(s.take(k + 1), x, y, j));
        }
    }
    assert(a =~= b);
}

impl Board {
    /// The empty board.
    pub fn new() -> (r: Board)
        ensures
            r@ == Seq::new(81, |j: int| false),
    {
        let r = Board { pieces: [false; 81] };
        assert(r@ =~= Seq::new(81, |j: int| false));
        r
    }

    pub fn set(&mut self, x: i32, y: i32, state: bool)
        requires
            in_grid(x as int, y as int),
        ensures
            final(self)@ == old(self)@.update(idx(x as int, y as int), state),
    {
        self.pieces[(x + y * 9) as usize] = state;
    }

    pub fn get(&self, x: i32, y: i32) -> (r: bool)
        requires
            in_grid(x as int, y as int),
        ensures
            r == self@[idx(x as int, y as int)],
    {
        self.pieces[(x + y * 9) as usize]
    }

    /// Whether some cell of the shape anchored at `(x, y)` falls past the
    /// lower or right edge, whatever the cells hold.
    pub fn placement_out_of_bounds(&self, piece: &Piece, x: i32, y: i32) -> (r: bool)
        ensures
            r == !fits(piece@, x as int, y as int),
    {
        let mut k: usize = 0;
        while k < piece.len()
            invariant
                k <= piece@.len(),
                fits(piece@.take(k as int), x as int, y as int),
            decreases piece@.len() - k,
        {
            let (px, py) = piece[k];
            let nx = px as i64 + x as i64;
            let ny = py as i64 + y as i64;
            if nx >= 9 || ny >= 9 {
                return true;
            }
            assert(piece@.take(k + 1) =~= piece@.take(k as int).push(piece@[k as int]));
            k += 1;
        }
        assert(piece@.take(k as int) =~= piece@);
        false
    }

    /// Whether the shape anchored at `(x, y)` lies on the grid on empty cells.
    pub fn can_be_placed(&self, piece: &Piece, x: i32, y: i32) -> (r: bool)
        requires
            offsets_nonneg(piece@),
            0 <= x,
            0 <= y,
        ensures
            r == can_place(self@, piece@, x as int, y as int),
    {
        let mut k: usize = 0;
        while k < piece.len()
            invariant
                k <= piece@.len(),
                0 <= x,
                0 <= y,
                offsets_nonneg(piece@),
                self@.len() == 81,
                can_place(self@, piece@.take(k as int), x as int, y as int),
            decreases piece@.len() - k,
        {
            let (px, py) = piece[k];
            assert(px >= 0 && py >= 0 && piece@[k as int] == (px, py));
            if px >= 9 - x || py >= 9 - y {
                return false;
            }
            let nx = px + x;
            let ny = py + y;
            if self.get(nx, ny) {
                return false;
            }
            assert(piece@.take(k + 1) =~= piece@.take(k as int).push(piece@[k as int]));
            k += 1;
        }
        assert(piece@.take(k as int) =~= piece@);
        true
    }

    /// Places the shape with its anchor at `(x, y)` and applies the clear
    /// rule, on a copy. Cells that are already filled stay filled: whether
    /// they were empty is the caller's to check, with `can_be_placed`.
    pub fn place(&self, piece: &Piece, x: i32, y: i32) -> (r: Board)
        requires
            offsets_nonneg(piece@),
            0 <= x,
            0 <= y,
            fits(piece@, x as int, y as int),
        ensures
            r@ == placed(self@, piece@, x as int, y as int),
    {
        let mut new_board = *self;
        let mut k: usize = 0;
        assert(marked(self@, piece@.take(0), x as int, y as int) =~= self@);
        while k < piece.len()
            invariant
                k <= piece@.len(),
                0 <= x,
                0 <= y,
                offsets_nonneg(piece@),
                fits(piece@, x as int, y as int),
                self@.len() == 81,
                new_board@ == marked(self@, piece@.take(k as int), x as int, y as int),
            decreases piece@.len() - k,
        {
            let (px, py) = piece[k];
            assert(piece@[k as int] == (px, py));
            proof {
                lemma_marked_step(self@, piece@, x as int, y as int, k as int);
            }
            new_board.set(px + x, py + y, true);
            k += 1;
        }
        assert(piece@.take(k as int) =~= piece@);
        new_board.clear_full_lines();
        new_board
    }

    /// Places the shape at `(x, y)` if it can be placed there, and gives
    /// `None` otherwise.
    pub fn try_place(&self, piece: &Piece, x: i32, y: i32) -> (r: Option<Board>)
        requires
            offsets_nonneg(piece@),
            0 <= x,
            0 <= y,
        ensures
            r is Some <==> can_place(self@, piece@, x as int, y as int),
            r matches Some(b) ==> b@ == placed(self@, piece@, x as int, y as int),
    {
        if self.can_be_placed(piece, x, y) {
            Some(self.place(piece, x, y))
        } else {
            None
        }
    }

    /// The number of anchors at which the shape can be placed.
    pub fn placement_count(&self, piece: &Piece) -> (r: u32)
        requires
            offsets_nonneg(piece@),
        ensures
            r == placement_count(self@, piece@),
            r <= 81,
    {
        let mut count: u32 = 0;
        let mut x: i32 = 0;
        while x < 9
            invariant
                0 <= x <= 9,
                offsets_nonneg(piece@),
                count == placements_upto(self@, piece@, (x * 9) as nat),
                count <= x * 9,
            decreases 9 - x,
        {
            let mut y: i32 = 0;
            while y < 9
                invariant
                    0 <= x < 9,
                    0 <= y <= 9,
                    offsets_nonneg(piece@),
                    count == placements_upto(self@, piece@, (x * 9 + y) as nat),
                    count <= x * 9 + y,
                decreases 9 - y,
            {
                proof {
                    lemma_scan(x as int, y as int);
                }
                if self.can_be_placed(piece, x, y) {
                    count += 1;
                }
                y += 1;
            }
            x += 1;
        }
        count
    }

    /// The position score of the board against the whole catalog.
    pub fn get_position_score(&self, pieces: &Vec<Piece>) -> (r: i32)
        requires
            pieces@.len() <= MAX_CATALOG,
            catalog_ok(catalog_view(pieces@)),
        ensures
            r == position_score(self@, catalog_view(pieces@)),
    {
        let ghost cat = catalog_view(pieces@);
        let mut score: i32 = 0;
        let mut i: usize = 0;
        while i < pieces.len()
            invariant
                i <= pieces@.len() <= MAX_CATALOG,
                cat == catalog_view(pieces@),
                catalog_ok(cat),
                score == score_upto(self@, cat, i as nat),
                -100 * i <= score <= 81 * i,
            decreases pieces@.len() - i,
        {
            assert(cat[i as int] == pieces@[i as int]@);
            assert(offsets_nonneg(cat[i as int]));
            let count = self.placement_count(&pieces[i]);
            if count == 0 {
                score -= 100;
            } else {
                score += count as i32;
            }
            assert(score_upto(self@, cat, (i + 1) as nat) == score_upto(self@, cat, i as nat)
                + shape_score(self@, cat[i as int]));
            i += 1;
        }
        score
    }

    fn row_is_full(&self, x: i32) -> (r: bool)
        requires
            0 <= x < 9,
        ensures
            r == row_full(self@, x as int),
    {
        let mut y: i32 = 0;
        while y < 9
            invariant
                0 <= x < 9,
                0 <= y <= 9,
                forall|c: int| 0 <= c < y ==> #[trigger] self@[idx(x as int, c)],
            decreases 9 - y,
        {
            if !self.get(x, y) {
                return false;
            }
            y += 1;
        }
        true
    }

    fn col_is_full(&self, y: i32) -> (r: bool)
        requires
            0 <= y < 9,
        ensures
            r == col_full(self@, y as int),
    {
        let mut x: i32 = 0;
        while x < 9
            invariant
                0 <= y < 9,
                0 <= x <= 9,
                forall|c: int| 0 <= c < x ==> #[trigger] self@[idx(c, y as int)],
            decreases 9 - x,
        {
            if !self.get(x, y) {
                return false;
            }
            x += 1;
        }
        true
    }

    fn clear_row(&mut self, x: i32)
        requires
            0 <= x < 9,
        ensures
            final(self)@ == Seq::new(81, |j: int| if j % 9 == x { false } else { old(self)@[j] }),
    {
        let ghost g0 = self@;
        let mut y: i32 = 0;
        while y < 9
            invariant
                0 <= x < 9,
                0 <= y <= 9,
                self@.len() == 81,
                g0.len() == 81,
                forall|j: int|
                    0 <= j < 81 ==> #[trigger] self@[j] == if j % 9 == x && j / 9 < y {
                        false
                    } else {
                        g0[j]
                    },
            decreases 9 - y,
        {
            proof {
                lemma_idx(x as int, y as int);
            }
            self.set(x, y, false);
            y += 1;
        }
        assert(self@ =~= Seq::new(81, |j: int| if j % 9 == x { false } else { g0[j] }));
    }

    fn clear_col(&mut self, y: i32)
        requires
            0 <= y < 9,
        ensures
            final(self)@ == Seq::new(81, |j: int| if j / 9 == y { false } else { old(self)@[j] }),
    {
        let ghost g0 = self@;
        let mut x: i32 = 0;
        while x < 9
            invariant
                0 <= y < 9,
                0 <= x <= 9,
                self@.len() == 81,
                g0.len() == 81,
                forall|j: int|
                    0 <= j < 81 ==> #[trigger] self@[j] == if j / 9 == y && j % 9 < x {
                        false
                    } else {
                        g0[j]
                    },
            decreases 9 - x,
        {
            proof {
                lemma_idx(x as int, y as int);
            }
            self.set(x, y, false);
            x += 1;
        }
        assert(self@ =~= Seq::new(81, |j: int| if j / 9 == y { false } else { g0[j] }));
    }

    /// Applies the clear rule: every full row is emptied, then every column
    /// that is full after that.
    pub fn clear_full_lines(&mut self)
        ensures
            final(self)@ == clear_lines(old(self)@),
    {
        let ghost g0 = self@;
        let ghost g1 = clear_rows(g0);
        let mut x: i32 = 0;
        while x < 9
            invariant
                0 <= x <= 9,
                self@.len() == 81,
                g0.len() == 81,
                g1 == clear_rows(g0),
                forall|j: int|
                    0 <= j < 81 ==> #[trigger] self@[j] == if j % 9 < x {
                        g1[j]
                    } else {
                        g0[j]
                    },
            decreases 9 - x,
        {
            proof {
                assert forall|c: int| #![trigger self@[idx(x as int, c)]] #![trigger g0[idx(x as int, c)]]
                    0 <= c < 9 implies self@[idx(x as int, c)] == g0[idx(x as int, c)] by {
                    lemma_idx(x as int, c);
                }
                assert(row_full(self@, x as int) == row_full(g0, x as int));
            }
            if self.row_is_full(x) {
                self.clear_row(x);
            }
            proof {
                assert forall|j: int| 0 <= j < 81 implies #[trigger] self@[j] == if j % 9 < x + 1 {
                    g1[j]
                } else {
                    g0[j]
                } by {
                    if j % 9 == x as int {
                        assert(g1[j] == (g0[j] && !row_full(g0, x as int)));
                    }
                }
            }
            x += 1;
        }
        assert(self@ =~= g1);
        let mut y: i32 = 0;
        while y < 9
            invariant
                0 <= y <= 9,
                self@.len() == 81,
                g1.len() == 81,
                forall|j: int|
                    0 <= j < 81 ==> #[trigger] self@[j] == if j / 9 < y {
                        clear_cols(g1)[j]
                    } else {
                        g1[j]
                    },
            decreases 9 - y,
        {
            proof {
                assert forall|c: int| #![trigger self@[idx(c, y as int)]] #![trigger g1[idx(c, y as int)]]
                    0 <= c < 9 implies self@[idx(c, y as int)] == g1[idx(c, y as int)] by {
                    lemma_idx(c, y as int);
                }
                assert(col_full(self@, y as int) == col_full(g1, y as int));
            }
            if self.col_is_full(y) {
                self.clear_col(y);
            }
            proof {
                assert forall|j: int| 0 <= j < 81 implies #[trigger] self@[j] == if j / 9 < y + 1 {
                    clear_cols(g1)[j]
                } else {
                    g1[j]
                } by {
                    if j / 9 == y as int {
                        assert(clear_cols(g1)[j] == (g1[j] && !col_full(g1, y as int)));
                    }
                }
            }
            y += 1;
        }
        assert(self@ =~= clear_lines(g0));
    }
}

} // verus!
