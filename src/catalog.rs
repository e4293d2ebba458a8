use vstd::prelude::*;
use crate::board::{Piece, catalog_view, offsets_nonneg};

verus! {

/// The least element of a non-empty sequence.
pub open spec fn seq_min(v: Seq<int>) -> int
    decreases v.len(),
{
    if v.len() <= 1 {
        v[0]
    } else {
        let m = seq_min(v.drop_last());
        if v.last() < m {
            v.last()
        } else {
            m
        }
    }
}

/// The least element is at most every element, and is one of them.
pub proof fn lemma_seq_min(v: Seq<int>)
    requires
        v.len() > 0,
    ensures
        forall|k: int| 0 <= k < v.len() ==> #[trigger] v[k] >= seq_min(v),
        exists|k: int| 0 <= k < v.len() && #[trigger] v[k] == seq_min(v),
    decreases v.len(),
{
    if v.len() > 1 {
        let w = v.drop_last();
        lemma_seq_min(w);
        assert forall|k: int| 0 <= k < v.len() implies #[trigger] v[k] >= seq_min(v) by {
            if k < v.len() - 1 {
                assert(v[k] == w[k]);
            }
        }
        if v.last() >= seq_min(w) {
            let k = choose|k: int| 0 <= k < w.len() && #[trigger] w[k] == seq_min(w);
            assert(v[k] == w[k]);
        } else {
            assert(v[v.len() - 1] == seq_min(v));
        }
    } else {
        assert(v[0] == seq_min(v));
    }
}

/// The row offsets of a shape.
pub open spec fn xs(s: Seq<(i32, i32)>) -> Seq<int> {
    s.map_values(|q: (i32, i32)| q.0 as int)
}

/// The column offsets of a shape.
pub open spec fn ys(s: Seq<(i32, i32)>) -> Seq<int> {
    s.map_values(|q: (i32, i32)| q.1 as int)
}

/// The shape moved so that its least offset on each axis is zero.
pub open spec fn normalize(s: Seq<(i32, i32)>) -> Seq<(i32, i32)> {
    s.map_values(
        |q: (i32, i32)| ((q.0 - seq_min(xs(s))) as i32, (q.1 - seq_min(ys(s))) as i32),
    )
}

/// A shape: at least one cell, offsets non-negative, and zero the least
/// offset on each axis.
pub open spec fn normalized(s: Seq<(i32, i32)>) -> bool {
    &&& s.len() > 0
    &&& offsets_nonneg(s)
    &&& exists|k: int| 0 <= k < s.len() && #[trigger] s[k].0 == 0
    &&& exists|k: int| 0 <= k < s.len() && #[trigger] s[k].1 == 0
}

/// Every offset lies in the 9×9 box whose least corner is `(lx, ly)`.
pub open spec fn in_box(s: Seq<(i32, i32)>, lx: int, ly: int) -> bool {
    forall|k: int|
        #![trigger s[k]]
        0 <= k < s.len() ==> lx <= s[k].0 && s[k].0 <= lx + 8 && ly <= s[k].1 && s[k].1 <= ly + 8
}

/// Normalizing a shape that fits a 9×9 box gives a shape in the box at the
/// origin.
pub proof fn lemma_normalize_box(s: Seq<(i32, i32)>, lx: int, ly: int)
    requires
        s.len() > 0,
        in_box(s, lx, ly),
        -8 <= lx <= 0,
        -8 <= ly <= 0,
    ensures
        normalized(normalize(s)),
        in_box(normalize(s), 0, 0),
{
    let (vx, vy) = (xs(s), ys(s));
    lemma_seq_min(vx);
    lemma_seq_min(vy);
    let n = normalize(s);
    assert forall|k: int| 0 <= k < s.len() implies 0 <= #[trigger] n[k].0 <= 8 && 0 <= n[k].1
        <= 8 by {
        assert(vx[k] == s[k].0 && vy[k] == s[k].1);
        let kx = choose|m: int| 0 <= m < vx.len() && #[trigger] vx[m] == seq_min(vx);
        let ky = choose|m: int| 0 <= m < vy.len() && #[trigger] vy[m] == seq_min(vy);
        assert(vx[kx] == s[kx].0 && vy[ky] == s[ky].1);
        assert(0 <= kx < s.len() && 0 <= ky < s.len());
        assert(lx <= s[kx].0 && ly <= s[ky].1);
        assert(vx[k] >= seq_min(vx) && vy[k] >= seq_min(vy));
        assert(n[k] == ((s[k].0 - seq_min(vx)) as i32, (s[k].1 - seq_min(vy)) as i32));
    }
    let kx = choose|m: int| 0 <= m < vx.len() && #[trigger] vx[m] == seq_min(vx);
    let ky = choose|m: int| 0 <= m < vy.len() && #[trigger] vy[m] == seq_min(vy);
    assert(n[kx].0 == 0);
    assert(n[ky].1 == 0);
}

/// Rows and columns exchanged.
pub open spec fn swap(s: Seq<(i32, i32)>) -> Seq<(i32, i32)> {
    s.map_values(|q: (i32, i32)| (q.1, q.0))
}

/// Rows negated.
pub open spec fn mirror_x(s: Seq<(i32, i32)>) -> Seq<(i32, i32)> {
    s.map_values(|q: (i32, i32)| ((-q.0) as i32, q.1))
}

/// Columns negated.
pub open spec fn mirror_y(s: Seq<(i32, i32)>) -> Seq<(i32, i32)> {
    s.map_values(|q: (i32, i32)| (q.0, (-q.1) as i32))
}

/// Any two offsets on one axis differ by no more than an `i32` holds.
pub open spec fn spread_fits(s: Seq<(i32, i32)>) -> bool {
    forall|k: int, m: int|
        #![trigger s[k], s[m]]
        0 <= k < s.len() && 0 <= m < s.len() ==> s[k].0 - s[m].0 <= i32::MAX && s[k].1 - s[m].1
            <= i32::MAX
}

/// The shape moved so that its least row and least column offsets are zero.
pub fn centerize_piece(piece: &Piece) -> (r: Piece)
    requires
        piece@.len() > 0,
        spread_fits(piece@),
    ensures
        r@ == normalize(piece@),
{
    let ghost (vx, vy) = (xs(piece@), ys(piece@));
    let mut min_x: i32 = piece[0].0;
    let mut min_y: i32 = piece[0].1;
    let mut k: usize = 1;
    assert(vx.take(1).drop_last().len() == 0);
    while k < piece.len()
        invariant
            1 <= k <= piece@.len(),
            vx == xs(piece@),
            vy == ys(piece@),
            min_x == seq_min(vx.take(k as int)),
            min_y == seq_min(vy.take(k as int)),
        decreases piece@.len() - k,
    {
        assert(vx.take(k + 1).drop_last() =~= vx.take(k as int));
        assert(vy.take(k + 1).drop_last() =~= vy.take(k as int));
        if piece[k].0 < min_x {
            min_x = piece[k].0;
        }
        if piece[k].1 < min_y {
            min_y = piece[k].1;
        }
        k += 1;
    }
    assert(vx.take(k as int) =~= vx);
    assert(vy.take(k as int) =~= vy);
    proof {
        lemma_seq_min(vx);
        lemma_seq_min(vy);
    }
    let mut r: Piece = Vec::new();
    let mut j: usize = 0;
    while j < piece.len()
        invariant
            j <= piece@.len(),
            vx == xs(piece@),
            vy == ys(piece@),
            min_x == seq_min(vx),
            min_y == seq_min(vy),
            spread_fits(piece@),
            forall|m: int| 0 <= m < vx.len() ==> #[trigger] vx[m] >= seq_min(vx),
            forall|m: int| 0 <= m < vy.len() ==> #[trigger] vy[m] >= seq_min(vy),
            exists|m: int| 0 <= m < vx.len() && #[trigger] vx[m] == seq_min(vx),
            exists|m: int| 0 <= m < vy.len() && #[trigger] vy[m] == seq_min(vy),
            r@ == normalize(piece@).take(j as int),
        decreases piece@.len() - j,
    {
        let (px, py) = piece[j];
        let ghost kx = choose|m: int| 0 <= m < vx.len() && #[trigger] vx[m] == seq_min(vx);
        let ghost ky = choose|m: int| 0 <= m < vy.len() && #[trigger] vy[m] == seq_min(vy);
        assert(vx[kx] == piece@[kx].0 && vy[ky] == piece@[ky].1);
        assert(vx[j as int] == px && vy[j as int] == py);
        assert(piece@[j as int] == (px, py));
        r.push((px - min_x, py - min_y));
        assert(r@ =~= normalize(piece@).take(j + 1));
        j += 1;
    }
    assert(r@ =~= normalize(piece@));
    r
}

fn swapped(piece: &Piece) -> (r: Piece)
    ensures
        r@ == swap(piece@),
{
    let mut r: Piece = Vec::new();
    let mut j: usize = 0;
    while j < piece.len()
        invariant
            j <= piece@.len(),
            r@ == swap(piece@).take(j as int),
        decreases piece@.len() - j,
    {
        let (a, b) = piece[j];
        r.push((b, a));
        assert(r@ =~= swap(piece@).take(j + 1));
        j += 1;
    }
    assert(r@ =~= swap(piece@));
    r
}

fn mirrored_x(piece: &Piece) -> (r: Piece)
    requires
        forall|k: int| 0 <= k < piece@.len() ==> #[trigger] piece@[k].0 > i32::MIN,
    ensures
        r@ == mirror_x(piece@),
{
    let mut r: Piece = Vec::new();
    let mut j: usize = 0;
    while j < piece.len()
        invariant
            j <= piece@.len(),
            forall|k: int| 0 <= k < piece@.len() ==> #[trigger] piece@[k].0 > i32::MIN,
            r@ == mirror_x(piece@).take(j as int),
        decreases piece@.len() - j,
    {
        let (a, b) = piece[j];
        assert(piece@[j as int].0 > i32::MIN);
        r.push((-a, b));
        assert(r@ =~= mirror_x(piece@).take(j + 1));
        j += 1;
    }
    assert(r@ =~= mirror_x(piece@));
    r
}

fn mirrored_y(piece: &Piece) -> (r: Piece)
    requires
        forall|k: int| 0 <= k < piece@.len() ==> #[trigger] piece@[k].1 > i32::MIN,
    ensures
        r@ == mirror_y(piece@),
{
    let mut r: Piece = Vec::new();
    let mut j: usize = 0;
    while j < piece.len()
        invariant
            j <= piece@.len(),
            forall|k: int| 0 <= k < piece@.len() ==> #[trigger] piece@[k].1 > i32::MIN,
            r@ == mirror_y(piece@).take(j as int),
        decreases piece@.len() - j,
    {
        let (a, b) = piece[j];
        assert(piece@[j as int].1 > i32::MIN);
        r.push((a, -b));
        assert(r@ =~= mirror_y(piece@).take(j + 1));
        j += 1;
    }
    assert(r@ =~= mirror_y(piece@));
    r
}

/// The base shapes, before their symmetries are taken.
pub open spec fn base_shapes() -> Seq<Seq<(i32, i32)>> {
    seq![
        seq![(0i32, 0i32)],
        seq![(0i32, 0i32), (0, 1)],
        seq![(0i32, 0i32), (0, 1), (0, 2)],
        seq![(0i32, 0i32), (0, 1), (0, 2), (0, 3)],
        seq![(0i32, 0i32), (0, 1), (0, 2), (0, 3), (0, 4)],
        seq![(0i32, 0i32), (1, 1), (0, 1)],
        seq![(0i32, 0i32), (0, 1), (0, 2), (1, 2)],
        seq![(0i32, 0i32), (0, 1), (0, 2), (1, 1)],
        seq![(0i32, 0i32), (0, 1), (1, 2), (1, 1)],
        seq![(0i32, 0i32), (1, 0), (1, 1), (1, 2), (0, 2)],
        seq![(0i32, 0i32), (0, 1), (1, 1), (1, 2), (2, 2)],
        seq![(0i32, 0i32), (0, 1), (0, 2), (1, 2), (2, 2)],
        seq![(0i32, 0i32), (0, 1), (0, 2), (1, 1), (1, 2)],
        seq![(0i32, 0i32), (0, 1), (1, 0), (1, 1)],
        seq![(0i32, 0i32), (0, 1), (0, 2), (1, 0), (1, 1), (1, 2), (2, 0), (2, 1), (2, 2)],
    ]
}

/// The eight symmetries of a shape, in catalog order: the four mirrored in
/// columns, then the shape, its transpose and their mirrors in rows.
pub open spec fn variants(s: Seq<(i32, i32)>) -> Seq<Seq<(i32, i32)>> {
    let f = swap(s);
    let pm = normalize(mirror_x(s));
    let fm = normalize(mirror_x(f));
    seq![
        normalize(mirror_y(s)),
        normalize(mirror_y(f)),
        normalize(mirror_y(pm)),
        normalize(mirror_y(fm)),
        s,
        f,
        pm,
        fm,
    ]
}

/// The symmetries of the first `n` base shapes.
pub open spec fn catalog_upto(n: nat) -> Seq<Seq<(i32, i32)>>
    decreases n,
{
    if n == 0 {
        Seq::empty()
    } else {
        catalog_upto((n - 1) as nat) + variants(base_shapes()[n - 1])
    }
}

/// The shape mirrored in rows, then moved back to the origin.
fn mirror_rows(piece: &Piece) -> (r: Piece)
    requires
        piece@.len() > 0,
        in_box(piece@, 0, 0),
    ensures
        r@ == normalize(mirror_x(piece@)),
        normalized(r@),
        in_box(r@, 0, 0),
{
    proof {
        lemma_mirror_box(piece@);
        lemma_box_small(piece@, 0, 0);
        lemma_box_small(mirror_x(piece@), -8, 0);
        lemma_normalize_box(mirror_x(piece@), -8, 0);
    }
    centerize_piece(&mirrored_x(piece))
}

/// The shape mirrored in columns, then moved back to the origin.
fn mirror_cols(piece: &Piece) -> (r: Piece)
    requires
        piece@.len() > 0,
        in_box(piece@, 0, 0),
    ensures
        r@ == normalize(mirror_y(piece@)),
        normalized(r@),
        in_box(r@, 0, 0),
{
    proof {
        lemma_mirror_box(piece@);
        lemma_box_small(piece@, 0, 0);
        lemma_box_small(mirror_y(piece@), 0, -8);
        lemma_normalize_box(mirror_y(piece@), 0, -8);
    }
    centerize_piece(&mirrored_y(piece))
}

/// The eight symmetries of a base shape, in catalog order.
fn symmetries(piece: Piece) -> (r: Vec<Piece>)
    requires
        normalized(piece@),
        in_box(piece@, 0, 0),
    ensures
        catalog_view(r@) == variants(piece@),
        forall|m: int| 0 <= m < r@.len() ==> normalized(#[trigger] r@[m]@) && in_box(r@[m]@, 0, 0),
{
    proof {
        lemma_swap_box(piece@);
    }
    let flipped = swapped(&piece);
    let piece_m = mirror_rows(&piece);
    let flipped_m = mirror_rows(&flipped);
    let mut r: Vec<Piece> = Vec::new();
    r.push(mirror_cols(&piece));
    r.push(mirror_cols(&flipped));
    r.push(mirror_cols(&piece_m));
    r.push(mirror_cols(&flipped_m));
    r.push(piece);
    r.push(flipped);
    r.push(piece_m);
    r.push(flipped_m);
    assert(catalog_view(r@) =~= variants(piece@));
    r
}

/// The whole catalog.
pub fn get_pieces() -> (r: Vec<Piece>)
    ensures
        catalog_view(r@) == catalog(),
        r@.len() == 120,
        forall|i: int| 0 <= i < r@.len() ==> normalized(#[trigger] r@[i]@),
{
    let mut all: Vec<Piece> = Vec::new();
    let mut i: usize = 0;
    assert(catalog_view(all@) =~= catalog_upto(0));
    while i < 15
        invariant
            i <= 15,
            all@.len() == 8 * i,
            catalog_view(all@) == catalog_upto(i as nat),
            forall|m: int|
                0 <= m < all@.len() ==> normalized(#[trigger] all@[m]@) && in_box(all@[m]@, 0, 0),
        decreases 15 - i,
    {
        let piece = base_piece(i);
        let mut sym = symmetries(piece);
        let ghost before = all@;
        let ghost added = sym@;
        all.append(&mut sym);
        proof {
            assert(catalog_view(all@) =~= catalog_view(before) + catalog_view(added));
            assert forall|m: int| 0 <= m < all@.len() implies normalized(#[trigger] all@[m]@)
                && in_box(all@[m]@, 0, 0) by {
                if m >= before.len() {
                    assert(all@[m] == added[m - before.len()]);
                } else {
                    assert(all@[m] == before[m]);
                }
            }
        }
        i += 1;
    }
    all
}

/// The whole catalog.
pub open spec fn catalog() -> Seq<Seq<(i32, i32)>> {
    catalog_upto(15)
}

fn base_piece(i: usize) -> (r: Piece)
    requires
        i < 15,
    ensures
        r@ == base_shapes()[i as int],
        normalized(r@),
        in_box(r@, 0, 0),
{
    let r: Piece = if i == 0 {
        vec![(0, 0)]
    } else if i == 1 {
        vec![(0, 0), (0, 1)]
    } else if i == 2 {
        vec![(0, 0), (0, 1), (0, 2)]
    } else if i == 3 {
        vec![(0, 0), (0, 1), (0, 2), (0, 3)]
    } else if i == 4 {
        vec![(0, 0), (0, 1), (0, 2), (0, 3), (0, 4)]
    } else if i == 5 {
        vec![(0, 0), (1, 1), (0, 1)]
    } else if i == 6 {
        vec![(0, 0), (0, 1), (0, 2), (1, 2)]
    } else if i == 7 {
        vec![(0, 0), (0, 1), (0, 2), (1, 1)]
    } else if i == 8 {
        vec![(0, 0), (0, 1), (1, 2), (1, 1)]
    } else if i == 9 {
        vec![(0, 0), (1, 0), (1, 1), (1, 2), (0, 2)]
    } else if i == 10 {
        vec![(0, 0), (0, 1), (1, 1), (1, 2), (2, 2)]
    } else if i == 11 {
        vec![(0, 0), (0, 1), (0, 2), (1, 2), (2, 2)]
    } else if i == 12 {
        vec![(0, 0), (0, 1), (0, 2), (1, 1), (1, 2)]
    } else if i == 13 {
        vec![(0, 0), (0, 1), (1, 0), (1, 1)]
    } else {
        vec![(0, 0), (0, 1), (0, 2), (1, 0), (1, 1), (1, 2), (2, 0), (2, 1), (2, 2)]
    };
    assert(r@ =~= base_shapes()[i as int]);
    assert(r@[0] == (0i32, 0i32));
    proof {
        lemma_box_nonneg(r@);
        assert(r@.len() > 0);
        assert(r@[0].0 == 0);
        assert(r@[0].1 == 0);
    }
    r
}

proof fn lemma_swap_box(s: Seq<(i32, i32)>)
    requires
        normalized(s),
        in_box(s, 0, 0),
    ensures
        normalized(swap(s)),
        in_box(swap(s), 0, 0),
{
    let f = swap(s);
    assert forall|k: int| 0 <= k < f.len() implies #[trigger] f[k] == (s[k].1, s[k].0) by {}
    let kx = choose|k: int| 0 <= k < s.len() && #[trigger] s[k].0 == 0;
    let ky = choose|k: int| 0 <= k < s.len() && #[trigger] s[k].1 == 0;
    assert(f[ky].0 == 0 && f[kx].1 == 0);
    assert(in_box(f, 0, 0));
    lemma_box_nonneg(f);
}

proof fn lemma_mirror_box(s: Seq<(i32, i32)>)
    requires
        s.len() > 0,
        in_box(s, 0, 0),
    ensures
        mirror_x(s).len() > 0,
        mirror_y(s).len() > 0,
        in_box(mirror_x(s), -8, 0),
        in_box(mirror_y(s), 0, -8),
{
    let (a, b) = (mirror_x(s), mirror_y(s));
    assert forall|k: int| 0 <= k < s.len() implies #[trigger] a[k] == ((-s[k].0) as i32, s[k].1)
        && b[k] == (s[k].0, (-s[k].1) as i32) by {}
}

/// The offsets of a shape in a 9×9 box near the origin can be negated and
/// subtracted from each other.
proof fn lemma_box_small(s: Seq<(i32, i32)>, lx: int, ly: int)
    requires
        in_box(s, lx, ly),
        -8 <= lx <= 0,
        -8 <= ly <= 0,
    ensures
        spread_fits(s),
        forall|k: int| 0 <= k < s.len() ==> #[trigger] s[k].0 > i32::MIN,
        forall|k: int| 0 <= k < s.len() ==> #[trigger] s[k].1 > i32::MIN,
{
    assert forall|k: int| 0 <= k < s.len() implies #[trigger] s[k].0 > i32::MIN && s[k].1
        > i32::MIN by {}
}

/// A shape in the box at the origin has non-negative offsets.
pub proof fn lemma_box_nonneg(s: Seq<(i32, i32)>)
    requires
        in_box(s, 0, 0),
    ensures
        offsets_nonneg(s),
{
    assert forall|k: int| 0 <= k < s.len() implies #[trigger] s[k].0 >= 0 && s[k].1 >= 0 by {
        assert(s[k] == s[k]);
    }
}

} // verus!
