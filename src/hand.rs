use rand::Rng;
use vstd::prelude::*;
use crate::board::Piece;
use crate::search::hand_ok;

verus! {

/// Relies on rand's `thread_rng` and `Rng::gen_range`: a value drawn from
/// `0..n`. `gen_range` panics on an empty range, hence `n > 0`.
#[verifier::external_body]
fn random_index(n: usize) -> (r: usize)
    requires
        n > 0,
    ensures
        r < n,
{
    rand::thread_rng().gen_range(0..n)
}

/// Draws a hand of three shapes, each by its index in the catalog.
pub fn get_3_random_piece_indexes(pieces: &Vec<Piece>) -> (r: Vec<usize>)
    requires
        pieces@.len() > 0,
    ensures
        r@.len() == 3,
        hand_ok(r@, pieces@.len() as int),
{
    let mut piece_indexes: Vec<usize> = Vec::new();
    let mut i: usize = 0;
    while i < 3
        invariant
            i <= 3,
            pieces@.len() > 0,
            piece_indexes@.len() == i,
            hand_ok(piece_indexes@, pieces@.len() as int),
        decreases 3 - i,
    {
        let random_value = random_index(pieces.len());
        piece_indexes.push(random_value);
        i += 1;
    }
    piece_indexes
}

} // verus!
