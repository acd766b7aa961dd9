//! The fire mask: which columns are re-ignited every frame.
use crate::fire_handler::{idx, lemma_idx_coords};
use vstd::prelude::*;

verus! {

/// Relies on macroquad::rand::gen_range (quad_rand's global generator): for
/// an integer range it scales a uniform draw from `[0, 1)` onto
/// `[low, high)` and truncates, so the result lies below `high`.
#[verifier::external_body]
fn random_below(high: u8) -> (r: u8)
    requires
        high > 0,
    ensures
        r < high,
{
    macroquad::rand::gen_range(0u8, high)
}

/// The mask that per-column draws in `[0, 99]` give: a column is on when
/// its draw is below `fill_percentage`, and each of the `seed_rows` rows
/// repeats the same columns.
pub open spec fn mask_from(draws: Seq<u8>, fill_percentage: u8, seed_rows: int) -> Seq<bool> {
    Seq::new(
        (draws.len() * seed_rows) as nat,
        |i: int| draws[i % (draws.len() as int)] < fill_percentage,
    )
}

/// Turns one draw per column into a fire mask of `seed_rows` identical rows.
pub fn fire_mask_from_draws(draws: &[u8], fill_percentage: u8, seed_rows: usize) -> (r: Vec<bool>)
    requires
        draws@.len() * seed_rows <= usize::MAX,
    ensures
        r@ == mask_from(draws@, fill_percentage, seed_rows as int),
{
    let w = draws.len();
    let mut mask: Vec<bool> = Vec::new();
    let mut row: usize = 0;
    while row < seed_rows
        invariant
            w == draws@.len(),
            w * seed_rows <= usize::MAX,
            row <= seed_rows,
            mask@.len() == row * w,
            forall|i: int|
                0 <= i < mask@.len() ==> #[trigger] mask@[i] == (draws@[i % (w as int)]
                    < fill_percentage),
        decreases seed_rows - row,
    {
        proof {
            assert(row * w + w <= w * seed_rows) by (nonlinear_arith)
                requires
                    row < seed_rows,
            ;
        }
        let mut x: usize = 0;
        while x < w
            invariant
                w == draws@.len(),
                row < seed_rows,
                row * w + w <= usize::MAX,
                x <= w,
                mask@.len() == row * w + x,
                forall|i: int|
                    0 <= i < mask@.len() ==> #[trigger] mask@[i] == (draws@[i % (w as int)]
                        < fill_percentage),
            decreases w - x,
        {
            proof {
                lemma_idx_coords(w as int, x as int, row as int);
                assert(idx(w as int, x as int, row as int) == row * w + x);
            }
            mask.push(draws[x] < fill_percentage);
            x += 1;
        }
        proof {
            assert((row + 1) * w == row * w + w) by (nonlinear_arith);
        }
        row += 1;
    }
    proof {
        assert(seed_rows * w == w * seed_rows) by (nonlinear_arith);
        assert(mask@ =~= mask_from(draws@, fill_percentage, seed_rows as int));
    }
    mask
}

/// Draws a fresh fire mask for a buffer `w` columns wide: every column is
/// on with probability `fill_percentage` in a hundred, and the mask seeds
/// the bottom `seed_rows` rows alike.
pub fn generate_fire_mask(w: usize, fill_percentage: u8, seed_rows: usize) -> (r: Vec<bool>)
    requires
        w * seed_rows <= usize::MAX,
    ensures
        exists|draws: Seq<u8>|
            draws.len() == w && (forall|i: int| 0 <= i < w ==> #[trigger] draws[i] < 100)
                && r@ == mask_from(draws, fill_percentage, seed_rows as int),
        r@.len() == w * seed_rows,
        fill_percentage >= 100 ==> forall|i: int| 0 <= i < r@.len() ==> #[trigger] r@[i],
        fill_percentage == 0 ==> forall|i: int| 0 <= i < r@.len() ==> !#[trigger] r@[i],
{
    let mut draws: Vec<u8> = Vec::new();
    let mut x: usize = 0;
    while x < w
        invariant
            x <= w,
            draws@.len() == x,
            forall|i: int| 0 <= i < x ==> #[trigger] draws@[i] < 100,
        decreases w - x,
    {
        let d = random_below(100);
        draws.push(d);
        x += 1;
    }
    let r = fire_mask_from_draws(draws.as_slice(), fill_percentage, seed_rows);
    proof {
        assert forall|i: int| 0 <= i < r@.len() implies #[trigger] r@[i] == (draws@[i % (w as int)] < fill_percentage) && draws@[i % (w as int)] < 100 by {
            assert(0 <= i % (w as int) < w) by (nonlinear_arith)
                requires
                    0 <= i < w * seed_rows,
            ;
        }
        assert(draws@.len() == w && (forall|i: int| 0 <= i < w ==> #[trigger] draws@[i] < 100)
            && r@ == mask_from(draws@, fill_percentage, seed_rows as int));
    }
    r
}

} // verus!
