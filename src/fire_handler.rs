//! The heat buffer engine: seeding new heat and the diffusion/cooling step.
use std::collections::VecDeque;
use vstd::arithmetic::div_mod::lemma_fundamental_div_mod;
use vstd::arithmetic::div_mod::lemma_fundamental_div_mod_converse;
use vstd::prelude::*;

verus! {

/// Position of cell `(x, y)` in a row-major buffer of width `w`.
pub open spec fn idx(w: int, x: int, y: int) -> int {
    x + y * w
}

pub proof fn lemma_idx_bounds(w: int, h: int, x: int, y: int)
    requires
        0 <= x < w,
        0 <= y < h,
    ensures
        0 <= idx(w, x, y) < w * h,
{
    assert(0 <= x + y * w < w * h) by (nonlinear_arith)
        requires
            0 <= x < w,
            0 <= y < h,
    ;
}

pub proof fn lemma_idx_injective(w: int, x1: int, y1: int, x2: int, y2: int)
    requires
        0 <= x1 < w,
        0 <= x2 < w,
        0 <= y1,
        0 <= y2,
        idx(w, x1, y1) == idx(w, x2, y2),
    ensures
        x1 == x2,
        y1 == y2,
{
    if y1 < y2 {
        assert(x2 + y2 * w >= x1 + y1 * w + w - x1) by (nonlinear_arith)
            requires
                y2 >= y1 + 1,
                w >= 0,
                x2 >= 0,
        ;
    } else if y2 < y1 {
        assert(x1 + y1 * w >= x2 + y2 * w + w - x2) by (nonlinear_arith)
            requires
                y1 >= y2 + 1,
                w >= 0,
                x1 >= 0,
        ;
    }
}

/// Every index of a `w * h` buffer is the position of the cell
/// `(i % w, i / w)`, and a position determines its column and row.
pub proof fn lemma_idx_div_mod(w: int, h: int, i: int)
    requires
        w > 0,
        0 <= i < w * h,
    ensures
        0 <= i % w < w,
        0 <= i / w < h,
        idx(w, i % w, i / w) == i,
{
    lemma_fundamental_div_mod(i, w);
    assert((i / w) * w == w * (i / w)) by (nonlinear_arith);
    assert(i / w < h) by (nonlinear_arith)
        requires
            i == w * (i / w) + i % w,
            0 <= i % w < w,
            i < w * h,
    ;
    assert(i / w >= 0) by (nonlinear_arith)
        requires
            i == w * (i / w) + i % w,
            i % w < w,
            i >= 0,
            w > 0,
    ;
}

pub proof fn lemma_idx_coords(w: int, x: int, y: int)
    requires
        0 <= x < w,
    ensures
        idx(w, x, y) % w == x,
        idx(w, x, y) / w == y,
{
    lemma_fundamental_div_mod_converse(idx(w, x, y), w, y, x);
}

/// Number of whole mask rows: each row of `w` flags seeds one buffer row.
pub open spec fn mask_rows(mask: Seq<bool>, w: int) -> int {
    mask.len() as int / w
}

/// Whether seeding lights cell `(x, y)`: mask row `k` covers buffer row
/// `h - 1 - k`, counted up from the bottom.
pub open spec fn is_seeded(mask: Seq<bool>, w: int, h: int, x: int, y: int) -> bool {
    let k = h - 1 - y;
    0 <= k < mask_rows(mask, w) && mask[idx(w, x, k)]
}

/// The value of cell `(x, y)` after seeding `buf` with `mask`.
pub open spec fn seeded_cell(buf: Seq<u8>, mask: Seq<bool>, w: int, h: int, x: int, y: int) -> u8 {
    if is_seeded(mask, w, h, x, y) {
        255
    } else {
        buf[idx(w, x, y)]
    }
}

/// The whole buffer after seeding `buf` with `mask`.
pub open spec fn seeded(buf: Seq<u8>, mask: Seq<bool>, w: int, h: int) -> Seq<u8> {
    Seq::new(buf.len(), |i: int| seeded_cell(buf, mask, w, h, i % w, i / w))
}

/// A buffer whose cells agree with `f` everywhere is `f` laid out row by row.
pub proof fn lemma_grid_ext(a: Seq<u8>, b: Seq<u8>, w: int, h: int)
    requires
        w > 0,
        a.len() == w * h,
        b.len() == w * h,
        forall|x: int, y: int| 0 <= x < w && 0 <= y < h ==> a[idx(w, x, y)] == b[idx(w, x, y)],
    ensures
        a == b,
{
    assert forall|i: int| 0 <= i < a.len() implies a[i] == b[i] by {
        lemma_idx_div_mod(w, h, i);
    }
    assert(a =~= b);
}

/// Seeding twice in a row gives what seeding once gave.
pub proof fn lemma_seed_idempotent(buf: Seq<u8>, mask: Seq<bool>, w: int, h: int)
    requires
        w > 0,
        buf.len() == w * h,
    ensures
        seeded(seeded(buf, mask, w, h), mask, w, h) == seeded(buf, mask, w, h),
{
    let once = seeded(buf, mask, w, h);
    assert forall|i: int| 0 <= i < once.len() implies #[trigger] seeded(once, mask, w, h)[i] == once[i] by {
        lemma_idx_div_mod(w, h, i);
    }
    assert(seeded(once, mask, w, h) =~= once);
}

/// Sets every cell that the fire mask marks to full heat; mask row `k`
/// lights buffer row `h - 1 - k`, so the first mask row is the bottom row.
pub fn seed_fire(buf: &mut [u8], w: usize, h: usize, fire_mask: &[bool])
    requires
        w > 0,
        old(buf)@.len() == w * h,
        fire_mask@.len() as int / (w as int) <= h,
    ensures
        final(buf)@.len() == old(buf)@.len(),
        final(buf)@ == seeded(old(buf)@, fire_mask@, w as int, h as int),
        forall|x: int, y: int|
            0 <= x < w && 0 <= y < h ==> #[trigger] final(buf)@[idx(w as int, x, y)]
                == seeded_cell(old(buf)@, fire_mask@, w as int, h as int, x, y),
{
    let mlen = fire_mask.len();
    let total = buf.len();
    let nrow = mlen / w;
    proof {
        assert(nrow * w <= fire_mask@.len()) by (nonlinear_arith)
            requires
                nrow == fire_mask@.len() as int / (w as int),
                w > 0,
        ;
    }
    let mut y: usize = 0;
    while y < nrow
        invariant
            nrow == mask_rows(fire_mask@, w as int),
            nrow <= h,
            nrow * w <= fire_mask@.len(),
            mlen == fire_mask@.len(),
            total == buf@.len(),
            w > 0,
            y <= nrow,
            buf@.len() == w * h,
            forall|x2: int, y2: int|
                0 <= x2 < w && 0 <= y2 < h ==> #[trigger] buf@[idx(w as int, x2, y2)] == if h - 1
                    - y2 < y && is_seeded(fire_mask@, w as int, h as int, x2, y2) {
                    255
                } else {
                    old(buf)@[idx(w as int, x2, y2)]
                },
        decreases nrow - y,
    {
        let mut x: usize = 0;
        let ghost row = h - 1 - y;
        proof {
            assert((y + 1) * w <= nrow * w) by (nonlinear_arith)
                requires
                    y + 1 <= nrow,
                    w > 0,
            ;
            assert((y + 1) * w == y * w + w) by (nonlinear_arith);
            assert((row + 1) * w <= h * w) by (nonlinear_arith)
                requires
                    row + 1 <= h,
                    w > 0,
            ;
            assert((row + 1) * w == row * w + w) by (nonlinear_arith);
            assert(h * w == w * h) by (nonlinear_arith);
        }
        while x < w
            invariant
                nrow == mask_rows(fire_mask@, w as int),
                nrow <= h,
                y < nrow,
                row == h - 1 - y,
                y * w + w <= mlen,
                row * w + w <= total,
                mlen == fire_mask@.len(),
                total == buf@.len(),
                x <= w,
                buf@.len() == w * h,
                forall|x2: int, y2: int|
                    0 <= x2 < w && 0 <= y2 < h ==> #[trigger] buf@[idx(w as int, x2, y2)] == if (h
                        - 1 - y2 < y || (y2 == row && x2 < x)) && is_seeded(
                        fire_mask@,
                        w as int,
                        h as int,
                        x2,
                        y2,
                    ) {
                        255
                    } else {
                        old(buf)@[idx(w as int, x2, y2)]
                    },
            decreases w - x,
        {
            let m = x + y * w;
            if fire_mask[m] {
                let i = x + (h - y - 1) * w;
                buf[i] = 255;
                proof {
                    assert forall|x2: int, y2: int| 0 <= x2 < w && 0 <= y2 < h implies #[trigger] buf@[idx(w as int, x2, y2)] == if (h - 1 - y2 < y || (y2 == row && x2 < x + 1)) && is_seeded(fire_mask@, w as int, h as int, x2, y2) {
                        255u8
                    } else {
                        old(buf)@[idx(w as int, x2, y2)]
                    } by {
                        lemma_idx_bounds(w as int, h as int, x2, y2);
                        if idx(w as int, x2, y2) == i as int {
                            lemma_idx_injective(w as int, x2, y2, x as int, row);
                        }
                    }
                }
            }
            x += 1;
        }
        y += 1;
    }
    proof {
        let target = seeded(old(buf)@, fire_mask@, w as int, h as int);
        assert forall|x2: int, y2: int| 0 <= x2 < w && 0 <= y2 < h implies buf@[idx(w as int, x2, y2)] == target[idx(w as int, x2, y2)] by {
            lemma_idx_bounds(w as int, h as int, x2, y2);
            lemma_idx_coords(w as int, x2, y2);
        }
        lemma_grid_ext(buf@, target, w as int, h as int);
    }
}

/// Unweighted mean of the four orthogonal neighbours of `(x, y)`, truncated.
pub open spec fn neighbour_average(buf: Seq<u8>, w: int, x: int, y: int) -> int {
    (buf[idx(w, x, y - 1)] + buf[idx(w, x, y + 1)] + buf[idx(w, x - 1, y)] + buf[idx(
        w,
        x + 1,
        y,
    )]) / 4
}

/// `avg` reduced by `cooling`, floored at zero.
pub open spec fn cooled(avg: int, cooling: int) -> int {
    if avg > cooling {
        avg - cooling
    } else {
        0
    }
}

/// New heat for interior cell `(x, y)`: rows above the hot base of
/// `fire_height` rows are cooled by the field, the base itself is not.
pub open spec fn diffused_cell(
    orig: Seq<u8>,
    cooling: Seq<u8>,
    w: int,
    h: int,
    fire_height: int,
    x: int,
    y: int,
) -> int {
    let avg = neighbour_average(orig, w, x, y);
    if y < h - fire_height {
        cooled(avg, cooling[idx(w, x, y)] as int)
    } else {
        avg
    }
}

/// Whether source cell `(x, y)` is computed by a step: the one-cell border is
/// skipped, as are rows that the upward shift would move off the buffer.
pub open spec fn is_interior(w: int, h: int, yshift: int, x: int, y: int) -> bool {
    1 <= x < w - 1 && 1 <= y < h - 1 && yshift <= y
}

/// Cell `(x, y)` of the target buffer after a step: it receives source cell
/// `(x, y + yshift)` where that one is interior, and keeps `prev` elsewhere.
pub open spec fn stepped_cell(
    orig: Seq<u8>,
    cooling: Seq<u8>,
    prev: Seq<u8>,
    w: int,
    h: int,
    yshift: int,
    fire_height: int,
    x: int,
    y: int,
) -> u8 {
    if is_interior(w, h, yshift, x, y + yshift) {
        diffused_cell(orig, cooling, w, h, fire_height, x, y + yshift) as u8
    } else {
        prev[idx(w, x, y)]
    }
}

/// The whole target buffer after a step.
pub open spec fn stepped(
    orig: Seq<u8>,
    cooling: Seq<u8>,
    prev: Seq<u8>,
    w: int,
    h: int,
    yshift: int,
    fire_height: int,
) -> Seq<u8> {
    Seq::new(
        prev.len(),
        |i: int| stepped_cell(orig, cooling, prev, w, h, yshift, fire_height, i % w, i / w),
    )
}

/// A computed cell lies between zero and the plain neighbour average, and
/// fits a byte.
pub proof fn lemma_diffused_cell_bounds(
    orig: Seq<u8>,
    cooling: Seq<u8>,
    w: int,
    h: int,
    fire_height: int,
    x: int,
    y: int,
)
    requires
        is_interior(w, h, 0, x, y),
        orig.len() == w * h,
        cooling.len() == w * h,
    ensures
        0 <= diffused_cell(orig, cooling, w, h, fire_height, x, y) <= neighbour_average(
            orig,
            w,
            x,
            y,
        ) <= 255,
{
}

/// One diffusion/cooling step from `original` into `new`, shifted up by
/// `yshift` rows.
pub fn smooth_and_cool(
    original: &[u8],
    new: &mut [u8],
    w: usize,
    h: usize,
    yshift: usize,
    cooling_map: &VecDeque<u8>,
    fire_height: usize,
)
    requires
        original@.len() == w * h,
        old(new)@.len() == w * h,
        cooling_map@.len() == w * h,
        fire_height <= h,
    ensures
        final(new)@.len() == w * h,
        w > 0 ==> final(new)@ == stepped(
            original@,
            cooling_map@,
            old(new)@,
            w as int,
            h as int,
            yshift as int,
            fire_height as int,
        ),
        forall|x: int, y: int|
            0 <= x < w && 0 <= y < h ==> #[trigger] final(new)@[idx(w as int, x, y)]
                == stepped_cell(
                original@,
                cooling_map@,
                old(new)@,
                w as int,
                h as int,
                yshift as int,
                fire_height as int,
                x,
                y,
            ),
{
    let total = new.len();
    let last_row: usize = if h > 0 { h - 1 } else { 0 };
    let last_col: usize = if w > 0 { w - 1 } else { 0 };
    let mut y: usize = 1;
    while y < last_row
        invariant
            1 <= y,
            last_row == if h > 0 { h - 1 } else { 0 },
            last_col == if w > 0 { w - 1 } else { 0 },
            total == w * h,
            original@.len() == w * h,
            new@.len() == w * h,
            cooling_map@.len() == w * h,
            fire_height <= h,
            forall|x2: int, y2: int|
                0 <= x2 < w && 0 <= y2 < h ==> #[trigger] new@[idx(w as int, x2, y2)] == if y2
                    + yshift < y && is_interior(w as int, h as int, yshift as int, x2, y2 + yshift) {
                    diffused_cell(
                        original@,
                        cooling_map@,
                        w as int,
                        h as int,
                        fire_height as int,
                        x2,
                        y2 + yshift,
                    ) as u8
                } else {
                    old(new)@[idx(w as int, x2, y2)]
                },
        decreases h - y,
    {
        if y >= yshift {
            let mut x: usize = 1;
            while x < last_col
                invariant
                    last_col == if w > 0 { w - 1 } else { 0 },
                    1 <= y,
                    y + 1 < h,
                    yshift <= y,
                    1 <= x,
                    total == w * h,
                    original@.len() == w * h,
                    new@.len() == w * h,
                    cooling_map@.len() == w * h,
                    fire_height <= h,
                    forall|x2: int, y2: int|
                        0 <= x2 < w && 0 <= y2 < h ==> #[trigger] new@[idx(w as int, x2, y2)]
                            == if (y2 + yshift < y || (y2 + yshift == y && x2 < x)) && is_interior(
                            w as int,
                            h as int,
                            yshift as int,
                            x2,
                            y2 + yshift,
                        ) {
                            diffused_cell(
                                original@,
                                cooling_map@,
                                w as int,
                                h as int,
                                fire_height as int,
                                x2,
                                y2 + yshift,
                            ) as u8
                        } else {
                            old(new)@[idx(w as int, x2, y2)]
                        },
                decreases w - x,
            {
                proof {
                    lemma_idx_bounds(w as int, h as int, x as int, y - 1);
                    lemma_idx_bounds(w as int, h as int, x as int, y + 1);
                    lemma_idx_bounds(w as int, h as int, x - 1, y as int);
                    lemma_idx_bounds(w as int, h as int, x + 1, y as int);
                    lemma_idx_bounds(w as int, h as int, x as int, y - yshift);
                }
                let up = original[x + (y - 1) * w] as u16;
                let down = original[x + (y + 1) * w] as u16;
                let left = original[(x - 1) + y * w] as u16;
                let right = original[(x + 1) + y * w] as u16;
                let mut new_val = ((up + down + left + right) / 4) as u8;
                if y < h - fire_height {
                    let cooling_val = cooling_map[x + y * w];
                    if new_val > cooling_val {
                        new_val = new_val - cooling_val;
                    } else {
                        new_val = 0;
                    }
                }
                let target = x + (y - yshift) * w;
                new[target] = new_val;
                proof {
                    assert forall|x2: int, y2: int| 0 <= x2 < w && 0 <= y2 < h implies #[trigger] new@[idx(w as int, x2, y2)] == if (y2 + yshift < y || (y2 + yshift == y && x2 < x + 1)) && is_interior(w as int, h as int, yshift as int, x2, y2 + yshift) {
                        diffused_cell(original@, cooling_map@, w as int, h as int, fire_height as int, x2, y2 + yshift) as u8
                    } else {
                        old(new)@[idx(w as int, x2, y2)]
                    } by {
                        lemma_idx_bounds(w as int, h as int, x2, y2);
                        if idx(w as int, x2, y2) == target as int {
                            lemma_idx_injective(w as int, x2, y2, x as int, y - yshift);
                        }
                    }
                }
                x += 1;
            }
        }
        y += 1;
    }
    proof {
        if w > 0 {
            let target = stepped(
                original@,
                cooling_map@,
                old(new)@,
                w as int,
                h as int,
                yshift as int,
                fire_height as int,
            );
            assert forall|x2: int, y2: int| 0 <= x2 < w && 0 <= y2 < h implies new@[idx(w as int, x2, y2)] == target[idx(w as int, x2, y2)] by {
                lemma_idx_bounds(w as int, h as int, x2, y2);
                lemma_idx_coords(w as int, x2, y2);
            }
            lemma_grid_ext(new@, target, w as int, h as int);
        }
    }
}

} // verus!
