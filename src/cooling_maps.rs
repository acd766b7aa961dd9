//! The cooling field: a `w * h` window over a noise field that scrolls by one
//! row per frame, dropping its top row and taking a freshly sampled row at
//! the bottom.
use std::collections::VecDeque;
use vstd::prelude::*;

verus! {

/// The field after one scroll step: the first `w` cells leave, `row` is
/// appended.
pub open spec fn scrolled(field: Seq<u8>, w: int, row: Seq<u8>) -> Seq<u8> {
    field.skip(w) + row
}

/// The field after one scroll step per entry of `rows`, oldest first.
pub open spec fn scrolled_by(field: Seq<u8>, w: int, rows: Seq<Seq<u8>>) -> Seq<u8>
    decreases rows.len(),
{
    if rows.len() == 0 {
        field
    } else {
        scrolled(scrolled_by(field, w, rows.drop_last()), w, rows.last())
    }
}

/// The rows laid one after another.
pub open spec fn stacked(rows: Seq<Seq<u8>>) -> Seq<u8>
    decreases rows.len(),
{
    if rows.len() == 0 {
        Seq::empty()
    } else {
        stacked(rows.drop_last()) + rows.last()
    }
}

/// Drops the top row of the field and appends `new_row` at the bottom, so
/// the field keeps its `w * h` cells.
pub fn update_cooling_map(buf: &mut VecDeque<u8>, w: usize, h: usize, new_row: &[u8])
    requires
        old(buf)@.len() == w * h,
        new_row@.len() == w,
        h > 0,
    ensures
        final(buf)@ == scrolled(old(buf)@, w as int, new_row@),
        final(buf)@.len() == w * h,
{
    proof {
        assert(w * h >= w) by (nonlinear_arith)
            requires
                h > 0,
        ;
    }
    let mut x: usize = 0;
    while x < w
        invariant
            x <= w,
            old(buf)@.len() >= w,
            new_row@.len() == w,
            buf@ == old(buf)@.skip(x as int) + new_row@.take(x as int),
        decreases w - x,
    {
        buf.pop_front();
        buf.push_back(new_row[x]);
        proof {
            assert(buf@ =~= old(buf)@.skip(x + 1) + new_row@.take(x + 1));
        }
        x += 1;
    }
    proof {
        assert(new_row@.take(w as int) =~= new_row@);
    }
}

proof fn lemma_scrolled_prefix(field: Seq<u8>, w: int, h: int, rows: Seq<Seq<u8>>, k: int)
    requires
        w >= 0,
        field.len() == w * h,
        0 <= k <= rows.len() <= h,
        forall|i: int| 0 <= i < rows.len() ==> (#[trigger] rows[i]).len() == w,
    ensures
        scrolled_by(field, w, rows.take(k)) == field.skip(k * w) + stacked(rows.take(k)),
    decreases k,
{
    if k == 0 {
        assert(rows.take(0) =~= Seq::<Seq<u8>>::empty());
        assert(field.skip(0) + stacked(rows.take(0)) =~= field);
    } else {
        lemma_scrolled_prefix(field, w, h, rows, k - 1);
        let prev = rows.take(k - 1);
        assert(rows.take(k).drop_last() =~= prev);
        assert(rows.take(k).last() == rows[k - 1]);
        let a = field.skip((k - 1) * w);
        assert((k - 1) * w + w == k * w) by (nonlinear_arith);
        assert(w * h - (k - 1) * w >= w) by (nonlinear_arith)
            requires
                k <= h,
                w >= 0,
        ;
        assert((a + stacked(prev)).skip(w) =~= field.skip(k * w) + stacked(prev));
        assert(scrolled(a + stacked(prev), w, rows[k - 1]) =~= field.skip(k * w) + stacked(
            rows.take(k),
        ));
    }
}

/// After as many scroll steps as the field has rows, no cell of the
/// original field is left: the field is exactly the new rows, oldest on top.
pub proof fn lemma_full_scroll_replaces_field(
    field: Seq<u8>,
    w: int,
    h: int,
    rows: Seq<Seq<u8>>,
)
    requires
        w >= 0,
        field.len() == w * h,
        rows.len() == h,
        forall|i: int| 0 <= i < rows.len() ==> (#[trigger] rows[i]).len() == w,
    ensures
        scrolled_by(field, w, rows) == stacked(rows),
{
    lemma_scrolled_prefix(field, w, h, rows, h);
    assert(rows.take(h) =~= rows);
    assert(h * w == w * h) by (nonlinear_arith);
    assert(field.skip(h * w) + stacked(rows) =~= stacked(rows));
}

} // verus!
