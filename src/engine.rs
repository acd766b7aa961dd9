//! The simulation as a whole: a heat buffer and its scratch twin, the
//! cooling field with its scroll cursor, and the fire mask, advanced one
//! frame at a time.
use crate::cooling_maps::{
    lemma_full_scroll_replaces_field, scrolled, scrolled_by, stacked, update_cooling_map,
};
use crate::fire_handler::{seed_fire, seeded, smooth_and_cool, stepped};
use std::collections::VecDeque;
use vstd::prelude::*;

verus! {

/// Why a set of simulation settings is refused.
#[derive(Clone, Copy, PartialEq, Eq, Debug, Structural)]
pub enum ConfigError {
    /// Width or height below 3: no interior is left inside the border.
    ViewportTooSmall,
    /// `w * h` cells do not fit in memory.
    ViewportTooLarge,
    /// A fill percentage above 100.
    FillPercentageOutOfRange,
    /// A hot base taller than the viewport.
    BaseHeightTooLarge,
}

/// The verdict on settings `w`, `h`, `fill_percentage`, `base_height`,
/// checked in this order.
pub open spec fn config_verdict(w: int, h: int, fill_percentage: int, base_height: int) -> Result<
    (),
    ConfigError,
> {
    if w < 3 || h < 3 {
        Err(ConfigError::ViewportTooSmall)
    } else if w * h > usize::MAX {
        Err(ConfigError::ViewportTooLarge)
    } else if fill_percentage > 100 {
        Err(ConfigError::FillPercentageOutOfRange)
    } else if base_height > h {
        Err(ConfigError::BaseHeightTooLarge)
    } else {
        Ok(())
    }
}

/// Checks the settings that a simulation is started with.
pub fn check_configs(w: usize, h: usize, fill_percentage: u8, base_height: usize) -> (r: Result<
    (),
    ConfigError,
>)
    ensures
        r == config_verdict(w as int, h as int, fill_percentage as int, base_height as int),
{
    if w < 3 || h < 3 {
        return Err(ConfigError::ViewportTooSmall);
    }
    if w.checked_mul(h).is_none() {
        return Err(ConfigError::ViewportTooLarge);
    }
    if fill_percentage > 100 {
        return Err(ConfigError::FillPercentageOutOfRange);
    }
    if base_height > h {
        return Err(ConfigError::BaseHeightTooLarge);
    }
    Ok(())
}

/// The state of a simulation as the contracts see it.
pub struct FireState {
    pub w: int,
    pub h: int,
    pub yshift: int,
    pub fire_height: int,
    pub fire_mask: Seq<bool>,
    /// The heat buffer of the last finished frame.
    pub current: Seq<u8>,
    /// The buffer that the next frame is computed into.
    pub scratch: Seq<u8>,
    pub cooling: Seq<u8>,
    /// Scroll steps taken by the cooling field, in units of its length scale.
    pub scroll: int,
}

/// Sizes and settings under which a frame can be computed.
pub open spec fn state_ok(s: FireState) -> bool {
    &&& s.w > 0
    &&& s.h > 0
    &&& s.w * s.h <= usize::MAX
    &&& 0 <= s.yshift <= usize::MAX
    &&& 0 <= s.fire_height <= s.h
    &&& s.fire_mask.len() as int / s.w <= s.h
    &&& s.current.len() == s.w * s.h
    &&& s.scratch.len() == s.w * s.h
    &&& s.cooling.len() == s.w * s.h
    &&& 0 <= s.scroll <= u64::MAX
}

/// One frame: diffuse and cool into the scratch buffer, re-seed it, scroll
/// the cooling field by `row`, and make the scratch buffer current.
pub open spec fn next_state(s: FireState, row: Seq<u8>) -> FireState {
    let next = seeded(
        stepped(s.current, s.cooling, s.scratch, s.w, s.h, s.yshift, s.fire_height),
        s.fire_mask,
        s.w,
        s.h,
    );
    FireState {
        current: next,
        scratch: next,
        cooling: scrolled(s.cooling, s.w, row),
        scroll: if s.scroll < u64::MAX {
            s.scroll + 1
        } else {
            s.scroll
        },
        ..s
    }
}

/// The state after one frame per entry of `rows`, each entry being the
/// cooling row sampled for that frame.
pub open spec fn run(s: FireState, rows: Seq<Seq<u8>>) -> FireState
    decreases rows.len(),
{
    if rows.len() == 0 {
        s
    } else {
        next_state(run(s, rows.drop_last()), rows.last())
    }
}

/// Runs from the same state on the same cooling rows agree frame by frame:
/// the heat buffers they produce are identical.
pub proof fn lemma_run_deterministic(s1: FireState, s2: FireState, rows: Seq<Seq<u8>>, k: int)
    requires
        s1 == s2,
        0 <= k <= rows.len(),
    ensures
        run(s1, rows.take(k)).current == run(s2, rows.take(k)).current,
{
}

proof fn lemma_run_cooling(s: FireState, rows: Seq<Seq<u8>>)
    requires
        s.scroll + rows.len() <= u64::MAX,
    ensures
        run(s, rows).cooling == scrolled_by(s.cooling, s.w, rows),
        run(s, rows).scroll == s.scroll + rows.len(),
        run(s, rows).w == s.w,
    decreases rows.len(),
{
    if rows.len() > 0 {
        lemma_run_cooling(s, rows.drop_last());
    }
}

/// After `h` frames the noise cursor has moved on by `h` rows and every cell
/// of the cooling field has been sampled afresh: the field holds exactly the
/// rows handed in, oldest on top.
pub proof fn lemma_full_scroll(s: FireState, rows: Seq<Seq<u8>>)
    requires
        state_ok(s),
        rows.len() == s.h,
        forall|i: int| 0 <= i < rows.len() ==> (#[trigger] rows[i]).len() == s.w,
        s.scroll + s.h <= u64::MAX,
    ensures
        run(s, rows).scroll == s.scroll + s.h,
        run(s, rows).cooling == stacked(rows),
{
    lemma_run_cooling(s, rows);
    lemma_full_scroll_replaces_field(s.cooling, s.w, s.h, rows);
}

/// A fire simulation over a `w * h` heat buffer.
pub struct FireEngine {
    w: usize,
    h: usize,
    yshift: usize,
    fire_height: usize,
    fire_mask: Vec<bool>,
    current: Vec<u8>,
    scratch: Vec<u8>,
    cooling: VecDeque<u8>,
    scroll: u64,
}

impl View for FireEngine {
    type V = FireState;

    closed spec fn view(&self) -> FireState {
        FireState {
            w: self.w as int,
            h: self.h as int,
            yshift: self.yshift as int,
            fire_height: self.fire_height as int,
            fire_mask: self.fire_mask@,
            current: self.current@,
            scratch: self.scratch@,
            cooling: self.cooling@,
            scroll: self.scroll as int,
        }
    }
}

/// `n` cells of zero heat.
pub open spec fn cold(n: int) -> Seq<u8> {
    Seq::new(n as nat, |i: int| 0u8)
}

impl FireEngine {
    /// Starts a simulation: both buffers cold, then the mask seeded into the
    /// current one. `cooling` is the initial cooling field, row by row.
    pub fn new(
        w: usize,
        h: usize,
        yshift: usize,
        fire_height: usize,
        fire_mask: Vec<bool>,
        cooling: VecDeque<u8>,
    ) -> (r: Self)
        requires
            w > 0,
            h > 0,
            w * h <= usize::MAX,
            fire_height <= h,
            fire_mask@.len() as int / (w as int) <= h,
            cooling@.len() == w * h,
        ensures
            state_ok(r@),
            r@ == (FireState {
                w: w as int,
                h: h as int,
                yshift: yshift as int,
                fire_height: fire_height as int,
                fire_mask: fire_mask@,
                current: seeded(cold(w * h), fire_mask@, w as int, h as int),
                scratch: cold(w * h),
                cooling: cooling@,
                scroll: 0,
            }),
    {
        let n = w * h;
        let mut current: Vec<u8> = Vec::new();
        let mut scratch: Vec<u8> = Vec::new();
        let mut i: usize = 0;
        while i < n
            invariant
                i <= n,
                current@ == cold(i as int),
                scratch@ == cold(i as int),
            decreases n - i,
        {
            current.push(0);
            scratch.push(0);
            proof {
                assert(current@ =~= cold(i + 1));
                assert(scratch@ =~= cold(i + 1));
            }
            i += 1;
        }
        seed_fire(current.as_mut_slice(), w, h, fire_mask.as_slice());
        FireEngine { w, h, yshift, fire_height, fire_mask, current, scratch, cooling, scroll: 0 }
    }

    /// Computes one frame. `new_cooling_row` is the row of `w` cooling
    /// values sampled for the trailing edge of the field.
    pub fn frame(&mut self, new_cooling_row: &[u8])
        requires
            state_ok(old(self)@),
            new_cooling_row@.len() == old(self)@.w,
        ensures
            state_ok(final(self)@),
            final(self)@ == next_state(old(self)@, new_cooling_row@),
    {
        smooth_and_cool(
            self.current.as_slice(),
            self.scratch.as_mut_slice(),
            self.w,
            self.h,
            self.yshift,
            &self.cooling,
            self.fire_height,
        );
        seed_fire(self.scratch.as_mut_slice(), self.w, self.h, self.fire_mask.as_slice());
        update_cooling_map(&mut self.cooling, self.w, self.h, new_cooling_row);
        self.scroll = self.scroll.saturating_add(1);
        let n = self.scratch.len();
        let ghost mid = self@;
        let mut i: usize = 0;
        while i < n
            invariant
                self@ == (FireState { current: self.current@, ..mid }),
                n == self.scratch@.len(),
                self.current@.len() == n,
                i <= n,
                forall|j: int| 0 <= j < i ==> self.current@[j] == self.scratch@[j],
            decreases n - i,
        {
            self.current.set(i, self.scratch[i]);
            i += 1;
        }
        proof {
            assert(self.current@ =~= self.scratch@);
        }
    }

    /// The heat buffer of the last finished frame.
    pub fn heat(&self) -> (r: &[u8])
        ensures
            r@ == self@.current,
    {
        self.current.as_slice()
    }

    /// The cooling field, row by row.
    pub fn cooling_field(&self) -> (r: &VecDeque<u8>)
        ensures
            r@ == self@.cooling,
    {
        &self.cooling
    }

    /// Scroll steps taken so far: the noise cursor, in units of the
    /// cooling length scale.
    pub fn scroll_position(&self) -> (r: u64)
        ensures
            r == self@.scroll,
    {
        self.scroll
    }
}

} // verus!
