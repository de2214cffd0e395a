//! The zoom ladder: zoom levels snapped to a coarse, fixed set of rungs.
//!
//! Zoom is counted in thousandths, so 1000 is the native size. The rungs
//! are the multiples of the ladder's step that lie between its lowest and
//! its highest zoom; a rung is named by its multiple.

use vstd::arithmetic::div_mod::{lemma_fundamental_div_mod, lemma_fundamental_div_mod_converse};
use vstd::prelude::*;

verus! {

/// The multiple of `step` that is nearest to `zoom`; halfway goes up.
pub open spec fn nearest_rung(step: int, zoom: int) -> int {
    (2 * zoom + step) / (2 * step)
}

/// The least multiple of `step` that is no less than `min`.
pub open spec fn lowest_rung(step: int, min: int) -> int {
    (min + step - 1) / step
}

/// The greatest multiple of `step` that is no more than `max`.
pub open spec fn highest_rung(step: int, max: int) -> int {
    max / step
}

/// `v`, brought into the range from `lo` to `hi`.
pub open spec fn clamped(v: int, lo: int, hi: int) -> int {
    if v < lo {
        lo
    } else if v > hi {
        hi
    } else {
        v
    }
}

/// How far two zoom levels are apart.
pub open spec fn apart(a: int, b: int) -> int {
    if a >= b {
        a - b
    } else {
        b - a
    }
}

/// A length of `native` pixels at a zoom of `zoom` thousandths, rounded
/// to the nearest pixel, at least one pixel.
pub open spec fn scaled(native: int, zoom: int) -> int {
    clamped((native * zoom + 500) / 1000, 1, u32::MAX as int)
}

/// A zoom ladder.
#[derive(Clone, Copy, Debug)]
pub struct ZoomLadder {
    step: u32,
    lowest: u32,
    highest: u32,
}

impl ZoomLadder {
    /// The distance between two rungs, in thousandths.
    pub closed spec fn step(&self) -> int {
        self.step as int
    }

    /// The lowest rung.
    pub closed spec fn lowest(&self) -> int {
        self.lowest as int
    }

    /// The highest rung.
    pub closed spec fn highest(&self) -> int {
        self.highest as int
    }

    /// What holds of every ladder: it has a rung, and its highest rung is
    /// a zoom level that a `u32` holds.
    #[verifier::type_invariant]
    pub closed spec fn wf(&self) -> bool {
        &&& self.step > 0
        &&& self.lowest <= self.highest
        &&& self.highest * self.step <= u32::MAX
    }

    /// The rung that a zoom level is snapped to.
    pub open spec fn rung_of(&self, zoom: int) -> int {
        clamped(nearest_rung(self.step(), zoom), self.lowest(), self.highest())
    }

    /// The zoom level of a rung; a rung off the ladder counts as the
    /// nearest end of it.
    pub open spec fn zoom_of(&self, rung: int) -> int {
        clamped(rung, self.lowest(), self.highest()) * self.step()
    }

    /// The ladder of the multiples of `step` from `min` to `max`, if there
    /// is such a multiple.
    pub fn new(step: u32, min: u32, max: u32) -> (r: Option<ZoomLadder>)
        ensures
            r is Some <==> step > 0 && lowest_rung(step as int, min as int) <= highest_rung(
                step as int,
                max as int,
            ),
            r matches Some(l) ==> l.step() == step && l.lowest() == lowest_rung(
                step as int,
                min as int,
            ) && l.highest() == highest_rung(step as int, max as int),
    {
        if step == 0 {
            return None;
        }
        let lowest64: u64 = (min as u64 + step as u64 - 1) / (step as u64);
        let highest: u32 = max / step;
        if lowest64 > highest as u64 {
            return None;
        }
        proof {
            lemma_fundamental_div_mod(max as int, step as int);
            assert(highest * step == step * highest) by (nonlinear_arith);
        }
        Some(ZoomLadder { step, lowest: lowest64 as u32, highest })
    }

    /// The ladder of quarter steps from a tenth to ten times the native size.
    pub fn quarters() -> (l: ZoomLadder)
        ensures
            l.step() == 250,
            l.lowest() == 1,
            l.highest() == 40,
    {
        ZoomLadder { step: 250, lowest: 1, highest: 40 }
    }

    /// The rung that `zoom` is snapped to.
    pub fn bucket(&self, zoom: u32) -> (k: u32)
        ensures
            k == self.rung_of(zoom as int),
            self.lowest() <= k <= self.highest(),
    {
        proof {
            use_type_invariant(self);
        }
        let near: u64 = (2 * (zoom as u64) + self.step as u64) / (2 * (self.step as u64));
        if near < self.lowest as u64 {
            self.lowest
        } else if near > self.highest as u64 {
            self.highest
        } else {
            near as u32
        }
    }

    /// The zoom level of rung `k`, in thousandths.
    pub fn bucket_zoom(&self, k: u32) -> (z: u32)
        ensures
            z == self.zoom_of(k as int),
    {
        proof {
            use_type_invariant(self);
        }
        let rung: u32 = if k < self.lowest {
            self.lowest
        } else if k > self.highest {
            self.highest
        } else {
            k
        };
        assert(rung * self.step <= self.highest * self.step) by (nonlinear_arith)
            requires
                rung <= self.highest,
                self.step > 0,
        ;
        rung * self.step
    }

    /// The distance between two rungs, in thousandths.
    pub fn step_size(&self) -> (s: u32)
        ensures
            s == self.step(),
            s > 0,
    {
        proof {
            use_type_invariant(self);
        }
        self.step
    }

    /// The lowest rung.
    pub fn lowest_bucket(&self) -> (k: u32)
        ensures
            k == self.lowest(),
    {
        self.lowest
    }

    /// The highest rung.
    pub fn highest_bucket(&self) -> (k: u32)
        ensures
            k == self.highest(),
    {
        self.highest
    }
}

/// A length of `native` pixels shown at `zoom` thousandths.
pub fn scaled_size(native: u32, zoom: u32) -> (n: u32)
    ensures
        n == scaled(native as int, zoom as int),
{
    assert(native * zoom <= 0xFFFF_FFFF * 0xFFFF_FFFF) by (nonlinear_arith)
        requires
            native <= 0xFFFF_FFFF,
            zoom <= 0xFFFF_FFFF,
    ;
    let exact: u64 = ((native as u64) * (zoom as u64) + 500) / 1000;
    if exact < 1 {
        1
    } else if exact > u32::MAX as u64 {
        u32::MAX
    } else {
        exact as u32
    }
}

/// No rung of a ladder is nearer to a zoom level than the rung it is
/// snapped to.
pub proof fn lemma_snapped_is_nearest(step: int, lowest: int, highest: int, zoom: int, other: int)
    requires
        step > 0,
        zoom >= 0,
        lowest <= other <= highest,
    ensures
        apart(clamped(nearest_rung(step, zoom), lowest, highest) * step, zoom) <= apart(
            other * step,
            zoom,
        ),
{
    let q = nearest_rung(step, zoom);
    let k = clamped(q, lowest, highest);
    lemma_fundamental_div_mod(2 * zoom + step, 2 * step);
    let r = (2 * zoom + step) % (2 * step);
    assert(0 <= r < 2 * step);
    assert(2 * zoom + step == (2 * step) * q + r);
    assert((2 * step) * q == 2 * (q * step)) by (nonlinear_arith);
    // twice the zoom lies within one step around twice the nearest rung
    assert(2 * (q * step) - step <= 2 * zoom < 2 * (q * step) + step);
    if other >= k {
        assert(other * step >= k * step) by (nonlinear_arith)
            requires
                other >= k,
                step > 0,
        ;
        if other > k {
            assert(other * step >= k * step + step) by (nonlinear_arith)
                requires
                    other >= k + 1,
                    step > 0,
            ;
        }
    } else {
        assert(other * step + step <= k * step) by (nonlinear_arith)
            requires
                other + 1 <= k,
                step > 0,
        ;
    }
    if q < k {
        assert(q * step + step <= k * step) by (nonlinear_arith)
            requires
                q + 1 <= k,
                step > 0,
        ;
    } else if q > k {
        assert(k * step + step <= q * step) by (nonlinear_arith)
            requires
                k + 1 <= q,
                step > 0,
        ;
    }
}

/// Snapping a rung's own zoom level gives the rung back.
pub proof fn lemma_snap_of_rung(step: int, lowest: int, highest: int, rung: int)
    requires
        step > 0,
        0 <= lowest <= rung <= highest,
    ensures
        clamped(nearest_rung(step, rung * step), lowest, highest) == rung,
{
    assert(2 * (rung * step) + step == rung * (2 * step) + step) by (nonlinear_arith);
    lemma_fundamental_div_mod_converse(2 * (rung * step) + step, 2 * step, rung, step);
}

/// Snapping never reverses the order of two zoom levels.
pub proof fn lemma_snap_is_monotone(step: int, lowest: int, highest: int, a: int, b: int)
    requires
        step > 0,
        lowest <= highest,
        0 <= a <= b,
    ensures
        clamped(nearest_rung(step, a), lowest, highest) <= clamped(
            nearest_rung(step, b),
            lowest,
            highest,
        ),
{
    vstd::arithmetic::div_mod::lemma_div_is_ordered(2 * a + step, 2 * b + step, 2 * step);
}

} // verus!
