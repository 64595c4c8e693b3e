//! The colour transfer function: a fixed piecewise-linear gradient over the
//! escape value, with channels truncated towards zero.
use vstd::prelude::*;
use vstd::arithmetic::div_mod::{
    lemma_div_by_multiple, lemma_div_by_multiple_is_strongly_ordered, lemma_div_pos_is_pos,
    lemma_fundamental_div_mod_converse,
};

verus! {

/// The iteration budget every evaluator is run with.
pub const MAX_ITERATIONS: u32 = 100;

/// The outcome of iterating one point: after `iters` steps out of a budget
/// of `max` the orbit escaped (or, for Newton, converged). A count that
/// reaches the budget means the point never escaped: the interior, whose
/// escape value is exactly one.
#[derive(Clone, Copy, Debug, PartialEq, Eq, Structural)]
pub struct Escape {
    pub iters: u32,
    pub max: u32,
}

impl Escape {
    /// The point escaped after `iters` of `max` steps.
    pub fn escaped(iters: u32, max: u32) -> (r: Escape)
        ensures
            r.iters == iters,
            r.max == max,
    {
        Escape { iters, max }
    }

    /// The budget of `max` steps ran out without an escape.
    pub fn interior(max: u32) -> (r: Escape)
        ensures
            r.iters == max,
            r.max == max,
            r.is_interior(),
    {
        Escape { iters: max, max }
    }

    /// Escape value one: the point is treated as inside the set.
    pub open spec fn is_interior(self) -> bool {
        self.iters >= self.max
    }

    /// The escape value `iters / max` lies above `num / den`.
    pub open spec fn above(self, num: int, den: int) -> bool {
        den * self.iters > num * self.max
    }

    /// Whether the value lies strictly above `num / den`.
    pub fn is_above(self, num: u128, den: u128) -> (r: bool)
        requires
            num <= 100_000,
            den <= 100_000,
        ensures
            r == self.above(num as int, den as int),
    {
        proof {
            assert(den * self.iters <= 100_000 * 0xffff_ffff) by (nonlinear_arith)
                requires den <= 100_000, self.iters <= 0xffff_ffff;
            assert(num * self.max <= 100_000 * 0xffff_ffff) by (nonlinear_arith)
                requires num <= 100_000, self.max <= 0xffff_ffff;
        }
        den * (self.iters as u128) > num * (self.max as u128)
    }
}

/// `floor(rate * d / den)` for a non-negative offset `d`: one channel's
/// change along a gradient segment, truncated as the channel is stored.
pub open spec fn truncated(rate: nat, d: int, den: int) -> int {
    rate * d / den
}

/// The gradient, channel by channel, as exact integers. With `v` the escape
/// value `iters / max`:
/// above 0.813 the slope is 5.346 and the colour falls from (32, 107, 203);
/// above 0.5054 the slope is 3.2509 and it falls from (237, 255, 255);
/// above 0.2527 the slope is 3.957, red falls from 255 while green rises
/// from 170 and blue from 0; below that the slope is 3.957 from black, with
/// red rising at 255 and green at 170 per unit of delta. The interior is black.
pub open spec fn gradient(e: Escape) -> (int, int, int) {
    let i = e.iters as int;
    let m = e.max as int;
    if e.is_interior() {
        (0, 0, 0)
    } else if e.above(813, 1000) {
        let d = 1000 * i - 813 * m;
        let den = 1_000_000 * m;
        (
            32 - truncated(32 * 5346, d, den),
            107 - truncated(100 * 5346, d, den),
            203 - truncated(103 * 5346, d, den),
        )
    } else if e.above(5054, 10000) {
        let d = 10000 * i - 5054 * m;
        let den = 100_000_000 * m;
        (
            237 - truncated(205 * 32509, d, den),
            255 - truncated(148 * 32509, d, den),
            255 - truncated(52 * 32509, d, den),
        )
    } else if e.above(2527, 10000) {
        let d = 10000 * i - 2527 * m;
        let den = 10_000_000 * m;
        (
            255 - truncated(18 * 3957, d, den),
            170 + truncated(85 * 3957, d, den),
            truncated(255 * 3957, d, den),
        )
    } else {
        let den = 1000 * m;
        (truncated(255 * 3957, i, den), truncated(170 * 3957, i, den), 0)
    }
}

/// One truncated channel offset, below `lim`.
fn truncated_part(rate: u128, d: u128, den: u128, lim: u128) -> (r: u8)
    requires
        0 < den,
        rate <= 10_000_000,
        d <= 10_000 * 0xffff_ffff,
        lim <= 256,
        rate * d < lim * den,
    ensures
        r as int == truncated(rate as nat, d as int, den as int),
        r < lim,
{
    proof {
        assert(rate * d <= 10_000_000 * (10_000 * 0xffff_ffff)) by (nonlinear_arith)
            requires rate <= 10_000_000, d <= 10_000 * 0xffff_ffff;
        lemma_div_pos_is_pos((rate * d) as int, den as int);
        lemma_div_by_multiple_is_strongly_ordered(
            (rate * d) as int,
            (lim * den) as int,
            lim as int,
            den as int,
        );
        lemma_div_by_multiple(lim as int, den as int);
    }
    (rate * d / den) as u8
}

/// The colour of an escape value: black for the interior, otherwise the
/// gradient with every channel truncated.
pub fn paint_fractal(e: Escape) -> (r: (u8, u8, u8))
    ensures
        (r.0 as int, r.1 as int, r.2 as int) == gradient(e),
        e.is_interior() ==> r == (0u8, 0u8, 0u8),
{
    if e.iters >= e.max {
        return (0, 0, 0);
    }
    let i = e.iters as u128;
    let m = e.max as u128;
    if e.is_above(813, 1000) {
        let d = 1000 * i - 813 * m;
        let den = 1_000_000 * m;
        let r = 32 - truncated_part(32 * 5346, d, den, 32);
        let g = 107 - truncated_part(100 * 5346, d, den, 100);
        let b = 203 - truncated_part(103 * 5346, d, den, 103);
        (r, g, b)
    } else if e.is_above(5054, 10000) {
        let d = 10000 * i - 5054 * m;
        let den = 100_000_000 * m;
        let r = 237 - truncated_part(205 * 32509, d, den, 205);
        let g = 255 - truncated_part(148 * 32509, d, den, 148);
        let b = 255 - truncated_part(52 * 32509, d, den, 52);
        (r, g, b)
    } else if e.is_above(2527, 10000) {
        let d = 10000 * i - 2527 * m;
        let den = 10_000_000 * m;
        let r = 255 - truncated_part(18 * 3957, d, den, 18);
        let g = 170 + truncated_part(85 * 3957, d, den, 85);
        let b = truncated_part(255 * 3957, d, den, 255);
        (r, g, b)
    } else {
        let den = 1000 * m;
        let r = truncated_part(255 * 3957, i, den, 255);
        let g = truncated_part(170 * 3957, i, den, 170);
        (r, g, 0)
    }
}

/// A truncated offset is below `lim` when the exact one is.
proof fn lemma_truncated_below(rate: nat, d: int, den: int, lim: int)
    requires
        0 <= d,
        0 < den,
        0 < lim,
        rate * d < lim * den,
    ensures
        0 <= truncated(rate, d, den) < lim,
{
    lemma_div_pos_is_pos(rate * d, den);
    lemma_div_by_multiple_is_strongly_ordered(rate * d, lim * den, lim, den);
    lemma_div_by_multiple(lim, den);
}

/// A truncated offset is `k` when the exact one lies in `[k, k + 1)`.
proof fn lemma_truncated_is(rate: nat, d: int, den: int, k: int)
    requires
        0 < den,
        k * den <= rate * d < (k + 1) * den,
    ensures
        truncated(rate, d, den) == k,
{
    assert((k + 1) * den == k * den + den) by (nonlinear_arith);
    lemma_fundamental_div_mod_converse(rate * d, den, k, rate * d - k * den);
}

/// The three breakpoints of the gradient, as fractions: 0.813, 0.5054 and
/// 0.2527.
pub open spec fn is_breakpoint(num: int, den: int) -> bool {
    (num == 813 && den == 1000) || (num == 5054 && den == 10000) || (num == 2527 && den == 10000)
}

/// Two colours differ by at most one in every channel.
pub open spec fn within_one(a: (int, int, int), b: (int, int, int)) -> bool {
    &&& -1 <= a.0 - b.0 <= 1
    &&& -1 <= a.1 - b.1 <= 1
    &&& -1 <= a.2 - b.2 <= 1
}

/// The gradient is continuous at each breakpoint up to truncation: the
/// colour of an escape value that sits exactly on a breakpoint and the
/// colour of one above it by less than 1/2000 differ by at most one in
/// every channel.
pub proof fn lemma_gradient_continuous(at: Escape, above: Escape, num: int, den: int)
    requires
        is_breakpoint(num, den),
        at.max > 0,
        den * at.iters == num * at.max,
        above.above(num, den),
        2000 * (den * above.iters - num * above.max) < den * above.max,
    ensures
        within_one(gradient(at), gradient(above)),
{
    let i = at.iters as int;
    let m = at.max as int;
    let hi = above.iters as int;
    let hm = above.max as int;
    assert(den * i == num * m && den * hi > num * hm && 2000 * (den * hi - num * hm) < den * hm);
    if num == 813 {
        assert(1000 * i == 813 * m && 1000 * hi > 813 * hm && 2000 * (1000 * hi - 813 * hm) < 1000 * hm)
            by (nonlinear_arith)
            requires
                num == 813,
                den == 1000,
                den * i == num * m && den * hi > num * hm && 2000 * (den * hi - num * hm) < den * hm,
        ;
        let d = 10000 * i - 5054 * m;
        assert(d == 3076 * m);
        lemma_truncated_is(205 * 32509, d, 100_000_000 * m, 204);
        lemma_truncated_is(148 * 32509, d, 100_000_000 * m, 147);
        lemma_truncated_is(52 * 32509, d, 100_000_000 * m, 51);
        let e = 1000 * hi - 813 * hm;
        lemma_truncated_below(32 * 5346, e, 1_000_000 * hm, 1);
        lemma_truncated_below(100 * 5346, e, 1_000_000 * hm, 1);
        lemma_truncated_below(103 * 5346, e, 1_000_000 * hm, 1);
    } else if num == 5054 {
        assert(10000 * i == 5054 * m && 10000 * hi > 5054 * hm && 2000 * (10000 * hi - 5054 * hm) < 10000 * hm)
            by (nonlinear_arith)
            requires
                num == 5054,
                den == 10000,
                den * i == num * m && den * hi > num * hm && 2000 * (den * hi - num * hm) < den * hm,
        ;
        let d = 10000 * i - 2527 * m;
        assert(d == 2527 * m);
        lemma_truncated_is(18 * 3957, d, 10_000_000 * m, 17);
        lemma_truncated_is(85 * 3957, d, 10_000_000 * m, 84);
        lemma_truncated_is(255 * 3957, d, 10_000_000 * m, 254);
        let e = 10000 * hi - 5054 * hm;
        lemma_truncated_below(205 * 32509, e, 100_000_000 * hm, 1);
        lemma_truncated_below(148 * 32509, e, 100_000_000 * hm, 1);
        lemma_truncated_below(52 * 32509, e, 100_000_000 * hm, 1);
    } else {
        assert(10000 * i == 2527 * m && 10000 * hi > 2527 * hm && 2000 * (10000 * hi - 2527 * hm) < 10000 * hm)
            by (nonlinear_arith)
            requires
                num == 2527,
                den == 10000,
                den * i == num * m && den * hi > num * hm && 2000 * (den * hi - num * hm) < den * hm,
        ;
        lemma_truncated_is(255 * 3957, i, 1000 * m, 254);
        lemma_truncated_is(170 * 3957, i, 1000 * m, 169);
        let e = 10000 * hi - 2527 * hm;
        lemma_truncated_below(18 * 3957, e, 10_000_000 * hm, 1);
        lemma_truncated_below(85 * 3957, e, 10_000_000 * hm, 1);
        lemma_truncated_below(255 * 3957, e, 10_000_000 * hm, 1);
    }
}

} // verus!
