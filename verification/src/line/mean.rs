//! Weighted means that do not overflow, however long the texts that weigh them.

use vstd::arithmetic::div_mod::lemma_fundamental_div_mod_converse;
use vstd::prelude::*;

verus! {

/// A running weighted mean, rounded down: the weighted sum is `quotient * weight + rest`.
#[derive(Debug, Clone, Copy)]
pub struct Mean {
    pub quotient: i64,
    pub rest: u128,
    pub weight: u128,
}

impl Mean {
    /// The weighted sum of the values.
    pub open spec fn sum(self) -> int {
        self.quotient * self.weight + self.rest
    }

    /// Whether the quotient is the mean rounded down, and nothing without any value.
    pub open spec fn wf(self) -> bool {
        if self.weight == 0 {
            self.quotient == 0 && self.rest == 0
        } else {
            self.rest < self.weight
        }
    }

    /// The mean of no value.
    pub fn new() -> (mean: Mean)
        ensures
            mean.wf(),
            mean.sum() == 0,
            mean.weight == 0,
            mean.quotient == 0,
    {
        Mean { quotient: 0, rest: 0, weight: 0 }
    }

    /// Takes up a value that weighs `count`.
    pub fn take(&mut self, value: i32, count: u64)
        requires
            old(self).wf(),
            i32::MIN <= old(self).quotient <= i32::MAX,
            count > 0,
            old(self).weight + count <= u128::MAX,
        ensures
            final(self).wf(),
            final(self).weight == old(self).weight + count,
            final(self).sum() == old(self).sum() + value * count,
            old(self).weight == 0 ==> final(self).quotient == value,
            final(self).quotient <= old(self).quotient || final(self).quotient <= value,
            final(self).quotient >= old(self).quotient || final(self).quotient >= value,
    {
        let v: i64 = value as i64;
        let total: u128 = self.weight + count as u128;
        let ghost (q, r, w) = (self.quotient as int, self.rest as int, self.weight as int);
        let ghost (t, c) = (total as int, count as int);
        let ghost x = v as int;
        if v >= self.quotient {
            let step: u128 = (v - self.quotient) as u128;
            proof {
                lemma_step(step as int, c);
                assert(q * w + r + x * c == q * t + r + (x - q) * c) by (nonlinear_arith)
                    requires
                        t == w + c,
                ;
            }
            let more: u128 = step * (count as u128);
            let whole: u128 = more / total;
            let part: u128 = more % total;
            proof {
                lemma_divided(step as int, c, t);
            }
            let up: i64 = whole as i64;
            if self.rest >= total - part {
                self.rest = self.rest - (total - part);
                self.quotient = self.quotient + up + 1;
                proof {
                    assert((q + up + 1) * t == q * t + up * t + t) by (nonlinear_arith);
                    lemma_bounded(q, r, w, x, c, self.quotient as int, self.rest as int);
                }
            } else {
                self.rest = self.rest + part;
                self.quotient = self.quotient + up;
                proof {
                    assert((q + up) * t == q * t + up * t) by (nonlinear_arith);
                    lemma_bounded(q, r, w, x, c, self.quotient as int, self.rest as int);
                }
            }
        } else {
            let step: u128 = (self.quotient - v) as u128;
            proof {
                lemma_step(step as int, c);
                assert(q * w + r + x * c == q * t + r - (q - x) * c) by (nonlinear_arith)
                    requires
                        t == w + c,
                ;
            }
            let less: u128 = step * (count as u128);
            let whole: u128 = less / total;
            let part: u128 = less % total;
            proof {
                lemma_divided(step as int, c, t);
            }
            let down: i64 = whole as i64;
            if self.rest >= part {
                self.rest = self.rest - part;
                self.quotient = self.quotient - down;
                proof {
                    assert((q - down) * t == q * t - down * t) by (nonlinear_arith);
                    lemma_bounded(q, r, w, x, c, self.quotient as int, self.rest as int);
                }
            } else {
                self.rest = total - (part - self.rest);
                self.quotient = self.quotient - down - 1;
                proof {
                    assert((q - down - 1) * t == q * t - down * t - t) by (nonlinear_arith);
                    lemma_bounded(q, r, w, x, c, self.quotient as int, self.rest as int);
                }
            }
        }
        self.weight = total;
    }
}

/// What a step between two values weighs fits.
proof fn lemma_step(step: int, count: int)
    requires
        0 <= step <= 0xFFFF_FFFF,
        0 <= count <= 0xFFFF_FFFF_FFFF_FFFF,
    ensures
        0 <= step * count <= 0xFFFF_FFFF * 0xFFFF_FFFF_FFFF_FFFF,
{
    assert(0 <= step * count <= 0xFFFF_FFFF * 0xFFFF_FFFF_FFFF_FFFF) by (nonlinear_arith)
        requires
            0 <= step <= 0xFFFF_FFFF,
            0 <= count <= 0xFFFF_FFFF_FFFF_FFFF,
    ;
}

/// A step that weighs no more than everything moves the mean by no more than itself.
proof fn lemma_divided(step: int, count: int, total: int)
    requires
        0 <= step,
        0 < count <= total,
    ensures
        0 <= (step * count) / total <= step,
        step * count == ((step * count) / total) * total + (step * count) % total,
        0 <= (step * count) % total < total,
{
    let m = step * count;
    assert(0 <= m <= step * total) by (nonlinear_arith)
        requires
            0 <= step,
            0 < count <= total,
            m == step * count,
    ;
    assert(0 <= m / total <= step && m == (m / total) * total + m % total && 0 <= m % total
        < total) by (nonlinear_arith)
        requires
            0 <= m <= step * total,
            0 < total,
    ;
}

/// A mean of two values lies between them.
proof fn lemma_bounded(q: int, r: int, w: int, x: int, c: int, mean: int, rest: int)
    requires
        0 <= w,
        0 < c,
        w == 0 ==> q == 0 && r == 0,
        w > 0 ==> 0 <= r < w,
        mean * (w + c) + rest == q * w + r + x * c,
        0 <= rest < w + c,
    ensures
        w == 0 ==> mean == x,
        mean <= q || mean <= x,
        mean >= q || mean >= x,
{
    if w == 0 {
        assert(mean == x) by (nonlinear_arith)
            requires
                mean * c + rest == x * c,
                0 <= rest < c,
                0 < c,
        ;
    } else {
        assert(mean <= q || mean <= x) by (nonlinear_arith)
            requires
                0 < w,
                0 < c,
                0 <= r < w,
                mean * (w + c) + rest == q * w + r + x * c,
                0 <= rest < w + c,
        ;
        assert(mean >= q || mean >= x) by (nonlinear_arith)
            requires
                0 < w,
                0 < c,
                0 <= r < w,
                mean * (w + c) + rest == q * w + r + x * c,
                0 <= rest < w + c,
        ;
    }
}

/// The quotient is the weighted sum through the weight, rounded down.
pub proof fn mean_of(mean: Mean)
    requires
        mean.wf(),
    ensures
        mean.weight > 0 ==> mean.quotient == mean.sum() / (mean.weight as int),
{
    if mean.weight > 0 {
        lemma_fundamental_div_mod_converse(
            mean.sum(),
            mean.weight as int,
            mean.quotient as int,
            mean.rest as int,
        );
    }
}

} // verus!
