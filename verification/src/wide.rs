//! Natural numbers of up to 256 bits, for the sums that 128 bits cannot
//! hold.

use vstd::prelude::*;
use crate::rounding::{floor_sqrt, is_floor_sqrt, lemma_floor_sqrt, root_nearest};

verus! {

/// Two to the power 64.
pub const LIMB: u128 = 0x1_0000_0000_0000_0000;

/// Two to the power 128.
pub open spec fn base() -> nat {
    0x1_0000_0000_0000_0000_0000_0000_0000_0000nat
}

/// A natural number below two to the power 256, in two halves of 128
/// bits.
#[derive(Clone, Copy, Debug, PartialEq, Eq)]
pub struct Wide {
    /// The upper half: it counts multiples of two to the power 128.
    pub hi: u128,
    /// The lower half.
    pub lo: u128,
}

impl View for Wide {
    type V = nat;

    /// The number that the two halves stand for.
    open spec fn view(&self) -> nat {
        (self.hi * base() + self.lo) as nat
    }
}

/// A product is bounded by the product of bounds on its factors.
proof fn lemma_product_bounded(a: nat, b: nat, max_a: nat, max_b: nat)
    requires
        a <= max_a,
        b <= max_b,
    ensures
        a * b <= max_a * max_b,
{
    assert(a * b <= max_a * max_b) by (nonlinear_arith)
        requires
            a <= max_a,
            b <= max_b,
    ;
}

impl Wide {
    /// The number `x`.
    pub fn from_u128(x: u128) -> (r: Wide)
        ensures
            r@ == x,
    {
        Wide { hi: 0, lo: x }
    }

    /// The product of `a` and `b`, in full.
    pub fn product(a: u128, b: u128) -> (r: Wide)
        ensures
            r@ == a * b,
    {
        let a1: u128 = a / LIMB;
        let a0: u128 = a % LIMB;
        let b1: u128 = b / LIMB;
        let b0: u128 = b % LIMB;
        proof {
            lemma_product_bounded(a0 as nat, b0 as nat, (LIMB - 1) as nat, (LIMB - 1) as nat);
            lemma_product_bounded(a0 as nat, b1 as nat, (LIMB - 1) as nat, (LIMB - 1) as nat);
            lemma_product_bounded(a1 as nat, b0 as nat, (LIMB - 1) as nat, (LIMB - 1) as nat);
            lemma_product_bounded(a1 as nat, b1 as nat, (LIMB - 1) as nat, (LIMB - 1) as nat);
        }
        let p00: u128 = a0 * b0;
        let p01: u128 = a0 * b1;
        let p10: u128 = a1 * b0;
        let p11: u128 = a1 * b1;
        let mid: u128 = p00 / LIMB + p01 % LIMB + p10 % LIMB;
        let lo: u128 = (mid % LIMB) * LIMB + p00 % LIMB;
        let hi: u128 = p11 + p01 / LIMB + p10 / LIMB + mid / LIMB;
        proof {
            assert(a * b == p11 * 0x1_0000_0000_0000_0000_0000_0000_0000_0000int + (p10 + p01)
                * 0x1_0000_0000_0000_0000 + p00) by (nonlinear_arith)
                requires
                    a == a1 * 0x1_0000_0000_0000_0000 + a0,
                    b == b1 * 0x1_0000_0000_0000_0000 + b0,
                    p00 == a0 * b0,
                    p01 == a0 * b1,
                    p10 == a1 * b0,
                    p11 == a1 * b1,
            ;
        }
        Wide { hi, lo }
    }

    /// The sum of two numbers.
    pub fn plus(self, other: Wide) -> (r: Wide)
        requires
            self@ + other@ < base() * base(),
        ensures
            r@ == self@ + other@,
    {
        if self.lo > u128::MAX - other.lo {
            Wide { hi: self.hi + other.hi + 1, lo: self.lo - (u128::MAX - other.lo) - 1 }
        } else {
            Wide { hi: self.hi + other.hi, lo: self.lo + other.lo }
        }
    }

    /// The difference of two numbers.
    pub fn minus(self, other: Wide) -> (r: Wide)
        requires
            other@ <= self@,
        ensures
            r@ == self@ - other@,
    {
        if self.lo < other.lo {
            Wide { hi: self.hi - other.hi - 1, lo: u128::MAX - other.lo + self.lo + 1 }
        } else {
            Wide { hi: self.hi - other.hi, lo: self.lo - other.lo }
        }
    }

    /// Whether this number is at most `other`.
    pub fn at_most(self, other: Wide) -> (r: bool)
        ensures
            r == (self@ <= other@),
    {
        self.hi < other.hi || (self.hi == other.hi && self.lo <= other.lo)
    }

    /// This number times `n`.
    pub fn times(self, n: u128) -> (r: Wide)
        requires
            self@ * n < base() * base(),
        ensures
            r@ == self@ * n,
    {
        let low = Wide::product(self.lo, n);
        proof {
            let h = self.hi as int;
            let l = self.lo as int;
            let b = base() as int;
            assert((h * b + l) * n == (h * n) * b + l * n && h * n >= 0 && l * n >= 0)
                by (nonlinear_arith)
                requires
                    h >= 0,
                    l >= 0,
                    n >= 0,
            ;
            assert(h * n + low.hi < b) by (nonlinear_arith)
                requires
                    (h * n) * b + low.hi * b + low.lo < b * b,
                    low.lo >= 0,
                    b > 0,
            ;
        }
        Wide { hi: self.hi * n + low.hi, lo: low.lo }
    }

    /// The square root of this number, rounded down.
    pub fn isqrt(self) -> (r: u128)
        ensures
            r == floor_sqrt(self@),
    {
        let mut low: u128 = 0;
        let mut high: u128 = u128::MAX;
        proof {
            assert(low * low <= self@ && self@ < (high + 1) * (high + 1)) by (nonlinear_arith)
                requires
                    low == 0,
                    high + 1 == base(),
                    self@ == self.hi * base() + self.lo,
                    0 <= self.hi < base(),
                    0 <= self.lo < base(),
            ;
        }
        while low < high
            invariant
                low <= high,
                low * low <= self@,
                self@ < (high + 1) * (high + 1),
            decreases high - low,
        {
            let mid: u128 = high - (high - low) / 2;
            if Wide::product(mid, mid).at_most(self) {
                low = mid;
            } else {
                high = mid - 1;
            }
        }
        proof {
            assert(is_floor_sqrt(low as nat, self@));
            lemma_floor_sqrt(self@);
        }
        low
    }

    /// The square root of this number divided by `n`, rounded to the
    /// nearest integer and halves up. The number is to be below two to
    /// the power 254, so that the result fits.
    pub fn nearest_root(self, n: u32) -> (r: u128)
        requires
            n > 0,
            4 * self@ < base() * base(),
        ensures
            r == root_nearest(self@, n as nat),
    {
        let s: u128 = self.isqrt();
        proof {
            lemma_floor_sqrt(self@);
            assert(s < 0x8000_0000_0000_0000_0000_0000_0000_0000 && s * s + s < base() * base())
                by (nonlinear_arith)
                requires
                    s * s <= self@,
                    4 * self@ < base() * base(),
                    base() == 0x1_0000_0000_0000_0000_0000_0000_0000_0000,
                    s >= 0,
            ;
        }
        let beyond = Wide::product(s, s).plus(Wide::from_u128(s));
        let t: u128 = if self.at_most(beyond) {
            2 * s
        } else {
            2 * s + 1
        };
        proof {
            assert(is_floor_sqrt(t as nat, 4 * self@)) by (nonlinear_arith)
                requires
                    s * s <= self@,
                    self@ < (s + 1) * (s + 1),
                    t == 2 * s + if self@ <= s * s + s {
                        0int
                    } else {
                        1int
                    },
            ;
            lemma_floor_sqrt(4 * self@);
        }
        let divisor: u128 = 2 * (n as u128);
        let whole: u128 = t / divisor;
        let rest: u128 = t % divisor;
        assert(t == whole * divisor + rest && rest < divisor && 2 * whole <= t)
            by (nonlinear_arith)
            requires
                whole == t / divisor,
                rest == t % divisor,
                divisor >= 2,
                t >= 0,
        ;
        let r: u128 = if rest >= n as u128 {
            whole + 1
        } else {
            whole
        };
        assert(r == (t + n) / (2 * n)) by (nonlinear_arith)
            requires
                n > 0,
                t == whole * divisor + rest,
                divisor == 2 * n,
                0 <= rest < 2 * n,
                r == whole + if rest >= n {
                    1int
                } else {
                    0int
                },
        ;
        r
    }
}

} // verus!
