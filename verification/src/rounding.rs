//! Integer division and square roots that round to the nearest integer.

use vstd::prelude::*;

verus! {

/// The quotient `a / b` rounded to the nearest natural number, halves
/// rounded up. Only meaningful for `b > 0`.
pub open spec fn div_nearest(a: nat, b: nat) -> nat {
    (2 * a + b) / (2 * b)
}

/// `div_nearest(a, b)` is the one natural number within half a unit of the
/// exact quotient: `q - 1/2 <= a / b < q + 1/2`.
pub proof fn lemma_div_nearest_is_nearest(a: nat, b: nat)
    requires
        b > 0,
    ensures
        2 * b * div_nearest(a, b) <= 2 * a + b,
        2 * a + b < 2 * b * (div_nearest(a, b) + 1),
{
    let q = div_nearest(a, b);
    assert(2 * b * q <= 2 * a + b && 2 * a + b < 2 * b * (q + 1)) by (nonlinear_arith)
        requires
            b > 0,
            q == (2 * a + b) / (2 * b),
    ;
}

/// Any natural number within half a unit of `a / b` is `div_nearest(a, b)`.
pub proof fn lemma_div_nearest_unique(a: nat, b: nat, q: nat)
    requires
        b > 0,
        2 * b * q <= 2 * a + b,
        2 * a + b < 2 * b * (q + 1),
    ensures
        q == div_nearest(a, b),
{
    assert(q == (2 * a + b) / (2 * b)) by (nonlinear_arith)
        requires
            b > 0,
            2 * b * q <= 2 * a + b,
            2 * a + b < 2 * b * (q + 1),
    ;
}

/// Divides `a` by `b`, rounding to the nearest integer and halves up.
pub fn rounded_div(a: u128, b: u32) -> (q: u128)
    requires
        b > 0,
    ensures
        q == div_nearest(a as nat, b as nat),
{
    let divisor: u128 = b as u128;
    let whole: u128 = a / divisor;
    let rest: u128 = a % divisor;
    assert(a == whole * divisor + rest && rest < divisor) by (nonlinear_arith)
        requires
            whole == a / divisor,
            rest == a % divisor,
            divisor > 0,
    ;
    let q: u128 = if 2 * rest >= divisor {
        assert(whole < u128::MAX) by (nonlinear_arith)
            requires
                a == whole * divisor + rest,
                2 * rest >= divisor,
                divisor >= 1,
                a <= u128::MAX,
        ;
        whole + 1
    } else {
        whole
    };
    proof {
        assert(2 * b * q <= 2 * a + b && 2 * a + b < 2 * b * (q + 1)) by (nonlinear_arith)
            requires
                b > 0,
                a == whole * b + rest,
                0 <= rest < b,
                q == whole + if 2 * rest >= b {
                    1int
                } else {
                    0int
                },
        ;
        lemma_div_nearest_unique(a as nat, b as nat, q as nat);
    }
    q
}

/// `r` is the square root of `x` rounded down.
pub open spec fn is_floor_sqrt(r: nat, x: nat) -> bool {
    r * r <= x && x < (r + 1) * (r + 1)
}

/// The square root of `x`, rounded down.
pub open spec fn floor_sqrt(x: nat) -> nat {
    choose|r: nat| is_floor_sqrt(r, x)
}

/// Squaring keeps the order of natural numbers.
proof fn lemma_square_monotonic(a: nat, b: nat)
    ensures
        a <= b ==> a * a <= b * b,
        a < b ==> a * a < b * b,
{
    assert(a <= b ==> a * a <= b * b) by (nonlinear_arith);
    assert(a < b ==> a * a < b * b) by (nonlinear_arith);
}

/// Every natural number has a square root rounded down.
proof fn lemma_floor_sqrt_exists(x: nat) -> (r: nat)
    ensures
        is_floor_sqrt(r, x),
    decreases x,
{
    if x == 0 {
        assert(is_floor_sqrt(0, 0)) by (nonlinear_arith);
        0
    } else {
        let below = lemma_floor_sqrt_exists((x - 1) as nat);
        if (below + 1) * (below + 1) <= x {
            assert((below + 1) * (below + 1) < (below + 2) * (below + 2)) by (nonlinear_arith);
            (below + 1) as nat
        } else {
            below
        }
    }
}

/// `floor_sqrt(x)` is the square root of `x` rounded down, and nothing
/// else is.
pub proof fn lemma_floor_sqrt(x: nat)
    ensures
        is_floor_sqrt(floor_sqrt(x), x),
        forall|r: nat| is_floor_sqrt(r, x) ==> r == floor_sqrt(x),
{
    let witness = lemma_floor_sqrt_exists(x);
    let root = floor_sqrt(x);
    assert forall|r: nat| is_floor_sqrt(r, x) implies r == root by {
        lemma_square_monotonic(r + 1, root);
        lemma_square_monotonic(root + 1, r);
    }
}

/// The square root of `x / (n * n)`, which is the square root of `x`
/// divided by `n`, rounded to the nearest natural number, halves rounded
/// up. Only meaningful for `n > 0`.
pub open spec fn root_nearest(x: nat, n: nat) -> nat {
    (floor_sqrt(4 * x) + n) / (2 * n)
}

/// `root_nearest(x, n)` is within half a unit of the square root of
/// `x / (n * n)`: with `r` for it, `r - 1/2 <= sqrt(x) / n < r + 1/2`,
/// stated here in squares and cleared of fractions.
pub proof fn lemma_root_nearest_is_nearest(x: nat, n: nat)
    requires
        n > 0,
    ensures
        4 * x < ((2 * root_nearest(x, n) + 1) * n) * ((2 * root_nearest(x, n) + 1) * n),
        root_nearest(x, n) > 0 ==> ((2 * root_nearest(x, n) - 1) * n) * ((2 * root_nearest(x, n)
            - 1) * n) <= 4 * x,
{
    let t = floor_sqrt(4 * x);
    let r = root_nearest(x, n);
    lemma_floor_sqrt(4 * x);
    let above: nat = (2 * r + 1) * n;
    assert(2 * n * r <= t + n && t + n < 2 * n * r + 2 * n && above == 2 * n * r + n)
        by (nonlinear_arith)
        requires
            n > 0,
            r == (t + n) / (2 * n),
            above == (2 * r + 1) * n,
    ;
    lemma_square_monotonic(t + 1, above);
    if r > 0 {
        let below: int = (2 * r - 1) * n;
        assert(below == 2 * n * r - n && below >= 0) by (nonlinear_arith)
            requires
                below == (2 * r - 1) * n,
                r > 0,
                n > 0,
        ;
        lemma_square_monotonic(below as nat, t);
    }
}

/// Any natural number within half a unit of the square root of
/// `x / (n * n)` is `root_nearest(x, n)`.
pub proof fn lemma_root_nearest_unique(x: nat, n: nat, r: nat)
    requires
        n > 0,
        4 * x < ((2 * r + 1) * n) * ((2 * r + 1) * n),
        r > 0 ==> ((2 * r - 1) * n) * ((2 * r - 1) * n) <= 4 * x,
    ensures
        r == root_nearest(x, n),
{
    let t = floor_sqrt(4 * x);
    lemma_floor_sqrt(4 * x);
    let above: nat = (2 * r + 1) * n;
    assert(above == 2 * n * r + n) by (nonlinear_arith)
        requires
            above == (2 * r + 1) * n,
    ;
    if t >= above {
        lemma_square_monotonic(above, t);
    }
    if r > 0 {
        let below: int = (2 * r - 1) * n;
        assert(below == 2 * n * r - n && below >= 0) by (nonlinear_arith)
            requires
                below == (2 * r - 1) * n,
                r > 0,
                n > 0,
        ;
        if below > t {
            lemma_square_monotonic(t + 1, below as nat);
        }
    } else {
        assert(2 * n * r == 0) by (nonlinear_arith)
            requires
                r == 0,
        ;
    }
    assert(r == (t + n) / (2 * n)) by (nonlinear_arith)
        requires
            n > 0,
            2 * n * r <= t + n,
            t + n < 2 * n * r + 2 * n,
    ;
}

} // verus!
