//! Running statistics over the attempts of a probe.
//!
//! A collection keeps counts, sums and extremes, never the attempts
//! themselves. What it reports is stated over the attempts it was given,
//! its log: that log exists in proofs only.

use vstd::prelude::*;
use crate::rounding::{
    div_nearest,
    is_floor_sqrt,
    lemma_div_nearest_is_nearest,
    lemma_floor_sqrt,
    lemma_root_nearest_is_nearest,
    root_nearest,
    rounded_div,
};
use crate::wide::Wide;

verus! {

/// One attempt as the statistics see it: whether it connected, and the
/// microseconds it took. The time of a failed attempt counts for nothing.
pub struct Interval {
    pub successful: bool,
    pub micros: u64,
}

/// How many attempts of the log connected.
pub open spec fn successes(log: Seq<Interval>) -> nat
    decreases log.len(),
{
    if log.len() == 0 {
        0
    } else {
        successes(log.drop_last()) + if log.last().successful {
            1nat
        } else {
            0nat
        }
    }
}

/// The sum of the times of the attempts that connected.
pub open spec fn total(log: Seq<Interval>) -> nat
    decreases log.len(),
{
    if log.len() == 0 {
        0
    } else {
        total(log.drop_last()) + if log.last().successful {
            log.last().micros as nat
        } else {
            0nat
        }
    }
}

/// The sum of the squared times of the attempts that connected.
pub open spec fn total_squares(log: Seq<Interval>) -> nat
    decreases log.len(),
{
    if log.len() == 0 {
        0
    } else {
        total_squares(log.drop_last()) + if log.last().successful {
            (log.last().micros * log.last().micros) as nat
        } else {
            0nat
        }
    }
}

/// The shortest time of an attempt that connected; the largest `u64`
/// where none did, so that the first time recorded is never above it.
pub open spec fn least(log: Seq<Interval>) -> u64
    decreases log.len(),
{
    if log.len() == 0 {
        u64::MAX
    } else if log.last().successful && log.last().micros < least(log.drop_last()) {
        log.last().micros
    } else {
        least(log.drop_last())
    }
}

/// The longest time of an attempt that connected; zero where none did,
/// so that the first time recorded is never below it.
pub open spec fn greatest(log: Seq<Interval>) -> u64
    decreases log.len(),
{
    if log.len() == 0 {
        0
    } else if log.last().successful && log.last().micros > greatest(log.drop_last()) {
        log.last().micros
    } else {
        greatest(log.drop_last())
    }
}

/// The shortest time reported: zero where no attempt connected.
pub open spec fn min_of(log: Seq<Interval>) -> u64 {
    if successes(log) == 0 {
        0
    } else {
        least(log)
    }
}

/// The longest time reported: zero where no attempt connected.
pub open spec fn max_of(log: Seq<Interval>) -> u64 {
    if successes(log) == 0 {
        0
    } else {
        greatest(log)
    }
}

/// The mean time reported, to the nearest microsecond: zero where no
/// attempt connected.
pub open spec fn mean_of(log: Seq<Interval>) -> nat {
    if successes(log) == 0 {
        0
    } else {
        div_nearest(total(log), successes(log))
    }
}

/// The number of attempts that connected, squared, times the variance of
/// their times: with `n` attempts, times `x` and sum `S`, the variance is
/// the mean of the squares of `x - S / n`, and this is `n` times the sum
/// of the squares of `x` less the square of `S`.
pub open spec fn spread(log: Seq<Interval>) -> int {
    successes(log) * total_squares(log) - total(log) * total(log)
}

/// The standard deviation reported, to the nearest microsecond: the
/// square root of the variance of the times of the attempts that
/// connected, and zero where none did.
pub open spec fn std_dev_of(log: Seq<Interval>) -> nat {
    if successes(log) == 0 {
        0
    } else {
        root_nearest(spread(log) as nat, successes(log))
    }
}

/// The sum, over the attempts that connected, of the squares of
/// `scale * x - offset`, where `x` is the time of the attempt.
pub open spec fn deviation_squares(log: Seq<Interval>, scale: int, offset: int) -> int
    decreases log.len(),
{
    if log.len() == 0 {
        0
    } else {
        deviation_squares(log.drop_last(), scale, offset) + if log.last().successful {
            (scale * log.last().micros - offset) * (scale * log.last().micros - offset)
        } else {
            0
        }
    }
}

/// A sum of squared deviations is not negative, and it unfolds into the
/// three sums that a collection keeps.
pub proof fn lemma_deviation_squares(log: Seq<Interval>, scale: int, offset: int)
    ensures
        deviation_squares(log, scale, offset) >= 0,
        deviation_squares(log, scale, offset) == scale * scale * total_squares(log) - 2 * scale
            * offset * total(log) + successes(log) * (offset * offset),
    decreases log.len(),
{
    if log.len() == 0 {
        assert(scale * scale * 0 - 2 * scale * offset * 0 + 0 * (offset * offset) == 0)
            by (nonlinear_arith);
    } else {
        let rest = log.drop_last();
        lemma_deviation_squares(rest, scale, offset);
        let q = total_squares(rest) as int;
        let t = total(rest) as int;
        let n = successes(rest) as int;
        if log.last().successful {
            let x = log.last().micros as int;
            assert((scale * x - offset) * (scale * x - offset) >= 0) by (nonlinear_arith);
            assert(scale * scale * (q + x * x) - 2 * scale * offset * (t + x) + (n + 1) * (offset
                * offset) == (scale * scale * q - 2 * scale * offset * t + n * (offset * offset))
                + (scale * x - offset) * (scale * x - offset)) by (nonlinear_arith);
        }
    }
}

/// The spread is not negative: `n` times it is the sum of the squares of
/// `n * x - S`.
pub proof fn lemma_spread(log: Seq<Interval>)
    ensures
        spread(log) >= 0,
        successes(log) * spread(log) == deviation_squares(
            log,
            successes(log) as int,
            total(log) as int,
        ),
{
    let n = successes(log) as int;
    let t = total(log) as int;
    let q = total_squares(log) as int;
    lemma_deviation_squares(log, n, t);
    lemma_sums_bounded(log);
    assert(n * (n * q - t * t) == n * n * q - 2 * n * t * t + n * (t * t)) by (nonlinear_arith);
    if n == 0 {
        assert(t == 0) by (nonlinear_arith)
            requires
                0 <= t <= n * 0xffff_ffff_ffff_ffff,
                n == 0,
        ;
        assert(n * q - t * t == 0) by (nonlinear_arith)
            requires
                n == 0,
                t == 0,
        ;
    } else {
        assert(n * q - t * t >= 0) by (nonlinear_arith)
            requires
                n > 0,
                n * (n * q - t * t) >= 0,
        ;
    }
}

/// No more attempts connected than were made, and the sums are bounded by
/// what that many times of 64 bits can add up to.
pub proof fn lemma_sums_bounded(log: Seq<Interval>)
    ensures
        successes(log) <= log.len(),
        total(log) <= successes(log) * 0xffff_ffff_ffff_ffff,
        total_squares(log) <= successes(log) * 0xffff_ffff_ffff_fffe_0000_0000_0000_0001,
    decreases log.len(),
{
    if log.len() > 0 {
        lemma_sums_bounded(log.drop_last());
        let x = log.last().micros;
        assert(x * x <= 0xffff_ffff_ffff_fffe_0000_0000_0000_0001) by (nonlinear_arith)
            requires
                0 <= x <= 0xffff_ffff_ffff_ffff,
        ;
    }
}

/// What recording one attempt does. The number of attempts grows by one.
/// A failure changes nothing else, whatever time comes with it. A
/// success is counted, its time is added to the sum and its square to
/// the sum of squares, and the extremes move to it where it lies beyond
/// them.
pub proof fn lemma_recording(log: Seq<Interval>, interval: Interval)
    ensures
        log.push(interval).len() == log.len() + 1,
        successes(log.push(interval)) <= log.push(interval).len(),
        !interval.successful ==> {
            &&& successes(log.push(interval)) == successes(log)
            &&& total(log.push(interval)) == total(log)
            &&& total_squares(log.push(interval)) == total_squares(log)
            &&& least(log.push(interval)) == least(log)
            &&& greatest(log.push(interval)) == greatest(log)
        },
        interval.successful ==> {
            &&& successes(log.push(interval)) == successes(log) + 1
            &&& total(log.push(interval)) == total(log) + interval.micros
            &&& total_squares(log.push(interval)) == total_squares(log) + interval.micros
                * interval.micros
            &&& least(log.push(interval)) == if interval.micros < least(log) {
                interval.micros
            } else {
                least(log)
            }
            &&& greatest(log.push(interval)) == if interval.micros > greatest(log) {
                interval.micros
            } else {
                greatest(log)
            }
        },
{
    assert(log.push(interval).drop_last() =~= log);
    lemma_sums_bounded(log.push(interval));
}

/// Where no attempt connected, none is counted and nothing is summed.
pub proof fn lemma_counts_only_successes(log: Seq<Interval>)
    requires
        forall|i: int| 0 <= i < log.len() ==> !(#[trigger] log[i]).successful,
    ensures
        successes(log) == 0,
    decreases log.len(),
{
    if log.len() > 0 {
        assert(!log[log.len() - 1].successful);
        lemma_counts_only_successes(log.drop_last());
    }
}

/// Where the count of successes is zero, no attempt of the log connected,
/// the sums are zero and the extremes are where they began.
pub proof fn lemma_without_success(log: Seq<Interval>)
    requires
        successes(log) == 0,
    ensures
        forall|i: int| 0 <= i < log.len() ==> !(#[trigger] log[i]).successful,
        total(log) == 0,
        total_squares(log) == 0,
        least(log) == u64::MAX,
        greatest(log) == 0,
    decreases log.len(),
{
    if log.len() > 0 {
        let rest = log.drop_last();
        lemma_without_success(rest);
        assert forall|i: int| 0 <= i < log.len() implies !(#[trigger] log[i]).successful by {
            if i < log.len() - 1 {
                assert(log[i] == rest[i]);
            }
        }
    }
}

/// A collection that has seen no success reports zero four times: as the
/// mean, the shortest and the longest time, and the standard deviation.
pub proof fn lemma_no_success_reports_zero(log: Seq<Interval>)
    requires
        successes(log) == 0,
    ensures
        mean_of(log) == 0,
        min_of(log) == 0,
        max_of(log) == 0,
        std_dev_of(log) == 0,
{
}

/// Where exactly one attempt connected, in `v` microseconds, the mean,
/// the shortest and the longest time are all `v`, and the standard
/// deviation is zero, however many attempts failed beside it.
pub proof fn lemma_single_success(log: Seq<Interval>, at: int)
    requires
        successes(log) == 1,
        0 <= at < log.len(),
        log[at].successful,
    ensures
        total(log) == log[at].micros,
        total_squares(log) == log[at].micros * log[at].micros,
        least(log) == log[at].micros,
        greatest(log) == log[at].micros,
        mean_of(log) == log[at].micros,
        min_of(log) == log[at].micros,
        max_of(log) == log[at].micros,
        std_dev_of(log) == 0,
    decreases log.len(),
{
    let rest = log.drop_last();
    let v = log[at].micros as nat;
    if log.last().successful {
        lemma_without_success(rest);
        if at < log.len() - 1 {
            assert(rest[at].successful);
        }
    } else {
        assert(rest[at] == log[at]);
        lemma_single_success(rest, at);
    }
    assert(div_nearest(v, 1) == v) by (nonlinear_arith)
        requires
            div_nearest(v, 1) == (2 * v + 1) / (2 * 1),
    ;
    assert(spread(log) == 0) by (nonlinear_arith)
        requires
            spread(log) == 1 * total_squares(log) - total(log) * total(log),
            total(log) == v,
            total_squares(log) == v * v,
    ;
    assert(is_floor_sqrt(0, 0)) by (nonlinear_arith);
    lemma_floor_sqrt(0);
    assert(root_nearest(0, 1) == 0);
}

/// Where an attempt connected, the shortest and the longest time are
/// times of attempts that connected, every such time lies between them,
/// and so does the mean.
pub proof fn lemma_extremes(log: Seq<Interval>)
    requires
        successes(log) > 0,
    ensures
        least(log) <= greatest(log),
        exists|i: int|
            0 <= i < log.len() && (#[trigger] log[i]).successful && log[i].micros == least(log),
        exists|i: int|
            0 <= i < log.len() && (#[trigger] log[i]).successful && log[i].micros == greatest(log),
        forall|i: int|
            0 <= i < log.len() && (#[trigger] log[i]).successful ==> least(log) <= log[i].micros
                <= greatest(log),
        successes(log) * least(log) <= total(log) <= successes(log) * greatest(log),
        min_of(log) <= mean_of(log) <= max_of(log),
    decreases log.len(),
{
    let rest = log.drop_last();
    let n = successes(log);
    let low = least(log) as nat;
    let high = greatest(log) as nat;
    if successes(rest) == 0 {
        lemma_without_success(rest);
        assert(log[log.len() - 1].successful);
        assert forall|i: int| 0 <= i < log.len() && (#[trigger] log[i]).successful implies least(
            log,
        ) <= log[i].micros <= greatest(log) by {
            if i < log.len() - 1 {
                assert(log[i] == rest[i]);
            }
        }
        assert(n * low == low && n * high == high) by (nonlinear_arith)
            requires
                n == 1,
        ;
    } else {
        lemma_extremes(rest);
        let i_low = choose|i: int|
            0 <= i < rest.len() && (#[trigger] rest[i]).successful && rest[i].micros == least(rest);
        let i_high = choose|i: int|
            0 <= i < rest.len() && (#[trigger] rest[i]).successful && rest[i].micros == greatest(
                rest,
            );
        assert(log[i_low] == rest[i_low] && log[i_high] == rest[i_high]);
        if log.last().successful {
            assert(log[log.len() - 1].successful);
        }
        assert forall|i: int| 0 <= i < log.len() && (#[trigger] log[i]).successful implies least(
            log,
        ) <= log[i].micros <= greatest(log) by {
            if i < log.len() - 1 {
                assert(log[i] == rest[i]);
            }
        }
        let m = successes(rest);
        let below = least(rest) as nat;
        let above = greatest(rest) as nat;
        assert(m * low <= m * below && m * above <= m * high) by (nonlinear_arith)
            requires
                low <= below,
                above <= high,
        ;
        assert((m + 1) * low == m * low + low && (m + 1) * high == m * high + high)
            by (nonlinear_arith);
    }
    let t = total(log);
    lemma_div_nearest_is_nearest(t, n);
    let mean = mean_of(log);
    assert(low <= mean <= high) by (nonlinear_arith)
        requires
            n > 0,
            n * low <= t <= n * high,
            2 * n * mean <= 2 * t + n,
            2 * t + n < 2 * n * (mean + 1),
    ;
}

/// The mean reported is the exact mean to the nearest microsecond: it is
/// within half a microsecond of the sum of the times divided by their
/// number.
pub proof fn lemma_mean_is_nearest(log: Seq<Interval>)
    requires
        successes(log) > 0,
    ensures
        2 * successes(log) * mean_of(log) <= 2 * total(log) + successes(log),
        2 * total(log) + successes(log) < 2 * successes(log) * (mean_of(log) + 1),
{
    lemma_div_nearest_is_nearest(total(log), successes(log));
}

/// The standard deviation reported is the exact one to the nearest
/// microsecond. With `n` for the number of successes and `d` for what is
/// reported, `d - 1/2 <= sqrt(spread) / n < d + 1/2`, stated here in
/// squares and cleared of fractions.
pub proof fn lemma_std_dev_is_nearest(log: Seq<Interval>)
    requires
        successes(log) > 0,
    ensures
        spread(log) >= 0,
        4 * spread(log) < ((2 * std_dev_of(log) + 1) * successes(log)) * ((2 * std_dev_of(log)
            + 1) * successes(log)),
        std_dev_of(log) > 0 ==> ((2 * std_dev_of(log) - 1) * successes(log)) * ((2 * std_dev_of(
            log,
        ) - 1) * successes(log)) <= 4 * spread(log),
{
    lemma_spread(log);
    lemma_root_nearest_is_nearest(spread(log) as nat, successes(log));
}

/// Running counts, sums and extremes of the attempts of one probe.
pub struct ResultCollection {
    iterations: u32,
    successes: u32,
    micros_min: u64,
    micros_max: u64,
    micros_squared: Wide,
    micros_added: u128,
    log: Ghost<Seq<Interval>>,
}

impl View for ResultCollection {
    type V = Seq<Interval>;

    /// The attempts recorded so far, oldest first.
    closed spec fn view(&self) -> Seq<Interval> {
        self.log@
    }
}

impl ResultCollection {
    #[verifier::type_invariant]
    spec fn summarises_log(&self) -> bool {
        &&& self.iterations == self.log@.len()
        &&& self.successes == successes(self.log@)
        &&& self.micros_min == least(self.log@)
        &&& self.micros_max == greatest(self.log@)
        &&& self.micros_squared@ == total_squares(self.log@)
        &&& self.micros_added == total(self.log@)
    }

    /// A collection that has seen no attempt.
    pub fn new() -> (col: ResultCollection)
        ensures
            col@ == Seq::<Interval>::empty(),
    {
        ResultCollection {
            iterations: 0,
            successes: 0,
            micros_min: u64::MAX,
            micros_max: 0,
            micros_squared: Wide::from_u128(0),
            micros_added: 0,
            log: Ghost(Seq::empty()),
        }
    }

    /// Records one attempt: whether it connected and, if so, the
    /// microseconds it took. `micros` is not looked at for a failure.
    pub fn add_interval(&mut self, successful: bool, micros: u64)
        requires
            old(self)@.len() < u32::MAX,
        ensures
            final(self)@ == old(self)@.push(Interval { successful, micros }),
            final(self)@.len() == old(self)@.len() + 1,
            successes(final(self)@) <= final(self)@.len(),
    {
        proof {
            use_type_invariant(&*self);
            lemma_sums_bounded(self.log@);
        }
        let ghost log = self.log@.push(Interval { successful, micros });
        assert(log.drop_last() =~= self.log@);
        proof {
            lemma_sums_bounded(log);
        }
        let mut successes = self.successes;
        let mut micros_min = self.micros_min;
        let mut micros_max = self.micros_max;
        let mut micros_squared = self.micros_squared;
        let mut micros_added = self.micros_added;
        if successful {
            assert(micros * micros <= 0xffff_ffff_ffff_fffe_0000_0000_0000_0001)
                by (nonlinear_arith)
                requires
                    0 <= micros <= 0xffff_ffff_ffff_ffff,
            ;
            successes = successes + 1;
            micros_added = micros_added + micros as u128;
            let square = Wide::from_u128((micros as u128) * (micros as u128));
            micros_squared = micros_squared.plus(square);
            if micros < micros_min {
                micros_min = micros;
            }
            if micros > micros_max {
                micros_max = micros;
            }
        }
        *self = ResultCollection {
            iterations: self.iterations + 1,
            successes,
            micros_min,
            micros_max,
            micros_squared,
            micros_added,
            log: Ghost(log),
        };
    }

    /// How many attempts were recorded.
    pub fn iterations(&self) -> (n: u32)
        ensures
            n == self@.len(),
    {
        proof {
            use_type_invariant(self);
        }
        self.iterations
    }

    /// How many of the attempts recorded connected.
    pub fn successes(&self) -> (n: u32)
        ensures
            n == successes(self@),
            n <= self@.len(),
    {
        proof {
            use_type_invariant(self);
            lemma_sums_bounded(self.log@);
        }
        self.successes
    }

    /// The mean time of the attempts that connected, to the nearest
    /// microsecond; zero where none did.
    pub fn get_avg(&self) -> (mean: u64)
        ensures
            mean == mean_of(self@),
    {
        proof {
            use_type_invariant(self);
            lemma_sums_bounded(self.log@);
        }
        if self.successes == 0 {
            0
        } else {
            let mean: u128 = rounded_div(self.micros_added, self.successes);
            proof {
                let a = self.micros_added as nat;
                let b = self.successes as nat;
                lemma_div_nearest_is_nearest(a, b);
                assert(mean < 0x1_0000_0000_0000_0000) by (nonlinear_arith)
                    requires
                        b > 0,
                        a <= b * 0xffff_ffff_ffff_ffff,
                        2 * b * mean <= 2 * a + b,
                ;
            }
            mean as u64
        }
    }

    /// The standard deviation of the times of the attempts that
    /// connected, to the nearest microsecond; zero where none did.
    pub fn get_std_dev(&self) -> (dev: u64)
        ensures
            dev == std_dev_of(self@),
    {
        proof {
            use_type_invariant(self);
            lemma_sums_bounded(self.log@);
            lemma_spread(self.log@);
        }
        if self.successes == 0 {
            0
        } else {
            let n: u128 = self.successes as u128;
            let sum: u128 = self.micros_added;
            let ghost q = self.micros_squared@ as int;
            assert(q * n <= n * n * 0xffff_ffff_ffff_fffe_0000_0000_0000_0001 && n * n
                <= 0xffff_fffe_0000_0001 && q * n == n * q) by (nonlinear_arith)
                requires
                    0 < n <= 0xffff_ffff,
                    0 <= q <= n * 0xffff_ffff_ffff_fffe_0000_0000_0000_0001,
            ;
            let scaled: Wide = self.micros_squared.times(n);
            let spread: Wide = scaled.minus(Wide::product(sum, sum));
            let dev: u128 = spread.nearest_root(self.successes);
            proof {
                lemma_root_nearest_is_nearest(spread@, n as nat);
                assert(dev <= 0xffff_ffff_ffff_ffff) by (nonlinear_arith)
                    requires
                        n > 0,
                        0 <= spread@ <= n * n * 0xffff_ffff_ffff_fffe_0000_0000_0000_0001,
                        dev > 0 ==> ((2 * dev - 1) * n) * ((2 * dev - 1) * n) <= 4 * spread@,
                ;
            }
            dev as u64
        }
    }

    /// The shortest time of an attempt that connected; zero where none
    /// did.
    pub fn get_min(&self) -> (min: u64)
        ensures
            min == min_of(self@),
    {
        proof {
            use_type_invariant(self);
        }
        if self.successes == 0 {
            0
        } else {
            self.micros_min
        }
    }

    /// The longest time of an attempt that connected; zero where none
    /// did.
    pub fn get_max(&self) -> (max: u64)
        ensures
            max == max_of(self@),
    {
        proof {
            use_type_invariant(self);
        }
        if self.successes == 0 {
            0
        } else {
            self.micros_max
        }
    }
}

} // verus!
