//! Root mean square of a run of samples, in integer arithmetic.

use vstd::arithmetic::div_mod::{lemma_div_is_ordered, lemma_div_multiples_vanish};
use vstd::prelude::*;

verus! {

/// Amplitudes are counted in thousandths of one step of a 16-bit sample.
pub const AMPLITUDE_SCALE: u64 = 1000;

/// The sum of the squares of the samples.
pub open spec fn sum_of_squares(samples: Seq<i16>) -> int
    decreases samples.len(),
{
    if samples.len() == 0 {
        0
    } else {
        sum_of_squares(samples.drop_last()) + samples.last() * samples.last()
    }
}

/// The mean of the squares of the samples, each sample counted in
/// thousandths of a step, rounded down. The samples are not empty.
pub open spec fn mean_square(samples: Seq<i16>) -> int {
    1_000_000 * sum_of_squares(samples) / (samples.len() as int)
}

/// `root` is the square root of `n`, rounded down.
pub open spec fn is_floor_sqrt(root: int, n: int) -> bool {
    0 <= root && root * root <= n < (root + 1) * (root + 1)
}

/// The square root of `n`, rounded down.
pub open spec fn floor_sqrt(n: int) -> int {
    choose|root: int| is_floor_sqrt(root, n)
}

/// The root mean square of the samples in thousandths of a step, rounded
/// down; zero where there is no sample.
pub open spec fn rms(samples: Seq<i16>) -> int {
    if samples.len() == 0 {
        0
    } else {
        floor_sqrt(mean_square(samples))
    }
}

/// A number has one rounded-down square root only.
pub proof fn lemma_floor_sqrt_unique(a: int, b: int, n: int)
    requires
        is_floor_sqrt(a, n),
        is_floor_sqrt(b, n),
    ensures
        a == b,
{
    if a < b {
        assert((a + 1) * (a + 1) <= b * b) by (nonlinear_arith)
            requires
                0 <= a,
                a + 1 <= b,
        ;
    }
    if b < a {
        assert((b + 1) * (b + 1) <= a * a) by (nonlinear_arith)
            requires
                0 <= b,
                b + 1 <= a,
        ;
    }
}

/// What has the defining property of the rounded-down square root is it.
pub proof fn lemma_floor_sqrt_is(root: int, n: int)
    requires
        is_floor_sqrt(root, n),
    ensures
        floor_sqrt(n) == root,
{
    lemma_floor_sqrt_unique(floor_sqrt(n), root, n);
}

/// The sum of squares lies between zero and the count times the greatest
/// square of a sample.
pub proof fn lemma_sum_of_squares_bounds(samples: Seq<i16>)
    ensures
        0 <= sum_of_squares(samples) <= samples.len() * 0x4000_0000,
    decreases samples.len(),
{
    if samples.len() > 0 {
        lemma_sum_of_squares_bounds(samples.drop_last());
        let last = samples.last() as int;
        assert(0 <= last * last <= 0x4000_0000) by (nonlinear_arith)
            requires
                -0x8000 <= last <= 0x7fff,
        ;
    }
}

/// The mean of the squares lies between zero and the greatest square of a
/// sample in thousandths.
pub proof fn lemma_mean_square_bounds(samples: Seq<i16>)
    requires
        samples.len() > 0,
    ensures
        0 <= mean_square(samples) <= 1_000_000 * 0x4000_0000,
{
    lemma_sum_of_squares_bounds(samples);
    let count = samples.len() as int;
    let top = 1_000_000 * sum_of_squares(samples);
    lemma_div_is_ordered(0, top, count);
    assert(0int / count == 0) by {
        lemma_div_multiples_vanish(0, count);
        assert(count * 0 == 0);
    }
    assert(count * (1_000_000 * 0x4000_0000) == 1_000_000 * (count * 0x4000_0000))
        by (nonlinear_arith);
    lemma_div_is_ordered(top, count * (1_000_000 * 0x4000_0000), count);
    lemma_div_multiples_vanish(1_000_000int * 0x4000_0000int, count);
}

/// The square root of `n`, rounded down.
pub fn integer_sqrt(n: u64) -> (root: u64)
    ensures
        is_floor_sqrt(root as int, n as int),
        root == floor_sqrt(n as int),
{
    let mut low: u64 = 0;
    let mut high: u64 = 0x1_0000_0000;
    assert(0x1_0000_0000int * 0x1_0000_0000int > n) by (nonlinear_arith)
        requires
            n <= 0xffff_ffff_ffff_ffff,
    ;
    while high - low > 1
        invariant
            low < high <= 0x1_0000_0000,
            low * low <= n < high * high,
        decreases high - low,
    {
        let middle: u64 = low + (high - low) / 2;
        assert(middle * middle <= 0xffff_ffff * 0xffff_ffff) by (nonlinear_arith)
            requires
                0 <= middle <= 0xffff_ffff,
        ;
        if middle * middle <= n {
            low = middle;
        } else {
            high = middle;
        }
    }
    proof {
        lemma_floor_sqrt_is(low as int, n as int);
    }
    low
}

/// The sum of the squares of the samples from `from` up to `to`.
fn sum_squares(samples: &[i16], from: usize, to: usize) -> (sum: u128)
    requires
        from <= to <= samples@.len(),
    ensures
        sum == sum_of_squares(samples@.subrange(from as int, to as int)),
        sum <= (to - from) * 0x4000_0000,
{
    let mut sum: u128 = 0;
    let mut i: usize = from;
    while i < to
        invariant
            from <= i <= to <= samples@.len(),
            sum == sum_of_squares(samples@.subrange(from as int, i as int)),
            sum <= (i - from) * 0x4000_0000,
        decreases to - i,
    {
        let value: i64 = samples[i] as i64;
        assert(0 <= value * value <= 0x4000_0000) by (nonlinear_arith)
            requires
                -0x8000 <= value <= 0x7fff,
        ;
        let square: u128 = (value * value) as u128;
        proof {
            let next = samples@.subrange(from as int, i + 1);
            assert(next.drop_last() == samples@.subrange(from as int, i as int));
            assert(next.last() == samples@[i as int]);
        }
        sum = sum + square;
        i += 1;
    }
    sum
}

/// The root mean square of the samples from `from` up to `to`.
pub(crate) fn rms_between(samples: &[i16], from: usize, to: usize) -> (level: u64)
    requires
        from <= to <= samples@.len(),
    ensures
        level == rms(samples@.subrange(from as int, to as int)),
        from < to ==> is_floor_sqrt(
            level as int,
            mean_square(samples@.subrange(from as int, to as int)),
        ),
        level <= 32_768_000,
{
    if from == to {
        return 0;
    }
    let ghost window = samples@.subrange(from as int, to as int);
    let sum = sum_squares(samples, from, to);
    let count: u128 = (to - from) as u128;
    proof {
        lemma_mean_square_bounds(window);
    }
    let mean: u128 = 1_000_000 * sum / count;
    let level = integer_sqrt(mean as u64);
    proof {
        if level > 32_768_000 {
            assert(level * level >= 32_768_001 * 32_768_001) by (nonlinear_arith)
                requires
                    level >= 32_768_001,
            ;
        }
    }
    level
}

/// The root mean square of the samples in thousandths of a step, rounded
/// down; zero where there is no sample.
pub fn calculate_rms(samples: &[i16]) -> (level: u64)
    ensures
        level == rms(samples@),
        samples@.len() > 0 ==> is_floor_sqrt(level as int, mean_square(samples@)),
{
    proof {
        assert(samples@.subrange(0, samples@.len() as int) == samples@);
    }
    rms_between(samples, 0, samples.len())
}

/// Every sample is `magnitude` or its negative.
pub open spec fn all_of_magnitude(samples: Seq<i16>, magnitude: int) -> bool {
    forall|i: int|
        0 <= i < samples.len() ==> (#[trigger] samples[i]) == magnitude || samples[i] == -magnitude
}

/// Samples that all have the magnitude `magnitude` have squares that sum to
/// their count times the square of it.
proof fn lemma_sum_of_squares_of_magnitude(samples: Seq<i16>, magnitude: int)
    requires
        all_of_magnitude(samples, magnitude),
    ensures
        sum_of_squares(samples) == samples.len() * (magnitude * magnitude),
    decreases samples.len(),
{
    if samples.len() > 0 {
        let head = samples.drop_last();
        assert forall|i: int| 0 <= i < head.len() implies (#[trigger] head[i]) == magnitude || head[i]
            == -magnitude by {
            assert(head[i] == samples[i]);
        }
        lemma_sum_of_squares_of_magnitude(head, magnitude);
        let last = samples.last() as int;
        assert(samples[samples.len() - 1] == magnitude || samples[samples.len() - 1] == -magnitude);
        assert(last * last == magnitude * magnitude) by (nonlinear_arith)
            requires
                last == magnitude || last == -magnitude,
        ;
        assert(samples.len() * (magnitude * magnitude) == head.len() * (magnitude * magnitude)
            + magnitude * magnitude) by (nonlinear_arith)
            requires
                samples.len() == head.len() + 1,
        ;
    } else {
        assert(samples.len() * (magnitude * magnitude) == 0) by (nonlinear_arith)
            requires
                samples.len() == 0,
        ;
    }
}

/// The root mean square of samples that all have the same magnitude, whatever
/// their signs, is that magnitude; so that of `a, -a, a, -a, ...` is `|a|`,
/// and that of zeros is zero.
pub proof fn law_rms_of_equal_magnitudes(samples: Seq<i16>, magnitude: int)
    requires
        samples.len() > 0,
        0 <= magnitude,
        all_of_magnitude(samples, magnitude),
    ensures
        rms(samples) == AMPLITUDE_SCALE * magnitude,
{
    lemma_sum_of_squares_of_magnitude(samples, magnitude);
    let count = samples.len() as int;
    let square = magnitude * magnitude;
    assert(1_000_000 * (count * square) == count * (1_000_000 * square)) by (nonlinear_arith);
    lemma_div_multiples_vanish(1_000_000 * square, count);
    assert(mean_square(samples) == 1_000_000 * square);
    let root = 1000 * magnitude;
    assert(root * root == 1_000_000 * square) by (nonlinear_arith)
        requires
            root == 1000 * magnitude,
            square == magnitude * magnitude,
    ;
    assert(root * root < (root + 1) * (root + 1)) by (nonlinear_arith)
        requires
            0 <= root,
    ;
    lemma_floor_sqrt_is(root, mean_square(samples));
}

} // verus!
