//! Fragment stitching: seam-smoothing crossfade and DC removal.
//!
//! The decoder is asked to decode the grid repeated four times, so that its
//! finite receptive field settles before the region of interest. From the
//! resulting `4·n` samples (`n` = fragments · [`crate::FRAGMENT_SIZE`]) the two
//! middle windows of length `n` are cut out and blended with a linear
//! crossfade whose weight runs from 0 to 1, which removes the seam
//! discontinuities of one-shot decoding. Finally the buffer's mean is
//! subtracted from every sample, so that looping the buffer does not click at
//! the boundary.

use vstd::prelude::*;

verus! {

use crate::FRAGMENT_SIZE;
use crate::samples::{
    MAX_BUFFER_LEN, SAMPLE_LIMIT, floor_div, lemma_div_bounded, lemma_seq_sum_bounds,
    lemma_seq_sum_shift, lemma_seq_sum_take_step, samples_bounded, seq_sum,
};
use vstd::arithmetic::div_mod::{
    lemma_div_multiples_vanish, lemma_fundamental_div_mod, lemma_mod_bound,
};

/// A sequence of samples as mathematical integers.
pub open spec fn as_ints(s: Seq<i64>) -> Seq<int> {
    s.map_values(|v: i64| v as int)
}

/// The crossfaded sample at position `i`: `m1[i]` weighted by `i / (n-1)` plus
/// `m2[i]` weighted by the remainder, computed exactly in fixed point with a
/// single floor division.
pub open spec fn blend_at(m1: Seq<i64>, m2: Seq<i64>, i: int) -> int {
    (m1[i] * i + m2[i] * (m1.len() - 1 - i)) / (m1.len() - 1)
}

/// The crossfade of two equal-length windows.
pub open spec fn blended(m1: Seq<i64>, m2: Seq<i64>) -> Seq<int> {
    Seq::new(m1.len(), |i: int| blend_at(m1, m2, i))
}

/// The floor of a buffer's mean.
pub open spec fn dc_mean(s: Seq<int>) -> int {
    seq_sum(s) / (s.len() as int)
}

/// The buffer re-centered on zero: its mean subtracted from every sample.
pub open spec fn dc_removed(s: Seq<int>) -> Seq<int> {
    s.map_values(|v: int| v - dc_mean(s))
}

/// The second window of a four-fold decode: settled by a full repetition of
/// left context.
pub open spec fn mid_one(all: Seq<i64>, n: int) -> Seq<i64> {
    all.subrange(n, 2 * n)
}

/// The third window of a four-fold decode: settled by two repetitions of left
/// context and one of right context.
pub open spec fn mid_two(all: Seq<i64>, n: int) -> Seq<i64> {
    all.subrange(2 * n, 3 * n)
}

/// The smoothed buffer a four-fold decode of `n` target samples yields: the
/// two middle windows crossfaded, then re-centered on zero.
pub open spec fn stitched(all: Seq<i64>, n: int) -> Seq<int> {
    dc_removed(blended(mid_one(all, n), mid_two(all, n)))
}

/// Stitched output length law: whatever the decoder returned, the stitched
/// buffer holds exactly `n` samples.
pub proof fn lemma_stitched_len(all: Seq<i64>, n: int)
    requires
        0 <= n,
        2 * n <= all.len(),
    ensures
        stitched(all, n).len() == n,
{
}

/// Crossfade boundary law: the weights hit their endpoints exactly. At
/// position 0 the blend equals the second window's sample (weight 0 on the
/// first window); at the last position it equals the first window's sample
/// (weight 1).
pub proof fn lemma_crossfade_endpoints(m1: Seq<i64>, m2: Seq<i64>)
    requires
        m1.len() == m2.len(),
        m1.len() >= 2,
    ensures
        blend_at(m1, m2, 0) == m2[0],
        blend_at(m1, m2, m1.len() - 1) == m1[m1.len() - 1],
{
    let n = m1.len() as int;
    assert(m1[0] * 0 + m2[0] * (n - 1 - 0) == (n - 1) * m2[0]) by (nonlinear_arith);
    lemma_div_multiples_vanish(m2[0] as int, n - 1);
    assert(m1[n - 1] * (n - 1) + m2[n - 1] * (n - 1 - (n - 1)) == (n - 1) * m1[n - 1])
        by (nonlinear_arith);
    lemma_div_multiples_vanish(m1[n - 1] as int, n - 1);
}

/// DC-removal law: after the mean is subtracted, the buffer's samples sum to
/// less than one fixed-point unit per sample, so the buffer's mean is zero to
/// within one unit of the fixed-point scale.
pub proof fn lemma_dc_removed_sum(s: Seq<int>)
    requires
        s.len() >= 1,
    ensures
        0 <= seq_sum(dc_removed(s)) < s.len(),
{
    let n = s.len() as int;
    let c = dc_mean(s);
    lemma_seq_sum_shift(s, c);
    lemma_fundamental_div_mod(seq_sum(s), n);
    lemma_mod_bound(seq_sum(s), n);
    assert(n * (seq_sum(s) / n) == s.len() * c) by (nonlinear_arith)
        requires c == seq_sum(s) / n && n == s.len();
}

/// DC-removal law applied to the stitched buffer.
pub proof fn lemma_stitched_sum_small(all: Seq<i64>, n: int)
    requires
        n >= 1,
        3 * n <= all.len(),
    ensures
        0 <= seq_sum(stitched(all, n)) < n,
{
    lemma_dc_removed_sum(blended(mid_one(all, n), mid_two(all, n)));
}

/// A copy of `v[start..end]`.
fn copy_range(v: &Vec<i64>, start: usize, end: usize) -> (r: Vec<i64>)
    requires
        start <= end <= v@.len(),
    ensures
        r@ == v@.subrange(start as int, end as int),
{
    let mut r: Vec<i64> = Vec::new();
    let mut i: usize = start;
    while i < end
        invariant
            start <= i <= end <= v@.len(),
            r@ =~= v@.subrange(start as int, i as int),
        decreases end - i,
    {
        r.push(v[i]);
        i = i + 1;
        proof {
            assert(r@ =~= v@.subrange(start as int, i as int));
        }
    }
    proof {
        assert(r@ =~= v@.subrange(start as int, end as int));
    }
    r
}

/// Blend two equal-length settled windows with a linear crossfade: position
/// `i` takes `mid1[i]` with weight `i / (n-1)` and `mid2[i]` with the
/// complementary weight, so the result moves from `mid2` to `mid1` across the
/// buffer.
pub fn crossfade(mid1: &Vec<i64>, mid2: &Vec<i64>) -> (r: Vec<i64>)
    requires
        mid1@.len() == mid2@.len(),
        2 <= mid1@.len() <= MAX_BUFFER_LEN,
        samples_bounded(mid1@, SAMPLE_LIMIT as int),
        samples_bounded(mid2@, SAMPLE_LIMIT as int),
    ensures
        r@.len() == mid1@.len(),
        forall|i: int| 0 <= i < r@.len() ==> #[trigger] r@[i] == blend_at(mid1@, mid2@, i),
        samples_bounded(r@, SAMPLE_LIMIT as int),
{
    let n = mid1.len();
    let mut r: Vec<i64> = Vec::new();
    let mut i: usize = 0;
    while i < n
        invariant
            n == mid1@.len(),
            n == mid2@.len(),
            2 <= n <= MAX_BUFFER_LEN,
            samples_bounded(mid1@, SAMPLE_LIMIT as int),
            samples_bounded(mid2@, SAMPLE_LIMIT as int),
            i <= n,
            r@.len() == i,
            forall|j: int| 0 <= j < i ==> #[trigger] r@[j] == blend_at(mid1@, mid2@, j),
            samples_bounded(r@, SAMPLE_LIMIT as int),
        decreases n - i,
    {
        let a = mid1[i];
        let b = mid2[i];
        let wi = i as i64;
        let wc = (n - 1 - i) as i64;
        proof {
            let s = SAMPLE_LIMIT as int;
            let d = n as int - 1;
            assert(-(s * wi) <= a * wi <= s * wi) by (nonlinear_arith)
                requires -s <= a <= s && 0 <= wi;
            assert(-(s * wc) <= b * wc <= s * wc) by (nonlinear_arith)
                requires -s <= b <= s && 0 <= wc;
            assert(s * wi + s * wc == s * d) by (nonlinear_arith)
                requires wi + wc == d;
            assert(s * d <= s * (MAX_BUFFER_LEN - 1)) by (nonlinear_arith)
                requires s >= 0 && d <= MAX_BUFFER_LEN - 1;
        }
        let num = a * wi + b * wc;
        let q = floor_div(num, (n - 1) as i64);
        proof {
            let s = SAMPLE_LIMIT as int;
            let d = n as int - 1;
            lemma_div_bounded(num as int, d, s);
        }
        r.push(q);
        i = i + 1;
    }
    r
}

/// Subtract the buffer's floor-mean from every sample, re-centering it on
/// zero so that looping it does not click at the boundary.
pub fn remove_dc(samples: &Vec<i64>) -> (r: Vec<i64>)
    requires
        1 <= samples@.len() <= MAX_BUFFER_LEN,
        samples_bounded(samples@, SAMPLE_LIMIT as int),
    ensures
        r@.len() == samples@.len(),
        r@.map_values(|v: i64| v as int) == dc_removed(as_ints(samples@)),
{
    let ghost ints = as_ints(samples@);
    let n = samples.len();
    let mut sum: i64 = 0;
    let mut i: usize = 0;
    while i < n
        invariant
            n == samples@.len(),
            1 <= n <= MAX_BUFFER_LEN,
            samples_bounded(samples@, SAMPLE_LIMIT as int),
            ints == as_ints(samples@),
            i <= n,
            sum == seq_sum(ints.take(i as int)),
            -(SAMPLE_LIMIT as int) * i <= sum <= (SAMPLE_LIMIT as int) * i,
        decreases n - i,
    {
        proof {
            let s = SAMPLE_LIMIT as int;
            lemma_seq_sum_take_step(ints, i as int);
            assert(s * i + s == s * (i + 1)) by (nonlinear_arith);
            assert(-(s * (i + 1)) == -(s as int) * (i + 1) && -(s * i) == -(s as int) * i)
                by (nonlinear_arith);
            assert(s * (i + 1) <= s * MAX_BUFFER_LEN) by (nonlinear_arith)
                requires s >= 0 && i + 1 <= MAX_BUFFER_LEN;
        }
        sum = sum + samples[i];
        i = i + 1;
    }
    proof {
        assert(ints.take(n as int) =~= ints);
    }
    let mean = floor_div(sum, n as i64);
    proof {
        let s = SAMPLE_LIMIT as int;
        lemma_seq_sum_bounds(ints, -s, s);
        assert(-(s * (n as int)) == (-s) * (n as int)) by (nonlinear_arith);
        lemma_div_bounded(sum as int, n as int, s);
        assert(mean == dc_mean(ints));
    }
    let mut r: Vec<i64> = Vec::new();
    let mut j: usize = 0;
    while j < n
        invariant
            n == samples@.len(),
            samples_bounded(samples@, SAMPLE_LIMIT as int),
            ints == as_ints(samples@),
            -(SAMPLE_LIMIT as int) <= mean <= SAMPLE_LIMIT as int,
            mean == dc_mean(ints),
            j <= n,
            r@.len() == j,
            forall|k: int| 0 <= k < j ==> #[trigger] r@[k] == samples@[k] - mean,
        decreases n - j,
    {
        r.push(samples[j] - mean);
        j = j + 1;
    }
    proof {
        assert(r@.map_values(|v: i64| v as int) =~= dc_removed(ints));
    }
    r
}

/// Stitch a four-fold decode down to the `fragments · FRAGMENT_SIZE` samples
/// of interest: cut out the two settled middle windows, crossfade them, and
/// remove the DC offset. The output has exactly `fragments · FRAGMENT_SIZE`
/// samples.
pub fn stitch(all_samples: &Vec<i64>, fragments: usize) -> (r: Vec<i64>)
    requires
        fragments >= 1,
        fragments * FRAGMENT_SIZE <= MAX_BUFFER_LEN,
        all_samples@.len() == 4 * (fragments * FRAGMENT_SIZE),
        samples_bounded(all_samples@, SAMPLE_LIMIT as int),
    ensures
        r@.len() == fragments * FRAGMENT_SIZE,
        r@.map_values(|v: i64| v as int)
            == stitched(all_samples@, (fragments * FRAGMENT_SIZE) as int),
{
    let n = fragments * FRAGMENT_SIZE;
    proof {
        assert(n >= FRAGMENT_SIZE) by (nonlinear_arith)
            requires n == fragments * FRAGMENT_SIZE && fragments >= 1;
    }
    let mid1 = copy_range(all_samples, n, 2 * n);
    let mid2 = copy_range(all_samples, 2 * n, 3 * n);
    let cross = crossfade(&mid1, &mid2);
    let r = remove_dc(&cross);
    proof {
        assert(as_ints(cross@) =~= blended(mid1@, mid2@));
        assert(r@.map_values(|v: i64| v as int)
            == stitched(all_samples@, (fragments * FRAGMENT_SIZE) as int));
    }
    r
}

} // verus!
