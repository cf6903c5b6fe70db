//! Fixed-point audio samples and the arithmetic the pipeline needs on them.
//!
//! A sample is an `i64` holding a fixed-point PCM value; the scale is the
//! embedding program's choice. `SAMPLE_LIMIT` bounds the magnitude a sample
//! may have on entry to the pipeline, and `MAX_BUFFER_LEN` bounds buffer
//! lengths, so that every intermediate product and sum provably fits in `i64`.

use vstd::prelude::*;

verus! {

use vstd::arithmetic::div_mod::{
    lemma_div_is_ordered, lemma_div_multiples_vanish, lemma_fundamental_div_mod,
    lemma_fundamental_div_mod_converse,
};

/// Largest magnitude a fixed-point sample may have on entry to the pipeline.
pub const SAMPLE_LIMIT: i64 = 0x1_0000_0000;

/// Largest buffer length, in samples, the pipeline accepts.
pub const MAX_BUFFER_LEN: usize = 0x10_0000;

/// Every element of `s` lies in `[-limit, limit]`.
pub open spec fn samples_bounded(s: Seq<i64>, limit: int) -> bool {
    forall|i: int| 0 <= i < s.len() ==> -limit <= #[trigger] s[i] <= limit
}

/// The sum of a sequence of mathematical integers.
pub open spec fn seq_sum(s: Seq<int>) -> int
    decreases s.len(),
{
    if s.len() == 0 {
        0
    } else {
        seq_sum(s.drop_last()) + s.last()
    }
}

/// Extending a prefix by one element adds that element to its sum.
pub proof fn lemma_seq_sum_take_step(s: Seq<int>, i: int)
    requires
        0 <= i < s.len(),
    ensures
        seq_sum(s.take(i + 1)) == seq_sum(s.take(i)) + s[i],
{
    assert(s.take(i + 1).drop_last() =~= s.take(i));
    assert(s.take(i + 1).last() == s[i]);
}

/// A sequence whose elements all lie in `[lo, hi]` has a sum between
/// `lo * len` and `hi * len`.
pub proof fn lemma_seq_sum_bounds(s: Seq<int>, lo: int, hi: int)
    requires
        forall|i: int| 0 <= i < s.len() ==> lo <= #[trigger] s[i] <= hi,
    ensures
        lo * s.len() <= seq_sum(s) <= hi * s.len(),
    decreases s.len(),
{
    if s.len() == 0 {
    } else {
        lemma_seq_sum_bounds(s.drop_last(), lo, hi);
        assert(lo * s.len() == lo * (s.len() - 1) + lo) by (nonlinear_arith);
        assert(hi * s.len() == hi * (s.len() - 1) + hi) by (nonlinear_arith);
    }
}

/// Subtracting a constant from every element lowers the sum by `len` times
/// that constant.
pub proof fn lemma_seq_sum_shift(s: Seq<int>, c: int)
    ensures
        seq_sum(s.map_values(|v: int| v - c)) == seq_sum(s) - s.len() * c,
    decreases s.len(),
{
    let shifted = s.map_values(|v: int| v - c);
    if s.len() == 0 {
        assert(shifted.len() == 0);
    } else {
        lemma_seq_sum_shift(s.drop_last(), c);
        assert(shifted.drop_last() =~= s.drop_last().map_values(|v: int| v - c));
        assert(shifted.last() == s.last() - c);
        assert(s.len() * c == (s.len() - 1) * c + c) by (nonlinear_arith);
    }
}

/// Floor division of a sample by a positive divisor; the result is the
/// mathematical (Euclidean) quotient that specifications write as `a / b`.
pub fn floor_div(a: i64, b: i64) -> (q: i64)
    requires
        b >= 1,
        a > i64::MIN,
    ensures
        q == a as int / b as int,
{
    if a >= 0 {
        a / b
    } else {
        let neg = -a;
        let whole = neg / b;
        let rem = neg % b;
        proof {
            lemma_fundamental_div_mod(neg as int, b as int);
            let w = whole as int;
            let bb = b as int;
            if rem == 0 {
                assert(a as int == (-w) * bb + 0) by (nonlinear_arith)
                    requires neg as int == bb * w + 0 && a as int == -(neg as int);
                lemma_fundamental_div_mod_converse(a as int, b as int, -w, 0);
            } else {
                assert(a as int == (-w - 1) * bb + (bb - rem)) by (nonlinear_arith)
                    requires neg as int == bb * w + rem && a as int == -(neg as int);
                lemma_fundamental_div_mod_converse(a as int, b as int, -w - 1, bb - rem);
            }
        }
        if rem == 0 {
            -whole
        } else {
            -whole - 1
        }
    }
}

/// Euclidean division by a positive divisor is monotone, and a quotient of
/// values between `-m * b` and `m * b` lies between `-m` and `m`.
pub proof fn lemma_div_bounded(a: int, b: int, m: int)
    requires
        b >= 1,
        m >= 0,
        -(m * b) <= a <= m * b,
    ensures
        -m <= a / b <= m,
{
    lemma_div_is_ordered(-(m * b), a, b);
    lemma_div_is_ordered(a, m * b, b);
    lemma_div_multiples_vanish(m, b);
    lemma_div_multiples_vanish(-m, b);
    assert(b * m == m * b) by (nonlinear_arith);
    assert(b * -m == -(m * b)) by (nonlinear_arith);
}

} // verus!
