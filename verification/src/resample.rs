//! Rate-converting resampler.
//!
//! Converts a buffer at one sample rate to another by nearest-floor index
//! copying: output position `i` takes the input sample at
//! `i · rate_in / rate_out`. Any kernel meeting the length invariant would do;
//! this one is exact, allocation-bounded, and runs outside the realtime
//! callback. The output length is `len · rate_out / rate_in`, which is within
//! one sample of the rounded exact ratio.

use vstd::prelude::*;

verus! {

use crate::samples::MAX_BUFFER_LEN;
use vstd::arithmetic::div_mod::{
    lemma_div_is_ordered, lemma_fundamental_div_mod, lemma_fundamental_div_mod_converse,
};
use vstd::arithmetic::mul::lemma_mul_inequality;

/// Largest sample rate, in Hz, the pipeline accepts.
pub const MAX_SAMPLE_RATE: u32 = 0x10_0000;

/// The rate-converted buffer: output position `i` copies the input sample at
/// the floor of `i · rate_in / rate_out`.
pub open spec fn resampled(raw: Seq<i64>, rate_in: int, rate_out: int) -> Seq<i64> {
    Seq::new((raw.len() * rate_out / rate_in) as nat, |i: int| raw[i * rate_in / rate_out])
}

/// Division rounded to the nearest integer, halves rounded up.
pub open spec fn round_div(a: int, b: int) -> int {
    (2 * a + b) / (2 * b)
}

/// Floor division is within one of rounding division: for `a >= 0`, `b >= 1`,
/// `a/b <= round(a/b) <= a/b + 1`.
pub proof fn lemma_round_div_near_floor(a: int, b: int)
    requires
        a >= 0,
        b >= 1,
    ensures
        a / b <= round_div(a, b) <= a / b + 1,
{
    let q = a / b;
    let r = a % b;
    lemma_fundamental_div_mod(a, b);
    if 2 * r + b < 2 * b {
        assert(2 * a + b == q * (2 * b) + (2 * r + b)) by (nonlinear_arith)
            requires a == b * q + r;
        lemma_fundamental_div_mod_converse(2 * a + b, 2 * b, q, 2 * r + b);
    } else {
        assert(2 * a + b == (q + 1) * (2 * b) + (2 * r - b)) by (nonlinear_arith)
            requires a == b * q + r;
        lemma_fundamental_div_mod_converse(2 * a + b, 2 * b, q + 1, 2 * r - b);
    }
}

/// Resampled length law: the output length differs from the exact converted
/// length, rounded to the nearest sample, by at most one.
pub proof fn lemma_resampled_len_near_round(raw: Seq<i64>, rate_in: int, rate_out: int)
    requires
        rate_in >= 1,
        rate_out >= 1,
    ensures
        round_div(raw.len() * rate_out, rate_in) - 1
            <= resampled(raw, rate_in, rate_out).len()
            <= round_div(raw.len() * rate_out, rate_in),
{
    let a = raw.len() * rate_out;
    assert(raw.len() * rate_out >= 0) by (nonlinear_arith)
        requires rate_out >= 1;
    lemma_round_div_near_floor(a, rate_in);
    assert(a / rate_in >= 0) by {
        lemma_div_is_ordered(0, a, rate_in);
    }
}

/// Convert `raw` from `rate_in` to `rate_out` by nearest-floor index copying.
pub fn resample(raw: &Vec<i64>, rate_in: u32, rate_out: u32) -> (r: Vec<i64>)
    requires
        1 <= raw@.len() <= MAX_BUFFER_LEN,
        1 <= rate_in,
        1 <= rate_out <= MAX_SAMPLE_RATE,
        raw@.len() * rate_out / (rate_in as int) <= usize::MAX,
    ensures
        r@ == resampled(raw@, rate_in as int, rate_out as int),
        r@.len() == raw@.len() * rate_out / (rate_in as int),
{
    let len = raw.len();
    proof {
        assert(len * rate_out <= MAX_BUFFER_LEN * (MAX_SAMPLE_RATE as int)) by (nonlinear_arith)
            requires 0 <= len <= MAX_BUFFER_LEN && 0 <= rate_out <= MAX_SAMPLE_RATE;
    }
    let big = (len as u64) * (rate_out as u64);
    let out_len64 = big / (rate_in as u64);
    let out_len = out_len64 as usize;
    let ghost q = len as int * rate_out as int / (rate_in as int);
    let mut r: Vec<i64> = Vec::new();
    let mut i: usize = 0;
    while i < out_len
        invariant
            len == raw@.len(),
            1 <= len <= MAX_BUFFER_LEN,
            1 <= rate_in,
            1 <= rate_out <= MAX_SAMPLE_RATE,
            out_len == q,
            q == len * rate_out / (rate_in as int),
            i <= out_len,
            r@.len() == i,
            forall|j: int| 0 <= j < i ==>
                #[trigger] r@[j] == raw@[j * (rate_in as int) / (rate_out as int)],
        decreases out_len - i,
    {
        proof {
            lemma_fundamental_div_mod(len as int * rate_out as int, rate_in as int);
            assert((rate_in as int) * q <= len * rate_out);
            lemma_mul_inequality(i as int, q - 1, rate_in as int);
            assert((q - 1) * (rate_in as int) < q * (rate_in as int)) by (nonlinear_arith)
                requires rate_in >= 1;
            assert(q * (rate_in as int) == (rate_in as int) * q) by (nonlinear_arith);
            assert(i * (rate_in as int) < len * rate_out);
            assert(len * rate_out <= MAX_BUFFER_LEN * (MAX_SAMPLE_RATE as int)) by (nonlinear_arith)
                requires 0 <= len <= MAX_BUFFER_LEN && 0 <= rate_out <= MAX_SAMPLE_RATE;
        }
        let pos = (i as u64) * (rate_in as u64);
        let idx64 = pos / (rate_out as u64);
        proof {
            assert((len as int - 1) * (rate_out as int) + (rate_out as int - 1)
                == len * rate_out - 1) by (nonlinear_arith);
            lemma_fundamental_div_mod_converse(
                len as int * rate_out as int - 1,
                rate_out as int,
                len as int - 1,
                rate_out as int - 1,
            );
            lemma_div_is_ordered(pos as int, len as int * rate_out as int - 1, rate_out as int);
        }
        let idx = idx64 as usize;
        r.push(raw[idx]);
        i = i + 1;
    }
    proof {
        assert(r@ =~= resampled(raw@, rate_in as int, rate_out as int));
    }
    r
}

} // verus!
