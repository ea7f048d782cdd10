//! The grid sampler: an inclusive, evenly spaced enumeration of `steps + 1`
//! values between two bounds.

use vstd::prelude::*;
use vstd::arithmetic::div_mod::lemma_div_pos_is_pos;
use vstd::arithmetic::div_mod::lemma_div_is_ordered;
use vstd::arithmetic::div_mod::lemma_div_multiples_vanish;

verus! {

/// The `i`-th of `steps + 1` evenly spaced values covering `[lower, upper]`:
/// `lower + (i * (upper - lower)) / steps`, with floor division. When the
/// span is a multiple of `steps` the spacing is exact; `steps == 0` yields
/// the single value `lower`.
pub open spec fn sample_at(lower: int, upper: int, steps: int, i: int) -> int {
    if steps == 0 {
        lower
    } else {
        lower + i * (upper - lower) / steps
    }
}

/// The whole sample sequence.
pub open spec fn sample_seq(lower: int, upper: int, steps: int) -> Seq<int> {
    Seq::new((steps + 1) as nat, |i: int| sample_at(lower, upper, steps, i))
}

/// Every sample lies within the bounds.
pub proof fn lemma_sample_in_bounds(lower: int, upper: int, steps: int, i: int)
    requires
        lower <= upper,
        0 <= steps,
        0 <= i <= steps,
    ensures
        lower <= sample_at(lower, upper, steps, i) <= upper,
{
    if steps > 0 {
        let span: int = upper - lower;
        assert(i * span >= 0) by (nonlinear_arith)
            requires i >= 0 && span >= 0;
        assert(i * span <= steps * span) by (nonlinear_arith)
            requires i <= steps && span >= 0;
        lemma_div_pos_is_pos(i * span, steps);
        lemma_div_is_ordered(i * span, steps * span, steps);
        lemma_div_multiples_vanish(span, steps);
    }
}

/// The evenly spaced values `lower`, `lower + step`, ..., `upper`, where
/// `step` is the span divided by `steps`: `steps + 1` values in all, the
/// first at `lower` and, when `steps > 0`, the last at `upper`.
pub fn sample_values(lower: i64, upper: i64, steps: u32) -> (r: Vec<i64>)
    requires
        lower <= upper,
    ensures
        r@.len() == steps + 1,
        forall|i: int|
            0 <= i < r@.len() ==> r@[i] as int == sample_at(
                lower as int,
                upper as int,
                steps as int,
                i,
            ),
        forall|i: int| 0 <= i < r@.len() ==> lower <= #[trigger] r@[i] <= upper,
{
    let mut r: Vec<i64> = Vec::new();
    let span: i128 = upper as i128 - lower as i128;
    let mut i: u64 = 0;
    while i <= steps as u64
        invariant
            lower <= upper,
            span == upper as int - lower as int,
            i <= steps + 1,
            r@.len() == i,
            forall|k: int|
                0 <= k < r@.len() ==> r@[k] as int == sample_at(
                    lower as int,
                    upper as int,
                    steps as int,
                    k,
                ),
            forall|k: int| 0 <= k < r@.len() ==> lower <= #[trigger] r@[k] <= upper,
        decreases steps + 1 - i,
    {
        proof {
            lemma_sample_in_bounds(lower as int, upper as int, steps as int, i as int);
        }
        if steps == 0 {
            r.push(lower);
        } else {
            proof {
                assert(i as int * span as int >= 0) by (nonlinear_arith)
                    requires i as int >= 0 && span as int >= 0;
                assert(i as int * span as int <= 4294967296int * 36893488147419103232int)
                    by (nonlinear_arith)
                    requires
                        0 <= i as int <= 4294967296,
                        0 <= span as int <= 36893488147419103232,
                ;
            }
            let num: i128 = i as i128 * span;
            proof {
                lemma_div_pos_is_pos(i as int * span as int, steps as int);
                lemma_div_is_ordered(
                    i as int * span as int,
                    4294967296int * 36893488147419103232int,
                    steps as int,
                );
            }
            let off: u128 = (num as u128) / (steps as u128);
            let v: i128 = lower as i128 + off as i128;
            r.push(v as i64);
        }
        i = i + 1;
    }
    r
}

} // verus!
