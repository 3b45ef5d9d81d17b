//! Linear-spline interpolation.
//!
//! The value at a query is the linear blend of the two points around it.
//! Inside the last segment and beyond the final bound, the last two
//! points carry the line; below the first bound, the first two points
//! do.  With a single value there is nothing to blend and that value is
//! answered everywhere.

use crate::errors::RSCMResult;
use crate::interpolate::{
    count_lt, find_segment, interp_args_wf, interp_post, lemma_count_lt_bounds, lerp_exec,
    lerp_spec, seg_case, Interp1DStrategy, SegmentOptions,
};
use crate::scalar::Scalar;
use vstd::prelude::*;

verus! {

/// The linear-spline value at `t` over bounds `time` and values `y`.
pub open spec fn linear_value_spec(time: Seq<Scalar>, y: Seq<Scalar>, t: int) -> int {
    let n = y.len() as int;
    let k = count_lt(time, t);
    if seg_case(time, t) is OnBoundary {
        y[k]@
    } else if n == 1 {
        y[0]@
    } else if seg_case(time, t) is ExtrapolateBackward {
        lerp_spec(y[0]@, y[1]@, time[0]@, time[1]@, t)
    } else if seg_case(time, t) is ExtrapolateForward {
        lerp_spec(y[n - 2]@, y[n - 1]@, time[n - 2]@, time[n - 1]@, t)
    } else {
        let kc = if k < n - 1 {
            k
        } else {
            n - 1
        };
        lerp_spec(y[kc - 1]@, y[kc]@, time[kc - 1]@, time[kc]@, t)
    }
}

/// The blended value is the exact floor of the weighted average of the
/// two points: for `t1 <= t <= t2` with finite endpoint values, the line
/// through `(t1, y1)` and `(t2, y2)` evaluates to
/// `(y1 * (t2 - t) + y2 * (t - t1)) / (t2 - t1)`, which stays between
/// the endpoint values, so saturation never fires in a segment.
pub proof fn lemma_lerp_weighted_average(y1: Scalar, y2: Scalar, t1: Scalar, t2: Scalar, t: int)
    requires
        y1.finite(),
        y2.finite(),
        t1@ < t2@,
        t1@ <= t <= t2@,
    ensures
        lerp_spec(y1@, y2@, t1@, t2@, t) == (y1@ * (t2@ - t) + y2@ * (t - t1@)) / (t2@ - t1@),
        y1@ <= y2@ ==> y1@ <= lerp_spec(y1@, y2@, t1@, t2@, t) <= y2@,
        y2@ <= y1@ ==> y2@ <= lerp_spec(y1@, y2@, t1@, t2@, t) <= y1@,
{
    let den = t2@ - t1@;
    let num = (y2@ - y1@) * (t - t1@);
    let blend = y1@ * (t2@ - t) + y2@ * (t - t1@);
    vstd::arithmetic::div_mod::lemma_hoist_over_denominator(num, y1@, den as nat);
    assert(num + y1@ * den == blend) by (nonlinear_arith)
        requires
            num == (y2@ - y1@) * (t - t1@),
            den == t2@ - t1@,
            blend == y1@ * (t2@ - t) + y2@ * (t - t1@),
    ;
    let lo = if y1@ <= y2@ {
        y1@
    } else {
        y2@
    };
    let hi = if y1@ <= y2@ {
        y2@
    } else {
        y1@
    };
    assert(den * lo <= blend <= den * hi) by (nonlinear_arith)
        requires
            t1@ <= t <= t2@,
            den == t2@ - t1@,
            blend == y1@ * (t2@ - t) + y2@ * (t - t1@),
            lo <= y1@ <= hi,
            lo <= y2@ <= hi,
            den > 0,
    ;
    vstd::arithmetic::div_mod::lemma_div_is_ordered(den * lo, blend, den);
    vstd::arithmetic::div_mod::lemma_div_is_ordered(blend, den * hi, den);
    vstd::arithmetic::div_mod::lemma_div_multiples_vanish(lo, den);
    vstd::arithmetic::div_mod::lemma_div_multiples_vanish(hi, den);
}

/// Linear interpolation linearity law: inside a segment before the last
/// one, the strategy's answer is the exact floor of the weighted average
/// of the segment's endpoints — writing the query as
/// `t = alpha * time[k-1] + (1 - alpha) * time[k]`, the answer is
/// `alpha * y[k-1] + (1 - alpha) * y[k]` up to that floor.  In the final
/// half-open segment the strategy instead continues the line of the last
/// two points, which this law leaves out.
pub proof fn lemma_linear_is_weighted_blend(time: Seq<Scalar>, y: Seq<Scalar>, t: int)
    requires
        interp_args_wf(time, y),
        forall|i: int| 0 <= i < y.len() ==> (#[trigger] y[i]).finite(),
        seg_case(time, t) is InSegment,
        t < time[y.len() - 1]@,
    ensures
        ({
            let k = count_lt(time, t);
            linear_value_spec(time, y, t) == (y[k - 1]@ * (time[k]@ - t) + y[k]@ * (t - time[k
                - 1]@)) / (time[k]@ - time[k - 1]@)
        }),
{
    lemma_count_lt_bounds(time, t);
    let n = y.len() as int;
    let k = count_lt(time, t);
    if k == 0 {
        assert(time[0]@ >= t);
    }
    if k >= n {
        assert(time[n - 1]@ < t);
    }
    assert(1 <= k < n);
    assert(time[k - 1]@ < t) by {
        if time[k - 1]@ == t {
            assert(seg_case(time, t) is OnBoundary || time[k]@ == t);
        }
    }
    lemma_lerp_weighted_average(y[k - 1], y[k], time[k - 1], time[k], t);
}

/// Linear-spline interpolation with an extrapolation switch.
#[derive(Clone, Copy, Debug)]
pub struct Interp1dLinearSpline {
    pub allow_extrapolation: bool,
}

impl Interp1dLinearSpline {
    pub fn new(allow_extrapolation: bool) -> (r: Self)
        ensures
            r.allow_extrapolation == allow_extrapolation,
    {
        Interp1dLinearSpline { allow_extrapolation }
    }
}

impl Interp1DStrategy for Interp1dLinearSpline {
    open spec fn allows_extrapolation_spec(&self) -> bool {
        self.allow_extrapolation
    }

    open spec fn value_spec(&self, time: Seq<Scalar>, y: Seq<Scalar>, t: int) -> int {
        linear_value_spec(time, y, t)
    }

    fn interpolate(&self, time: &Vec<Scalar>, y: &Vec<Scalar>, target: Scalar) -> (r: RSCMResult<
        Scalar,
    >) {
        let seg = find_segment(target, time, self.allow_extrapolation);
        match seg {
            Err(e) => Err(e),
            Ok(p) => {
                let case = p.0;
                let k = p.1;
                proof {
                    lemma_count_lt_bounds(time@, target@);
                }
                let n = y.len();
                match case {
                    SegmentOptions::OnBoundary => {
                        proof {
                            if k as int == y@.len() {
                                assert(time@[k as int]@ == target@);
                            }
                        }
                        Ok(y[k])
                    },
                    SegmentOptions::ExtrapolateBackward => {
                        if n == 1 {
                            Ok(y[0])
                        } else {
                            Ok(lerp_exec(y[0], y[1], time[0], time[1], target))
                        }
                    },
                    SegmentOptions::ExtrapolateForward => {
                        if n == 1 {
                            Ok(y[0])
                        } else {
                            Ok(lerp_exec(y[n - 2], y[n - 1], time[n - 2], time[n - 1], target))
                        }
                    },
                    SegmentOptions::InSegment => {
                        if n == 1 {
                            Ok(y[0])
                        } else {
                            proof {
                                if k == 0 {
                                    assert(time@[0]@ >= target@);
                                }
                            }
                            let kc = if k < n - 1 {
                                k
                            } else {
                                n - 1
                            };
                            Ok(lerp_exec(y[kc - 1], y[kc], time[kc - 1], time[kc], target))
                        }
                    },
                }
            },
        }
    }
}

} // verus!
