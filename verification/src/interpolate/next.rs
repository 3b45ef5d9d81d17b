//! Next-value interpolation.
//!
//! On a bound `time[k]` the value is `y[k]`; between two bounds the value
//! ahead is taken, so `y[k]` answers every query in `(time[k-1], time[k])`.
//! Beyond the range the nearest value is held: `y[0]` backward, the last
//! value forward.

use crate::errors::RSCMResult;
use crate::interpolate::{
    count_lt, find_segment, lemma_count_lt_bounds, seg_case, Interp1DStrategy, SegmentOptions,
};
use crate::scalar::Scalar;
use vstd::prelude::*;

verus! {

/// The next-value answer at `t` over bounds `time` and values `y`.
pub open spec fn next_value_spec(time: Seq<Scalar>, y: Seq<Scalar>, t: int) -> int {
    let n = y.len() as int;
    let k = count_lt(time, t);
    if seg_case(time, t) is OnBoundary {
        y[k]@
    } else if seg_case(time, t) is ExtrapolateBackward {
        y[0]@
    } else if seg_case(time, t) is ExtrapolateForward {
        y[n - 1]@
    } else {
        y[if k < n {
            k
        } else {
            n - 1
        }]@
    }
}

/// Next-value interpolation with an extrapolation switch.
#[derive(Clone, Copy, Debug)]
pub struct Interp1DNext {
    pub allow_extrapolation: bool,
}

impl Interp1DNext {
    pub fn new(allow_extrapolation: bool) -> (r: Self)
        ensures
            r.allow_extrapolation == allow_extrapolation,
    {
        Interp1DNext { allow_extrapolation }
    }
}

impl Interp1DStrategy for Interp1DNext {
    open spec fn allows_extrapolation_spec(&self) -> bool {
        self.allow_extrapolation
    }

    open spec fn value_spec(&self, time: Seq<Scalar>, y: Seq<Scalar>, t: int) -> int {
        next_value_spec(time, y, t)
    }

    fn interpolate(&self, time: &Vec<Scalar>, y: &Vec<Scalar>, target: Scalar) -> (r: RSCMResult<
        Scalar,
    >) {
        let seg = find_segment(target, time, self.allow_extrapolation);
        match seg {
            Err(e) => Err(e),
            Ok(p) => {
                let case = p.0;
                let k = p.1;
                proof {
                    lemma_count_lt_bounds(time@, target@);
                }
                let n = y.len();
                match case {
                    SegmentOptions::OnBoundary => {
                        proof {
                            if k as int == y@.len() {
                                assert(time@[k as int]@ == target@);
                            }
                        }
                        Ok(y[k])
                    },
                    SegmentOptions::ExtrapolateBackward => Ok(y[0]),
                    SegmentOptions::ExtrapolateForward => Ok(y[n - 1]),
                    SegmentOptions::InSegment => {
                        let kc = if k < n {
                            k
                        } else {
                            n - 1
                        };
                        Ok(y[kc])
                    },
                }
            },
        }
    }
}

} // verus!
