//! One-dimensional interpolation along a time axis.
//!
//! A query is classified against the sorted bounds `time[0..=n]` of an
//! axis with `n` steps and `n` values `y[0..n]`:
//!
//! * on a bound `time[k]` with `k < n` the strategies answer `y[k]`;
//! * inside a segment the strategy decides (linear blend, previous
//!   value, or next value);
//! * below `time[0]` or at and beyond `time[n]` the query is answered by
//!   the strategy's extrapolation rule, or refused when extrapolation is
//!   disabled.

pub mod linear_spline;

pub mod next;

pub mod previous;

use crate::errors::{ExtrapolationSide, RSCMError, RSCMResult};
use crate::scalar::Scalar;
use vstd::prelude::*;

pub use linear_spline::Interp1dLinearSpline;
pub use next::Interp1DNext;
pub use previous::Interp1DPrevious;

verus! {

/// Every scalar of the sequence is finite or missing.
pub open spec fn seq_inv(s: Seq<Scalar>) -> bool {
    forall|i: int| 0 <= i < s.len() ==> (#[trigger] s[i]).inv()
}

/// Strictly increasing values.
pub open spec fn sorted_scalars(s: Seq<Scalar>) -> bool {
    forall|i: int, j: int| #![trigger s[i], s[j]] 0 <= i < j < s.len() ==> s[i]@ < s[j]@
}

/// What a well-formed interpolation input looks like: one more bound
/// than values, at least one value, sorted bounds.
pub open spec fn interp_args_wf(time: Seq<Scalar>, y: Seq<Scalar>) -> bool {
    &&& time.len() == y.len() + 1
    &&& y.len() >= 1
    &&& sorted_scalars(time)
    &&& seq_inv(time)
    &&& seq_inv(y)
}

/// A query is in range when it lies in the half-open span covered by the
/// bounds.
pub open spec fn in_range(time: Seq<Scalar>, t: int) -> bool {
    time[0]@ <= t < time[time.len() - 1]@
}

/// How many bounds lie strictly below `t`; on sorted bounds this is the
/// insertion point of `t`.
pub open spec fn count_lt(time: Seq<Scalar>, t: int) -> int
    decreases time.len(),
{
    if time.len() == 0 {
        0
    } else if time.last()@ < t {
        time.len() as int
    } else {
        count_lt(time.drop_last(), t)
    }
}

/// Where a query falls relative to the bounds.
#[derive(Clone, Copy, PartialEq, Eq, Structural, Debug)]
pub enum SegmentOptions {
    InSegment,
    ExtrapolateBackward,
    ExtrapolateForward,
    OnBoundary,
}

/// The classification of a query against sorted bounds.
pub open spec fn seg_case(time: Seq<Scalar>, t: int) -> SegmentOptions {
    if t < time[0]@ {
        SegmentOptions::ExtrapolateBackward
    } else if t >= time[time.len() - 1]@ {
        SegmentOptions::ExtrapolateForward
    } else if time[count_lt(time, t)]@ == t {
        SegmentOptions::OnBoundary
    } else {
        SegmentOptions::InSegment
    }
}

/// The error an out-of-range query gets when extrapolation is disabled.
pub open spec fn out_of_range_error(time: Seq<Scalar>, target: Scalar) -> RSCMError {
    if target@ < time[0]@ {
        RSCMError::ExtrapolationNotAllowed {
            target,
            side: ExtrapolationSide::Start,
            bound: time[0],
        }
    } else {
        RSCMError::ExtrapolationNotAllowed {
            target,
            side: ExtrapolationSide::End,
            bound: time[time.len() - 1],
        }
    }
}

/// What every strategy's `interpolate` promises: success exactly for
/// in-range or extrapolation-enabled queries, the strategy's value on
/// success, and the out-of-range error otherwise.
pub open spec fn interp_post(
    extrapolate: bool,
    value: int,
    time: Seq<Scalar>,
    target: Scalar,
    r: RSCMResult<Scalar>,
) -> bool {
    &&& (r is Ok <==> (extrapolate || in_range(time, target@)))
    &&& (r matches Ok(v) ==> v.inv() && v@ == value)
    &&& (r matches Err(e) ==> e == out_of_range_error(time, target))
}

/// The saturated value of the line through `(t1, y1)` and `(t2, y2)` at `t`.
pub open spec fn lerp_spec(y1: int, y2: int, t1: int, t2: int, t: int) -> int {
    crate::scalar::clamp_raw(y1 + (y2 - y1) * (t - t1) / (t2 - t1))
}

/// `count_lt` splits sorted bounds: everything before it is below `t`,
/// everything from it on is at or above `t`.
pub proof fn lemma_count_lt_bounds(time: Seq<Scalar>, t: int)
    requires
        sorted_scalars(time),
    ensures
        0 <= count_lt(time, t) <= time.len(),
        forall|j: int| 0 <= j < count_lt(time, t) ==> (#[trigger] time[j])@ < t,
        forall|j: int| count_lt(time, t) <= j < time.len() ==> (#[trigger] time[j])@ >= t,
    decreases time.len(),
{
    if time.len() > 0 {
        if time.last()@ < t {
            assert forall|j: int| 0 <= j < count_lt(time, t) implies (#[trigger] time[j])@
                < t by {
                if j < time.len() - 1 {
                    assert(time[j]@ < time[time.len() - 1]@);
                }
            }
        } else {
            assert(sorted_scalars(time.drop_last()));
            lemma_count_lt_bounds(time.drop_last(), t);
            assert forall|j: int| 0 <= j < count_lt(time, t) implies (#[trigger] time[j])@
                < t by {
                assert(time.drop_last()[j] == time[j]);
            }
            assert forall|j: int|
                count_lt(time, t) <= j < time.len() implies (#[trigger] time[j])@ >= t by {
                if j < time.len() - 1 {
                    assert(time.drop_last()[j] == time[j]);
                }
            }
        }
    }
}

/// Any split point with the two bound properties is `count_lt`.
pub proof fn lemma_count_lt_split(time: Seq<Scalar>, t: int, k: int)
    requires
        0 <= k <= time.len(),
        forall|j: int| 0 <= j < k ==> (#[trigger] time[j])@ < t,
        forall|j: int| k <= j < time.len() ==> (#[trigger] time[j])@ >= t,
    ensures
        count_lt(time, t) == k,
    decreases time.len(),
{
    if time.len() > 0 {
        if time.last()@ < t {
            assert(k == time.len());
        } else {
            assert(k <= time.len() - 1);
            assert forall|j: int| 0 <= j < k implies (#[trigger] time.drop_last()[j])@ < t by {
                assert(time.drop_last()[j] == time[j]);
            }
            assert forall|j: int|
                k <= j < time.drop_last().len() implies (#[trigger] time.drop_last()[j])@
                >= t by {
                assert(time.drop_last()[j] == time[j]);
            }
            lemma_count_lt_split(time.drop_last(), t, k);
        }
    }
}

/// Binary search for the insertion point of `target` in sorted bounds.
pub(crate) fn find_segment_index(target: Scalar, time_bounds: &Vec<Scalar>) -> (r: usize)
    requires
        sorted_scalars(time_bounds@),
    ensures
        r as int == count_lt(time_bounds@, target@),
        r <= time_bounds@.len(),
{
    let mut lo: usize = 0;
    let mut hi: usize = time_bounds.len();
    while lo < hi
        invariant
            lo <= hi <= time_bounds@.len(),
            sorted_scalars(time_bounds@),
            forall|j: int| 0 <= j < lo ==> (#[trigger] time_bounds@[j])@ < target@,
            forall|j: int|
                hi <= j < time_bounds@.len() ==> (#[trigger] time_bounds@[j])@ >= target@,
        decreases hi - lo,
    {
        let mid: usize = lo + (hi - lo) / 2;
        if time_bounds[mid].raw < target.raw {
            assert forall|j: int| 0 <= j < mid + 1 implies (#[trigger] time_bounds@[j])@
                < target@ by {
                if j < mid {
                    assert(time_bounds@[j]@ < time_bounds@[mid as int]@);
                }
            }
            lo = mid + 1;
        } else {
            assert forall|j: int|
                mid <= j < time_bounds@.len() implies (#[trigger] time_bounds@[j])@ >= target@ by {
                if j > mid {
                    assert(time_bounds@[mid as int]@ < time_bounds@[j]@);
                }
            }
            hi = mid;
        }
    }
    proof {
        lemma_count_lt_split(time_bounds@, target@, lo as int);
    }
    lo
}

/// Classifies a query against the bounds, refusing out-of-range queries
/// when extrapolation is disabled.
pub(crate) fn find_segment(target: Scalar, time_bounds: &Vec<Scalar>, extrapolate: bool) -> (res:
    RSCMResult<(SegmentOptions, usize)>)
    requires
        sorted_scalars(time_bounds@),
        time_bounds@.len() >= 2,
    ensures
        res is Ok <==> (extrapolate || in_range(time_bounds@, target@)),
        res matches Ok(p) ==> p.0 == seg_case(time_bounds@, target@) && p.1
            < time_bounds@.len() && (!(p.0 is ExtrapolateForward) ==> p.1 as int == count_lt(
            time_bounds@,
            target@,
        )),
        res matches Err(e) ==> e == out_of_range_error(time_bounds@, target),
{
    let n_b = time_bounds.len();
    let k = find_segment_index(target, time_bounds);
    proof {
        lemma_count_lt_bounds(time_bounds@, target@);
    }
    if target.raw < time_bounds[0].raw {
        proof {
            if count_lt(time_bounds@, target@) >= 1 {
                assert(time_bounds@[0]@ < target@);
            }
        }
        if extrapolate {
            Ok((SegmentOptions::ExtrapolateBackward, k))
        } else {
            Err(RSCMError::ExtrapolationNotAllowed {
                target,
                side: ExtrapolationSide::Start,
                bound: time_bounds[0],
            })
        }
    } else if time_bounds[n_b - 1].raw <= target.raw {
        if extrapolate {
            let k_clip = if k < n_b {
                k
            } else {
                n_b - 1
            };
            Ok((SegmentOptions::ExtrapolateForward, k_clip))
        } else {
            Err(RSCMError::ExtrapolationNotAllowed {
                target,
                side: ExtrapolationSide::End,
                bound: time_bounds[n_b - 1],
            })
        }
    } else {
        proof {
            if count_lt(time_bounds@, target@) >= n_b {
                assert(time_bounds@[n_b - 1]@ < target@);
            }
        }
        if time_bounds[k].raw == target.raw {
            Ok((SegmentOptions::OnBoundary, k))
        } else {
            Ok((SegmentOptions::InSegment, k))
        }
    }
}

/// The saturated linear blend of two points, evaluated exactly.
pub(crate) fn lerp_exec(y1: Scalar, y2: Scalar, t1: Scalar, t2: Scalar, target: Scalar) -> (r:
    Scalar)
    requires
        y1.inv(),
        y2.inv(),
        t1.inv(),
        t2.inv(),
        target.inv(),
        t1@ < t2@,
    ensures
        r.finite(),
        r@ == lerp_spec(y1@, y2@, t1@, t2@, target@),
{
    let dy: i128 = (y2.raw as i128) - (y1.raw as i128);
    let dt: i128 = (target.raw as i128) - (t1.raw as i128);
    proof {
        assert(-0x4000_0000_0000_0000_0000_0000_0000_0000 <= (dy as int) * (dt as int)
            <= 0x4000_0000_0000_0000_0000_0000_0000_0000) by (nonlinear_arith)
            requires
                -0x8000_0000_0000_0000 <= dy <= 0x8000_0000_0000_0000,
                -0x8000_0000_0000_0000 <= dt <= 0x8000_0000_0000_0000,
        ;
    }
    let num: i128 = dy * dt;
    let den: i128 = (t2.raw as i128) - (t1.raw as i128);
    let q: i128 = crate::scalar::floor_div_i128(num, den);
    crate::scalar::saturate_i128_add(y1.raw, q)
}

/// Interpolation boundary law: at every in-range bound `time[i]`, each
/// of the three strategies answers exactly `y[i]`.
pub proof fn lemma_on_boundary(time: Seq<Scalar>, y: Seq<Scalar>, i: int)
    requires
        interp_args_wf(time, y),
        0 <= i < y.len(),
    ensures
        in_range(time, time[i]@),
        seg_case(time, time[i]@) is OnBoundary,
        count_lt(time, time[i]@) == i,
        linear_spline::linear_value_spec(time, y, time[i]@) == y[i]@,
        next::next_value_spec(time, y, time[i]@) == y[i]@,
        previous::previous_value_spec(time, y, time[i]@) == y[i]@,
{
    let t = time[i]@;
    assert forall|j: int| 0 <= j < i implies (#[trigger] time[j])@ < t by {}
    assert forall|j: int| i <= j < time.len() implies (#[trigger] time[j])@ >= t by {}
    lemma_count_lt_split(time, t, i);
    assert(time[0]@ <= t);
    assert(t < time[time.len() - 1]@);
}

/// Extrapolation policy law: over finite values, every strategy's
/// answer is a finite number — saturating interpolation never produces
/// the missing marker, and extrapolated answers stay representable.
pub proof fn lemma_strategy_value_finite(
    strategy: InterpolationStrategy,
    time: Seq<Scalar>,
    y: Seq<Scalar>,
    t: int,
)
    requires
        interp_args_wf(time, y),
        forall|i: int| 0 <= i < y.len() ==> (#[trigger] y[i]).finite(),
    ensures
        -crate::scalar::RAW_LIMIT <= strategy.value_spec(time, y, t)
            <= crate::scalar::RAW_LIMIT,
{
    lemma_count_lt_bounds(time, t);
    let n = y.len() as int;
    let k = count_lt(time, t);
    if seg_case(time, t) is OnBoundary {
        assert(time[k]@ == t && t < time[n as int]@);
        if k == n {
            assert(time[k]@ >= time[n as int]@);
        }
        assert(y[k].finite());
    } else if seg_case(time, t) is InSegment {
        if k == 0 {
            assert(time[0]@ >= t);
        }
    }
}

/// A way of turning discrete values on a time axis into a value at an
/// arbitrary time.
pub trait Interp1DStrategy {
    /// Whether out-of-range queries are answered by extrapolation.
    spec fn allows_extrapolation_spec(&self) -> bool;

    /// The value the strategy assigns at `t` over bounds `time` and
    /// values `y`.
    spec fn value_spec(&self, time: Seq<Scalar>, y: Seq<Scalar>, t: int) -> int;

    /// The value at `target`, or the out-of-range error.
    fn interpolate(&self, time: &Vec<Scalar>, y: &Vec<Scalar>, target: Scalar) -> (r: RSCMResult<
        Scalar,
    >)
        requires
            interp_args_wf(time@, y@),
            target.inv(),
        ensures
            interp_post(
                self.allows_extrapolation_spec(),
                self.value_spec(time@, y@, target@),
                time@,
                target,
                r,
            ),
    ;
}

/// The closed set of interpolation strategies.
#[derive(Clone, Copy, Debug)]
pub enum InterpolationStrategy {
    Linear(Interp1dLinearSpline),
    Next(Interp1DNext),
    Previous(Interp1DPrevious),
}

impl Interp1DStrategy for InterpolationStrategy {
    open spec fn allows_extrapolation_spec(&self) -> bool {
        match self {
            InterpolationStrategy::Linear(s) => s.allows_extrapolation_spec(),
            InterpolationStrategy::Next(s) => s.allows_extrapolation_spec(),
            InterpolationStrategy::Previous(s) => s.allows_extrapolation_spec(),
        }
    }

    open spec fn value_spec(&self, time: Seq<Scalar>, y: Seq<Scalar>, t: int) -> int {
        match self {
            InterpolationStrategy::Linear(s) => s.value_spec(time, y, t),
            InterpolationStrategy::Next(s) => s.value_spec(time, y, t),
            InterpolationStrategy::Previous(s) => s.value_spec(time, y, t),
        }
    }

    fn interpolate(&self, time: &Vec<Scalar>, y: &Vec<Scalar>, target: Scalar) -> (r: RSCMResult<
        Scalar,
    >) {
        match self {
            InterpolationStrategy::Linear(s) => s.interpolate(time, y, target),
            InterpolationStrategy::Next(s) => s.interpolate(time, y, target),
            InterpolationStrategy::Previous(s) => s.interpolate(time, y, target),
        }
    }
}

impl From<Interp1dLinearSpline> for InterpolationStrategy {
    fn from(value: Interp1dLinearSpline) -> Self {
        InterpolationStrategy::Linear(value)
    }
}

impl vstd::std_specs::convert::FromSpecImpl<Interp1dLinearSpline> for InterpolationStrategy {
    open spec fn obeys_from_spec() -> bool {
        true
    }

    open spec fn from_spec(v: Interp1dLinearSpline) -> Self {
        InterpolationStrategy::Linear(v)
    }
}

impl From<Interp1DNext> for InterpolationStrategy {
    fn from(value: Interp1DNext) -> Self {
        InterpolationStrategy::Next(value)
    }
}

impl vstd::std_specs::convert::FromSpecImpl<Interp1DNext> for InterpolationStrategy {
    open spec fn obeys_from_spec() -> bool {
        true
    }

    open spec fn from_spec(v: Interp1DNext) -> Self {
        InterpolationStrategy::Next(v)
    }
}

impl From<Interp1DPrevious> for InterpolationStrategy {
    fn from(value: Interp1DPrevious) -> Self {
        InterpolationStrategy::Previous(value)
    }
}

impl vstd::std_specs::convert::FromSpecImpl<Interp1DPrevious> for InterpolationStrategy {
    open spec fn obeys_from_spec() -> bool {
        true
    }

    open spec fn from_spec(v: Interp1DPrevious) -> Self {
        InterpolationStrategy::Previous(v)
    }
}

/// One-dimensional interpolator over owned bounds and values.
pub struct Interp1d {
    pub time: Vec<Scalar>,
    pub y: Vec<Scalar>,
    pub strategy: InterpolationStrategy,
}

impl Interp1d {
    /// Bounds and values form a well-formed interpolation input.
    pub open spec fn wf(&self) -> bool {
        interp_args_wf(self.time@, self.y@)
    }

    pub fn new(time: Vec<Scalar>, y: Vec<Scalar>, strategy: InterpolationStrategy) -> (r: Interp1d)
        requires
            interp_args_wf(time@, y@),
        ensures
            r.time == time,
            r.y == y,
            r.strategy == strategy,
            r.wf(),
    {
        Interp1d { time, y, strategy }
    }

    /// Replace the interpolation strategy.
    pub fn with_strategy(&mut self, strategy: InterpolationStrategy)
        requires
            old(self).wf(),
        ensures
            final(self).time == old(self).time,
            final(self).y == old(self).y,
            final(self).strategy == strategy,
            final(self).wf(),
    {
        self.strategy = strategy;
    }

    /// The strategy's value at `time_target`, or the out-of-range error.
    pub fn interpolate(&self, time_target: Scalar) -> (r: RSCMResult<Scalar>)
        requires
            self.wf(),
            time_target.inv(),
        ensures
            interp_post(
                self.strategy.allows_extrapolation_spec(),
                self.strategy.value_spec(self.time@, self.y@, time_target@),
                self.time@,
                time_target,
                r,
            ),
    {
        self.strategy.interpolate(&self.time, &self.y, time_target)
    }
}

} // verus!
