//! Time axes and unit-tagged timeseries.

use crate::errors::RSCMResult;
use crate::interpolate::{
    interp_args_wf, interp_post, seq_inv, sorted_scalars, Interp1DStrategy, Interp1d,
    Interp1dLinearSpline, InterpolationStrategy,
};
use crate::scalar::{Scalar, MISSING_RAW, RAW_LIMIT};
use vstd::prelude::*;
use vstd::string::StringExecFns;

verus! {

/// Every scalar of the sequence is a finite number.
pub open spec fn seq_finite(s: Seq<Scalar>) -> bool {
    forall|i: int| 0 <= i < s.len() ==> (#[trigger] s[i]).finite()
}

/// What a valid set of axis bounds looks like: at least two finite,
/// strictly increasing values.
pub open spec fn axis_wf(bounds: Seq<Scalar>) -> bool {
    &&& bounds.len() >= 2
    &&& bounds.len() <= i64::MAX
    &&& sorted_scalars(bounds)
    &&& seq_finite(bounds)
}

/// The bounds an axis derives from step-start values: the values
/// themselves, closed by one synthetic bound that repeats the final
/// step's width.
pub open spec fn synth_bounds(values: Seq<Scalar>) -> Seq<Scalar> {
    values.push(
        Scalar::sum_spec(
            values.last(),
            Scalar::diff_spec(values.last(), values[values.len() - 2]),
        ),
    )
}

/// Axis for a time series.
///
/// The `N + 1` bounds delimit `N` steps; step `i` covers the half-open
/// interval from `bounds[i]` to `bounds[i + 1]`.  The bounds are finite
/// and strictly increasing.
#[derive(Debug)]
pub struct TimeAxis {
    pub bounds: Vec<Scalar>,
}

/// Whether the values are finite and strictly increasing throughout.
pub(crate) fn check_monotonic_increasing(arr: &Vec<Scalar>) -> (r: bool)
    ensures
        r == (sorted_scalars(arr@) && seq_finite(arr@)),
{
    let n = arr.len();
    let mut i: usize = 0;
    let mut good = true;
    while i < n
        invariant
            i <= n,
            n == arr@.len(),
            good == ((forall|j: int| 0 <= j < i ==> (#[trigger] arr@[j]).finite()) && (forall|
                k: int,
            | 0 < k < i ==> arr@[k - 1]@ < (#[trigger] arr@[k])@)),
        decreases n - i,
    {
        let v = arr[i];
        if !(-RAW_LIMIT <= v.raw && v.raw <= RAW_LIMIT) {
            good = false;
        }
        if i > 0 && arr[i - 1].raw >= v.raw {
            good = false;
        }
        i = i + 1;
    }
    proof {
        if good {
            lemma_sorted_from_adjacent(arr@);
        } else {
            if !seq_finite(arr@) {
            } else {
                assert(!sorted_scalars(arr@)) by {
                    let j = choose|j: int|
                        0 < j < arr@.len() && !(arr@[j - 1]@ < (#[trigger] arr@[j])@);
                    assert(!(arr@[j - 1]@ < arr@[j]@));
                }
            }
        }
    }
    good
}

/// Adjacent increases make the whole sequence strictly increasing.
proof fn lemma_sorted_from_adjacent(s: Seq<Scalar>)
    requires
        forall|j: int| 0 < j < s.len() ==> s[j - 1]@ < (#[trigger] s[j])@,
    ensures
        sorted_scalars(s),
{
    assert forall|i: int, j: int| 0 <= i < j < s.len() implies (#[trigger] s[i])@ < (
    #[trigger] s[j])@ by {
        lemma_chain_lt(s, i, j);
    }
}

proof fn lemma_chain_lt(s: Seq<Scalar>, i: int, j: int)
    requires
        forall|j: int| 0 < j < s.len() ==> s[j - 1]@ < (#[trigger] s[j])@,
        0 <= i < j < s.len(),
    ensures
        s[i]@ < s[j]@,
    decreases j - i,
{
    if i + 1 < j {
        lemma_chain_lt(s, i + 1, j);
    }
}

impl TimeAxis {
    /// A valid axis.
    pub open spec fn wf(&self) -> bool {
        axis_wf(self.bounds@)
    }

    /// Builds an axis from explicit bounds; absent when the bounds are
    /// too few, not strictly increasing, or not finite.
    pub fn new(bounds: Vec<Scalar>) -> (r: Option<TimeAxis>)
        ensures
            r is Some <==> axis_wf(bounds@),
            r matches Some(a) ==> a.bounds@ == bounds@ && a.wf(),
    {
        if bounds.len() < 2 || (bounds.len() as u64) > (i64::MAX as u64) {
            return None;
        }
        let is_monotonic = check_monotonic_increasing(&bounds);
        if is_monotonic {
            Some(TimeAxis { bounds })
        } else {
            None
        }
    }

    /// Builds an axis from step-start values, deriving the final bound
    /// by repeating the last step's width; absent when fewer than three
    /// values are given or the result is no valid axis.
    pub fn from_values(values: Vec<Scalar>) -> (r: Option<TimeAxis>)
        ensures
            r is Some <==> values@.len() > 2 && seq_inv(values@) && axis_wf(
                synth_bounds(values@),
            ),
            r matches Some(a) ==> a.bounds@ == synth_bounds(values@) && a.wf(),
    {
        if values.len() <= 2 {
            return None;
        }
        let mut all_inv = true;
        let n = values.len();
        let mut i: usize = 0;
        while i < n
            invariant
                i <= n,
                n == values@.len(),
                all_inv == (forall|j: int| 0 <= j < i ==> (#[trigger] values@[j]).inv()),
            decreases n - i,
        {
            if !values[i].check_inv() {
                all_inv = false;
            }
            i = i + 1;
        }
        if !all_inv {
            return None;
        }
        let last = values[n - 1];
        let step = last.minus(values[n - 2]);
        let synth = last.plus(step);
        let mut bounds = values;
        bounds.push(synth);
        TimeAxis::new(bounds)
    }

    /// Builds an axis from explicit bounds; absent when they are no
    /// valid axis.
    pub fn from_bounds(bounds: Vec<Scalar>) -> (r: Option<TimeAxis>)
        ensures
            r is Some <==> axis_wf(bounds@),
            r matches Some(a) ==> a.bounds@ == bounds@ && a.wf(),
    {
        TimeAxis::new(bounds)
    }

    /// The step-start times: every bound but the final one.
    pub fn values(&self) -> (r: Vec<Scalar>)
        requires
            self.wf(),
        ensures
            r@ == self.bounds@.subrange(0, self.bounds@.len() - 1),
    {
        let n = self.bounds.len() - 1;
        let mut out: Vec<Scalar> = Vec::new();
        let mut i: usize = 0;
        while i < n
            invariant
                i <= n,
                n == self.bounds@.len() - 1,
                out@ == self.bounds@.subrange(0, i as int),
            decreases n - i,
        {
            out.push(self.bounds[i]);
            proof {
                assert(out@ =~= self.bounds@.subrange(0, i + 1));
            }
            i = i + 1;
        }
        out
    }

    /// The number of steps: one less than the number of bounds.
    pub fn len(&self) -> (r: usize)
        requires
            self.wf(),
        ensures
            r as int == self.bounds@.len() - 1,
    {
        self.bounds.len() - 1
    }

    /// The number of bounds.
    pub fn len_bounds(&self) -> (r: usize)
        ensures
            r as int == self.bounds@.len(),
    {
        self.bounds.len()
    }

    /// The first bound.
    pub fn first(&self) -> (r: Scalar)
        requires
            self.wf(),
        ensures
            r == self.bounds@[0],
    {
        self.bounds[0]
    }

    /// The final bound.
    pub fn last(&self) -> (r: Scalar)
        requires
            self.wf(),
        ensures
            r == self.bounds@[self.bounds@.len() - 1],
    {
        self.bounds[self.bounds.len() - 1]
    }

    /// The start time of step `index`, or absent past the last step.
    pub fn at(&self, index: usize) -> (r: Option<Scalar>)
        requires
            self.wf(),
        ensures
            r is Some <==> index < self.bounds@.len() - 1,
            r matches Some(v) ==> v == self.bounds@[index as int],
    {
        if index < self.bounds.len() - 1 {
            Some(self.bounds[index])
        } else {
            None
        }
    }

    /// Both bounds of step `index`, or absent past the last step.  The
    /// later bound is always above the earlier one.
    pub fn at_bounds(&self, index: usize) -> (r: Option<(Scalar, Scalar)>)
        requires
            self.wf(),
        ensures
            r is Some <==> index < self.bounds@.len() - 1,
            r matches Some(p) ==> p.0 == self.bounds@[index as int] && p.1 == self.bounds@[index
                + 1] && p.0@ < p.1@,
    {
        if index < self.bounds.len() - 1 {
            Some((self.bounds[index], self.bounds[index + 1]))
        } else {
            None
        }
    }

    /// The position of an exact match among the bounds, found by binary
    /// search; absent when no bound equals `time`.
    pub fn get_index(&self, time: Scalar) -> (r: Option<usize>)
        requires
            self.wf(),
        ensures
            r matches Some(i) ==> i < self.bounds@.len() && self.bounds@[i as int]@ == time@,
            r is None ==> forall|i: int|
                0 <= i < self.bounds@.len() ==> (#[trigger] self.bounds@[i])@ != time@,
    {
        let k = crate::interpolate::find_segment_index(time, &self.bounds);
        proof {
            crate::interpolate::lemma_count_lt_bounds(self.bounds@, time@);
        }
        if k < self.bounds.len() && self.bounds[k].raw == time.raw {
            Some(k)
        } else {
            None
        }
    }

    /// Whether `value` equals some step-start time.
    pub fn contains(&self, value: Scalar) -> (r: bool)
        requires
            self.wf(),
        ensures
            r == exists|i: int|
                0 <= i < self.bounds@.len() - 1 && (#[trigger] self.bounds@[i])@ == value@,
    {
        let n = self.bounds.len() - 1;
        let mut i: usize = 0;
        let mut found = false;
        while i < n
            invariant
                i <= n,
                n == self.bounds@.len() - 1,
                found == exists|j: int|
                    0 <= j < i && (#[trigger] self.bounds@[j])@ == value@,
            decreases n - i,
        {
            if self.bounds[i].raw == value.raw {
                found = true;
            }
            i = i + 1;
        }
        found
    }

    /// An identical axis.
    pub fn duplicate(&self) -> (r: TimeAxis)
        requires
            self.wf(),
        ensures
            r.bounds@ == self.bounds@,
            r.wf(),
    {
        TimeAxis { bounds: clone_scalars(&self.bounds) }
    }
}

/// Time-axis monotonicity law: construction succeeds exactly for
/// strictly increasing finite bounds (the constructors' contracts), and
/// on every valid axis each step's later bound lies strictly above its
/// earlier one.
pub proof fn lemma_axis_step_ordered(axis: TimeAxis, i: int)
    requires
        axis.wf(),
        0 <= i < axis.bounds@.len() - 1,
    ensures
        axis.bounds@[i]@ < axis.bounds@[i + 1]@,
{
    assert(sorted_scalars(axis.bounds@));
    assert(axis.bounds@[i]@ < axis.bounds@[i + 1]@);
}

/// An elementwise copy of a scalar vector.
pub(crate) fn clone_scalars(v: &Vec<Scalar>) -> (r: Vec<Scalar>)
    ensures
        r@ == v@,
{
    let mut out: Vec<Scalar> = Vec::new();
    let mut i: usize = 0;
    let n = v.len();
    while i < n
        invariant
            i <= n,
            n == v@.len(),
            out@ == v@.subrange(0, i as int),
        decreases n - i,
    {
        out.push(v[i]);
        proof {
            assert(out@ =~= v@.subrange(0, i + 1));
        }
        i = i + 1;
    }
    proof {
        assert(out@ =~= v@);
    }
    out
}

/// The length of the longest missing-free prefix of the values.
pub open spec fn prefix_len(values: Seq<Scalar>) -> int
    decreases values.len(),
{
    if values.len() == 0 {
        0
    } else if values[0].missing_spec() {
        0
    } else {
        1 + prefix_len(values.subrange(1, values.len() as int))
    }
}

/// A split point below which nothing is missing, and which is the end or
/// missing itself, is the prefix length.
pub proof fn lemma_prefix_len_split(values: Seq<Scalar>, i: int)
    requires
        0 <= i <= values.len(),
        forall|j: int| 0 <= j < i ==> !(#[trigger] values[j]).missing_spec(),
        i == values.len() || values[i].missing_spec(),
    ensures
        prefix_len(values) == i,
    decreases values.len(),
{
    if i == 0 {
    } else {
        let tail = values.subrange(1, values.len() as int);
        assert forall|j: int| 0 <= j < i - 1 implies !(#[trigger] tail[j]).missing_spec() by {
            assert(tail[j] == values[j + 1]);
        }
        assert(i - 1 == tail.len() || tail[i - 1].missing_spec());
        lemma_prefix_len_split(tail, i - 1);
    }
}

/// A contiguous, unit-tagged set of values on a time axis.
///
/// `latest` points at the newest value known to be computed: the
/// constructors set it to the end of the longest missing-free prefix,
/// and `set` moves it forward whenever a present value lands at or
/// beyond it.
#[derive(Debug)]
pub struct Timeseries {
    pub units: String,
    pub values: Vec<Scalar>,
    pub time_axis: TimeAxis,
    pub latest: i64,
    pub interpolation_strategy: InterpolationStrategy,
}

impl Timeseries {
    /// A valid timeseries: one value per axis step, every value finite
    /// or missing, `latest` inside the index range or just below it.
    pub open spec fn wf(&self) -> bool {
        &&& self.time_axis.wf()
        &&& self.values@.len() == self.time_axis.bounds@.len() - 1
        &&& seq_inv(self.values@)
        &&& -1 <= self.latest < self.values@.len()
    }

    /// Builds a timeseries over an axis; `latest` starts at the end of
    /// the longest missing-free prefix.
    pub fn new(
        values: Vec<Scalar>,
        time_axis: TimeAxis,
        units: String,
        interpolation_strategy: InterpolationStrategy,
    ) -> (r: Timeseries)
        requires
            time_axis.wf(),
            values@.len() == time_axis.bounds@.len() - 1,
            seq_inv(values@),
        ensures
            r.wf(),
            r.values@ == values@,
            r.time_axis.bounds@ == time_axis.bounds@,
            r.units == units,
            r.interpolation_strategy == interpolation_strategy,
            r.latest == prefix_len(values@) - 1,
    {
        let n = values.len();
        let mut i: usize = 0;
        let mut stop = false;
        while i < n && !stop
            invariant
                i <= n,
                n == values@.len(),
                forall|j: int| 0 <= j < i ==> !(#[trigger] values@[j]).missing_spec(),
                stop ==> i < n && values@[i as int].missing_spec(),
            decreases n - i, if stop { 0int } else { 1int },
        {
            if values[i].is_missing() {
                stop = true;
            } else {
                i = i + 1;
            }
        }
        proof {
            lemma_prefix_len_split(values@, i as int);
        }
        let latest: i64 = (i as i64) - 1;
        Timeseries { units, values, time_axis, latest, interpolation_strategy }
    }

    /// Builds a timeseries from values and step-start times, deriving
    /// the axis; linear interpolation with extrapolation is the default
    /// strategy.  Absent when the axis cannot be built or the lengths
    /// disagree.
    pub fn from_values(values: Vec<Scalar>, time: Vec<Scalar>) -> (r: Option<Timeseries>)
        ensures
            r is Some <==> time@.len() > 2 && seq_inv(time@) && axis_wf(synth_bounds(time@))
                && values@.len() == time@.len() && seq_inv(values@),
            r matches Some(ts) ==> ts.wf() && ts.values@ == values@ && ts.time_axis.bounds@
                == synth_bounds(time@) && ts.units@ == Seq::<char>::empty()
                && ts.interpolation_strategy == (
            InterpolationStrategy::Linear(Interp1dLinearSpline { allow_extrapolation: true })),
    {
        let n_time = time.len();
        let axis = TimeAxis::from_values(time);
        match axis {
            None => None,
            Some(axis) => {
                if values.len() != n_time {
                    return None;
                }
                let mut all_inv = true;
                let n = values.len();
                let mut i: usize = 0;
                while i < n
                    invariant
                        i <= n,
                        n == values@.len(),
                        all_inv == (forall|j: int| 0 <= j < i ==> (#[trigger] values@[j]).inv()),
                    decreases n - i,
                {
                    if !values[i].check_inv() {
                        all_inv = false;
                    }
                    i = i + 1;
                }
                if !all_inv {
                    return None;
                }
                Some(
                    Timeseries::new(
                        values,
                        axis,
                        String::new(),
                        InterpolationStrategy::Linear(Interp1dLinearSpline::new(true)),
                    ),
                )
            },
        }
    }

    /// Replace the interpolation strategy.
    pub fn with_interpolation_strategy(&mut self, interpolation_strategy: InterpolationStrategy)
        requires
            old(self).wf(),
        ensures
            final(self).wf(),
            final(self).values@ == old(self).values@,
            final(self).time_axis.bounds@ == old(self).time_axis.bounds@,
            final(self).units@ == old(self).units@,
            final(self).latest == old(self).latest,
            final(self).interpolation_strategy == interpolation_strategy,
    {
        self.interpolation_strategy = interpolation_strategy;
    }

    /// The number of values, which equals the axis step count.
    pub fn len(&self) -> (r: usize)
        ensures
            r == self.values@.len(),
    {
        self.values.len()
    }

    /// Writes the value at `time_index`; a present value at or beyond
    /// `latest` moves `latest` up to it.
    pub fn set(&mut self, time_index: usize, value: Scalar)
        requires
            old(self).wf(),
            time_index < old(self).values@.len(),
            value.inv(),
        ensures
            final(self).wf(),
            final(self).values@ == old(self).values@.update(time_index as int, value),
            final(self).latest == if !value.missing_spec() && time_index as int > old(
                self,
            ).latest as int {
                time_index as int
            } else {
                old(self).latest as int
            },
            final(self).time_axis.bounds@ == old(self).time_axis.bounds@,
            final(self).units == old(self).units,
            final(self).interpolation_strategy == old(self).interpolation_strategy,
    {
        self.values.set(time_index, value);
        if !value.is_missing() && (time_index as i64) > self.latest {
            self.latest = time_index as i64;
        }
    }

    /// The index of the latest value known to be computed, `-1` when
    /// none is.
    pub fn latest(&self) -> (r: i64)
        ensures
            r == self.latest,
    {
        self.latest
    }

    /// The value at `latest`, or absent when nothing is computed yet.
    pub fn latest_value(&self) -> (r: Option<Scalar>)
        requires
            self.wf(),
        ensures
            r == if self.latest >= 0 {
                Some(self.values@[self.latest as int])
            } else {
                None::<Scalar>
            },
    {
        let n = self.values.len();
        if self.latest >= 0 {
            let idx = self.latest as usize;
            Some(self.values[idx])
        } else {
            None
        }
    }

    /// A timeseries of only missing values over the axis.
    pub fn new_empty(
        time_axis: TimeAxis,
        units: String,
        interpolation_strategy: InterpolationStrategy,
    ) -> (r: Timeseries)
        requires
            time_axis.wf(),
        ensures
            r.wf(),
            r.values@.len() == time_axis.bounds@.len() - 1,
            forall|i: int| 0 <= i < r.values@.len() ==> (#[trigger] r.values@[i]).missing_spec(),
            r.time_axis.bounds@ == time_axis.bounds@,
            r.units == units,
            r.interpolation_strategy == interpolation_strategy,
            r.latest == -1,
    {
        let n = time_axis.bounds.len() - 1;
        let mut values: Vec<Scalar> = Vec::new();
        let mut i: usize = 0;
        while i < n
            invariant
                i <= n,
                values@.len() == i,
                forall|j: int| 0 <= j < i ==> (#[trigger] values@[j]).missing_spec(),
            decreases n - i,
        {
            values.push(Scalar::missing());
            i = i + 1;
        }
        Timeseries::new(values, time_axis, units, interpolation_strategy)
    }

    /// An identical timeseries.
    pub fn duplicate(&self) -> (r: Timeseries)
        requires
            self.wf(),
        ensures
            r.wf(),
            r.units == self.units,
            r.values@ == self.values@,
            r.time_axis.bounds@ == self.time_axis.bounds@,
            r.latest == self.latest,
            r.interpolation_strategy == self.interpolation_strategy,
    {
        Timeseries {
            units: self.units.clone(),
            values: clone_scalars(&self.values),
            time_axis: self.time_axis.duplicate(),
            latest: self.latest,
            interpolation_strategy: self.interpolation_strategy,
        }
    }

    /// The interpolator over this series' axis bounds and values.
    pub fn interpolator(&self) -> (r: Interp1d)
        requires
            self.wf(),
        ensures
            r.time@ == self.time_axis.bounds@,
            r.y@ == self.values@,
            r.strategy == self.interpolation_strategy,
            r.wf(),
    {
        Interp1d::new(
            clone_scalars(&self.time_axis.bounds),
            clone_scalars(&self.values),
            self.interpolation_strategy,
        )
    }

    /// The value at a given time under this series' strategy, or the
    /// out-of-range error.
    pub fn at_time(&self, time: Scalar) -> (r: RSCMResult<Scalar>)
        requires
            self.wf(),
            time.inv(),
        ensures
            interp_post(
                self.interpolation_strategy.allows_extrapolation_spec(),
                self.interpolation_strategy.value_spec(
                    self.time_axis.bounds@,
                    self.values@,
                    time@,
                ),
                self.time_axis.bounds@,
                time,
                r,
            ),
    {
        let interp = self.interpolator();
        interp.interpolate(time)
    }
}

} // verus!
