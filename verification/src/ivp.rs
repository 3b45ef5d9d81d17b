//! Fixed-step Runge-Kutta-4 integration of a component's initial-value
//! problem over one step interval.
//!
//! A component whose physics is a set of ordinary differential equations
//! supplies `dy/dt`; the solver advances the state vector with the
//! classical four-stage scheme on a fixed sub-step, shortening only the
//! final sub-step to land exactly on the interval's end.

use crate::component::{state_inv, InputState};
use crate::interpolate::seq_inv;
use crate::scalar::Scalar;
use crate::timeseries::clone_scalars;
use vstd::prelude::*;

verus! {

/// The initial-value problem a component exposes: the derivative of its
/// state vector at a time, given the step's input state.
pub trait IVP {
    /// Writes the derivative of `y` at `t` into `dy_dt`.
    fn calculate_dy_dt(
        &self,
        t: Scalar,
        input_state: &InputState,
        y: &Vec<Scalar>,
        dy_dt: &mut Vec<Scalar>,
    )
        requires
            t.inv(),
            state_inv(input_state.state@),
            seq_inv(y@),
            old(dy_dt)@.len() == y@.len(),
        ensures
            final(dy_dt)@.len() == y@.len(),
            seq_inv(final(dy_dt)@),
    ;
}

/// A vector of zeroes.
fn zero_vec(n: usize) -> (r: Vec<Scalar>)
    ensures
        r@.len() == n,
        seq_inv(r@),
{
    let mut out: Vec<Scalar> = Vec::new();
    let mut i: usize = 0;
    while i < n
        invariant
            i <= n,
            out@.len() == i,
            seq_inv(out@),
        decreases n - i,
    {
        out.push(Scalar::zero());
        i = i + 1;
    }
    out
}

/// Elementwise `y + h * k` in saturating fixed-point arithmetic.
fn scaled_add(y: &Vec<Scalar>, k: &Vec<Scalar>, h: Scalar) -> (r: Vec<Scalar>)
    requires
        y@.len() == k@.len(),
        seq_inv(y@),
        seq_inv(k@),
        h.inv(),
    ensures
        r@.len() == y@.len(),
        forall|i: int|
            0 <= i < y@.len() ==> (#[trigger] r@[i]) == Scalar::sum_spec(
                y@[i],
                Scalar::prod_spec(h, k@[i]),
            ),
        seq_inv(r@),
{
    let n = y.len();
    let mut out: Vec<Scalar> = Vec::new();
    let mut i: usize = 0;
    while i < n
        invariant
            i <= n,
            n == y@.len() == k@.len(),
            seq_inv(y@),
            seq_inv(k@),
            h.inv(),
            out@.len() == i,
            forall|j: int|
                0 <= j < i ==> (#[trigger] out@[j]) == Scalar::sum_spec(
                    y@[j],
                    Scalar::prod_spec(h, k@[j]),
                ),
            seq_inv(out@),
        decreases n - i,
    {
        out.push(y[i].plus(h.times(k[i])));
        i = i + 1;
    }
    out
}

/// The classical four-stage blend of one sub-step: each element becomes
/// `y + (h * (k1 + 2*k2 + 2*k3 + k4)) / 6`, in saturating fixed-point
/// arithmetic.
pub open spec fn rk4_blend_spec(
    yi: Scalar,
    k1i: Scalar,
    k2i: Scalar,
    k3i: Scalar,
    k4i: Scalar,
    h: Scalar,
) -> Scalar {
    let six = Scalar { raw: 6_000_000 };
    let sum = Scalar::sum_spec(
        Scalar::sum_spec(Scalar::sum_spec(k1i, k2i), Scalar::sum_spec(k2i, k3i)),
        Scalar::sum_spec(k3i, k4i),
    );
    Scalar::sum_spec(yi, Scalar::quot_spec(Scalar::prod_spec(h, sum), six))
}

/// The result is one classical four-stage step from `y` across width
/// `h`: four derivative vectors of the right shape exist whose blend it
/// is, elementwise.  Kept opaque so the existential only unfolds where
/// a witness is produced.
#[verifier::opaque]
pub open spec fn is_rk4_blend_of(r: Seq<Scalar>, y: Seq<Scalar>, h: Scalar) -> bool {
    exists|k1: Seq<Scalar>, k2: Seq<Scalar>, k3: Seq<Scalar>, k4: Seq<Scalar>|
        #![trigger k1.len(), k2.len(), k3.len(), k4.len()]
        k1.len() == y.len() && k2.len() == y.len() && k3.len() == y.len() && k4.len() == y.len()
            && seq_inv(k1) && seq_inv(k2) && seq_inv(k3) && seq_inv(k4) && (forall|i: int|
            0 <= i < y.len() ==> (#[trigger] r[i]) == rk4_blend_spec(
                y[i],
                k1[i],
                k2[i],
                k3[i],
                k4[i],
                h,
            ))
}

/// Elementwise four-stage blend.
fn rk4_blend(
    y: &Vec<Scalar>,
    k1: &Vec<Scalar>,
    k2: &Vec<Scalar>,
    k3: &Vec<Scalar>,
    k4: &Vec<Scalar>,
    h: Scalar,
) -> (r: Vec<Scalar>)
    requires
        y@.len() == k1@.len() && y@.len() == k2@.len() && y@.len() == k3@.len() && y@.len()
            == k4@.len(),
        seq_inv(y@),
        seq_inv(k1@),
        seq_inv(k2@),
        seq_inv(k3@),
        seq_inv(k4@),
        h.inv(),
    ensures
        r@.len() == y@.len(),
        forall|i: int|
            0 <= i < y@.len() ==> (#[trigger] r@[i]) == rk4_blend_spec(
                y@[i],
                k1@[i],
                k2@[i],
                k3@[i],
                k4@[i],
                h,
            ),
        seq_inv(r@),
{
    let six = Scalar { raw: 6_000_000 };
    let n = y.len();
    let mut out: Vec<Scalar> = Vec::new();
    let mut i: usize = 0;
    while i < n
        invariant
            i <= n,
            n == y@.len() == k1@.len() == k2@.len() == k3@.len() == k4@.len(),
            seq_inv(y@),
            seq_inv(k1@),
            seq_inv(k2@),
            seq_inv(k3@),
            seq_inv(k4@),
            h.inv(),
            six == (Scalar { raw: 6_000_000 }),
            out@.len() == i,
            forall|j: int|
                0 <= j < i ==> (#[trigger] out@[j]) == rk4_blend_spec(
                    y@[j],
                    k1@[j],
                    k2@[j],
                    k3@[j],
                    k4@[j],
                    h,
                ),
            seq_inv(out@),
        decreases n - i,
    {
        let sum = k1[i].plus(k2[i]).plus(k2[i].plus(k3[i])).plus(k3[i].plus(k4[i]));
        out.push(y[i].plus(h.times(sum).div_by(six)));
        i = i + 1;
    }
    out
}

/// Solves a component's initial-value problem over step intervals by
/// fixed-step Runge-Kutta-4 integration.
pub struct IVPSolver<'a, C> {
    pub component: &'a C,
    pub input_state: InputState,
}

impl<'a, C: IVP> IVPSolver<'a, C> {
    pub fn new(component: &'a C, input_state: InputState) -> (r: IVPSolver<'a, C>)
        ensures
            r.component == component,
            r.input_state == input_state,
    {
        IVPSolver { component, input_state }
    }

    /// Integrates from `(t0, y0)` to `t1` with sub-step `step`,
    /// shortening the final sub-step to land on `t1` exactly.  Returns
    /// the trajectory: it starts at `(t0, y0)`, its times increase
    /// strictly, and with `t0 < t1` it ends exactly at `t1`.
    pub fn integrate(&self, t0: Scalar, t1: Scalar, step: Scalar, y0: Vec<Scalar>) -> (r: Vec<
        (Scalar, Vec<Scalar>),
    >)
        requires
            state_inv(self.input_state.state@),
            t0.finite(),
            t1.finite(),
            step.finite(),
            step@ > 0,
            seq_inv(y0@),
        ensures
            r@.len() >= 1,
            r@[0].0 == t0,
            r@[0].1@ == y0@,
            forall|i: int|
                0 <= i < r@.len() ==> (#[trigger] r@[i]).0.finite() && r@[i].1@.len() == y0@.len()
                    && seq_inv(r@[i].1@),
            forall|i: int| 0 <= i < r@.len() - 1 ==> (#[trigger] r@[i]).0@ < r@[i + 1].0@,
            forall|i: int|
                0 <= i < r@.len() - 1 ==> is_rk4_blend_of(
                    (#[trigger] r@[i + 1]).1@,
                    r@[i].1@,
                    Scalar::diff_spec(r@[i + 1].0, r@[i].0),
                ),
            t0@ < t1@ ==> r@[r@.len() - 1].0@ == t1@,
            t0@ >= t1@ ==> r@.len() == 1,
    {
        let mut trajectory: Vec<(Scalar, Vec<Scalar>)> = Vec::new();
        trajectory.push((t0, clone_scalars(&y0)));
        let mut t = t0;
        let mut y = y0;
        while t.raw < t1.raw
            invariant
                state_inv(self.input_state.state@),
                t1.finite(),
                step.finite(),
                step@ > 0,
                t.finite(),
                t@ <= t1@ || t == t0,
                seq_inv(y@),
                trajectory@.len() >= 1,
                trajectory@[0].0 == t0,
                trajectory@[0].1@ == y0@,
                y@.len() == y0@.len(),
                t0@ >= t1@ ==> trajectory@.len() == 1,
                trajectory@[trajectory@.len() - 1].0 == t,
                trajectory@[trajectory@.len() - 1].1@ == y@,
                forall|i: int|
                    0 <= i < trajectory@.len() ==> (#[trigger] trajectory@[i]).0.finite()
                        && trajectory@[i].1@.len() == y@.len() && seq_inv(trajectory@[i].1@),
                forall|i: int|
                    0 <= i < trajectory@.len() - 1 ==> (#[trigger] trajectory@[i]).0@
                        < trajectory@[i + 1].0@,
                forall|i: int|
                    0 <= i < trajectory@.len() - 1 ==> is_rk4_blend_of(
                        (#[trigger] trajectory@[i + 1]).1@,
                        trajectory@[i].1@,
                        Scalar::diff_spec(trajectory@[i + 1].0, trajectory@[i].0),
                    ),
            decreases t1@ - t@,
        {
            let advanced = t.plus(step);
            let t_next = if advanced.raw < t1.raw {
                advanced
            } else {
                t1
            };
            let h = t_next.minus(t);
            let ghost prev_y = y@;
            let ghost prev_t = t;
            y = self.rk4_step(t, h, &y);
            t = t_next;
            trajectory.push((t, clone_scalars(&y)));
            proof {
                assert forall|i: int|
                    0 <= i < trajectory@.len() - 1 implies is_rk4_blend_of(
                    (#[trigger] trajectory@[i + 1]).1@,
                    trajectory@[i].1@,
                    Scalar::diff_spec(trajectory@[i + 1].0, trajectory@[i].0),
                ) by {
                    if i == trajectory@.len() - 2 {
                        assert(trajectory@[i].1@ == prev_y);
                        assert(trajectory@[i + 1].1@ == y@);
                        assert(h == Scalar::diff_spec(t_next, prev_t));
                        assert(is_rk4_blend_of(y@, prev_y, h));
                    }
                }
            }
        }
        trajectory
    }

    /// One four-stage sub-step from `(t, y)` across width `h`.
    fn rk4_step(&self, t: Scalar, h: Scalar, y: &Vec<Scalar>) -> (r: Vec<Scalar>)
        requires
            state_inv(self.input_state.state@),
            t.inv(),
            h.inv(),
            seq_inv(y@),
        ensures
            r@.len() == y@.len(),
            seq_inv(r@),
            is_rk4_blend_of(r@, y@, h),
    {
        let half = Scalar { raw: crate::scalar::SCALE / 2 };
        let h_half = h.times(half);
        let t_half = t.plus(h_half);
        let t_end = t.plus(h);
        let n = y.len();
        let mut k1 = zero_vec(n);
        self.component.calculate_dy_dt(t, &self.input_state, y, &mut k1);
        let y2 = scaled_add(y, &k1, h_half);
        let mut k2 = zero_vec(n);
        self.component.calculate_dy_dt(t_half, &self.input_state, &y2, &mut k2);
        let y3 = scaled_add(y, &k2, h_half);
        let mut k3 = zero_vec(n);
        self.component.calculate_dy_dt(t_half, &self.input_state, &y3, &mut k3);
        let y4 = scaled_add(y, &k3, h);
        let mut k4 = zero_vec(n);
        self.component.calculate_dy_dt(t_end, &self.input_state, &y4, &mut k4);
        let blended = rk4_blend(y, &k1, &k2, &k3, &k4, h);
        proof {
            reveal(is_rk4_blend_of);
            assert(k1@.len() == y@.len() && k2@.len() == y@.len() && k3@.len() == y@.len()
                && k4@.len() == y@.len());
        }
        blended
    }
}

} // verus!
