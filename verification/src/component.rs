//! The component contract: requirement declarations, input/output state,
//! and the default state-extraction policy.

use crate::errors::{RSCMError, RSCMResult};
use crate::interpolate::{in_range, Interp1DStrategy};
use crate::scalar::{Scalar, MISSING_RAW};
use crate::timeseries_collection::{
    contains_name, index_of_name, TimeseriesCollection, TimeseriesItem, VariableType,
};
use vstd::prelude::*;
use vstd::string::StringExecFns;

verus! {

/// Some entry carries this key.
pub open spec fn contains_key(state: Seq<(String, Scalar)>, name: Seq<char>) -> bool {
    exists|i: int| 0 <= i < state.len() && (#[trigger] state[i]).0@ == name
}

/// The first position carrying `name`; the length when none does.
pub open spec fn first_index_of(state: Seq<(String, Scalar)>, name: Seq<char>) -> int
    decreases state.len(),
{
    if state.len() == 0 {
        0
    } else if state[0].0@ == name {
        0
    } else {
        1 + first_index_of(state.subrange(1, state.len() as int), name)
    }
}

/// The value stored under `name` (at its first occurrence).
pub open spec fn value_of(state: Seq<(String, Scalar)>, name: Seq<char>) -> Scalar {
    state[first_index_of(state, name)].1
}

/// Every stored scalar is finite or missing.
pub open spec fn state_inv(state: Seq<(String, Scalar)>) -> bool {
    forall|i: int| 0 <= i < state.len() ==> (#[trigger] state[i]).1.inv()
}

/// A split point with no match before it, which is the end or a match
/// itself, is the first index.
pub proof fn lemma_first_index_split(state: Seq<(String, Scalar)>, name: Seq<char>, i: int)
    requires
        0 <= i <= state.len(),
        forall|j: int| 0 <= j < i ==> (#[trigger] state[j]).0@ != name,
        i == state.len() || state[i].0@ == name,
    ensures
        first_index_of(state, name) == i,
    decreases state.len(),
{
    if i == 0 {
    } else {
        let tail = state.subrange(1, state.len() as int);
        assert forall|j: int| 0 <= j < i - 1 implies (#[trigger] tail[j]).0@ != name by {
            assert(tail[j] == state[j + 1]);
        }
        assert(i - 1 == tail.len() || tail[i - 1].0@ == name);
        lemma_first_index_split(tail, name, i - 1);
    }
}

/// Merging one entry: it overrides the first entry of the same name, or
/// lands at the back when the name is new.
pub open spec fn merge_one(state: Seq<(String, Scalar)>, entry: (String, Scalar)) -> Seq<
    (String, Scalar),
> {
    if contains_key(state, entry.0@) {
        state.update(first_index_of(state, entry.0@), entry)
    } else {
        state.push(entry)
    }
}

/// Merging a run of entries, in order.
pub open spec fn merge_all(state: Seq<(String, Scalar)>, entries: Seq<(String, Scalar)>) -> Seq<
    (String, Scalar),
>
    decreases entries.len(),
{
    if entries.len() == 0 {
        state
    } else {
        merge_one(merge_all(state, entries.drop_last()), entries.last())
    }
}

/// Merging states with stored scalars keeps every stored scalar finite
/// or missing.
pub proof fn lemma_merge_all_inv(state: Seq<(String, Scalar)>, entries: Seq<(String, Scalar)>)
    requires
        state_inv(state),
        state_inv(entries),
    ensures
        state_inv(merge_all(state, entries)),
    decreases entries.len(),
{
    if entries.len() > 0 {
        assert forall|i: int|
            0 <= i < entries.drop_last().len() implies (
        #[trigger] entries.drop_last()[i]).1.inv() by {
            assert(entries.drop_last()[i] == entries[i]);
        }
        lemma_merge_all_inv(state, entries.drop_last());
        let m = merge_all(state, entries.drop_last());
        let e = entries.last();
        assert(e.1.inv());
        assert forall|i: int| 0 <= i < merge_one(m, e).len() implies (#[trigger] merge_one(
            m,
            e,
        )[i]).1.inv() by {
            if contains_key(m, e.0@) {
                lemma_first_index_in_range(m, e.0@);
                if i != first_index_of(m, e.0@) {
                    assert(merge_one(m, e)[i] == m[i]);
                }
            } else {
                if i < m.len() {
                    assert(merge_one(m, e)[i] == m[i]);
                }
            }
        }
    }
}

/// Generic state representation: a collection of named values describing
/// a system at one time.
pub trait State<T> {
    /// A value is stored under this name.
    spec fn contains_spec(&self, name: Seq<char>) -> bool;

    /// The value stored under this name.
    spec fn value_spec(&self, name: Seq<char>) -> T;

    /// The value stored under `name`.
    fn get(&self, name: &str) -> (r: T)
        requires
            self.contains_spec(name@),
        ensures
            r == self.value_spec(name@),
    ;
}

/// Named scalar values handed to a component for one step.
#[derive(Debug, Clone)]
pub struct InputState {
    pub state: Vec<(String, Scalar)>,
}

/// Named scalar values a component hands back for the next step; the
/// distinction from [`InputState`] is documentary.
pub type OutputState = InputState;

impl InputState {
    /// Pairs up names and values, in order.
    pub fn from_vectors(values: Vec<Scalar>, names: Vec<String>) -> (r: InputState)
        requires
            values@.len() == names@.len(),
        ensures
            r.state@.len() == names@.len(),
            forall|i: int|
                0 <= i < names@.len() ==> (#[trigger] r.state@[i]).0 == names@[i]
                    && r.state@[i].1 == values@[i],
    {
        let n = values.len();
        let mut state: Vec<(String, Scalar)> = Vec::new();
        let mut i: usize = 0;
        while i < n
            invariant
                i <= n,
                n == values@.len() == names@.len(),
                state@.len() == i,
                forall|j: int|
                    0 <= j < i ==> (#[trigger] state@[j]).0 == names@[j] && state@[j].1
                        == values@[j],
            decreases n - i,
        {
            state.push((names[i].clone(), values[i]));
            i = i + 1;
        }
        InputState { state }
    }

    /// A state with no values.
    pub fn empty() -> (r: InputState)
        ensures
            r.state@.len() == 0,
    {
        InputState { state: Vec::new() }
    }

    /// Wraps entries whose key set is exactly the expected one: every
    /// entry's name must be expected, and every expected name present.
    pub fn from_hashmap_and_verify(
        items: Vec<(String, Scalar)>,
        expected_items: Vec<String>,
    ) -> (r: InputState)
        requires
            forall|i: int|
                0 <= i < items@.len() ==> exists|j: int|
                    0 <= j < expected_items@.len() && (#[trigger] items@[i]).0@ == (
                    #[trigger] expected_items@[j])@,
            forall|j: int|
                0 <= j < expected_items@.len() ==> exists|i: int|
                    0 <= i < items@.len() && (#[trigger] expected_items@[j])@ == (
                    #[trigger] items@[i]).0@,
        ensures
            r.state@ == items@,
    {
        InputState { state: items }
    }

    /// The first position carrying `name`, or absent.
    fn position_of_first(&self, name: &String) -> (r: Option<usize>)
        ensures
            r is Some <==> contains_key(self.state@, name@),
            r matches Some(i) ==> i as int == first_index_of(self.state@, name@) && i
                < self.state@.len() && self.state@[i as int].0@ == name@,
    {
        let n = self.state.len();
        let mut i: usize = 0;
        while i < n
            invariant
                i <= n,
                n == self.state@.len(),
                forall|j: int| 0 <= j < i ==> (#[trigger] self.state@[j]).0@ != name@,
            decreases n - i,
        {
            if self.state[i].0.eq(name) {
                proof {
                    lemma_first_index_split(self.state@, name@, i as int);
                }
                return Some(i);
            }
            i = i + 1;
        }
        None
    }

    /// Whether a value is stored under `name`.
    pub fn has(&self, name: &str) -> (r: bool)
        ensures
            r == contains_key(self.state@, name@),
    {
        let owned = String::from_str(name);
        self.position_of_first(&owned).is_some()
    }

    /// Merges another state into this one, overriding values of the same
    /// name and appending new ones.
    pub fn merge(&mut self, state: InputState)
        ensures
            final(self).state@ == merge_all(old(self).state@, state.state@),
    {
        let n = state.state.len();
        let mut i: usize = 0;
        while i < n
            invariant
                i <= n,
                n == state.state@.len(),
                self.state@ == merge_all(old(self).state@, state.state@.subrange(0, i as int)),
            decreases n - i,
        {
            let name = state.state[i].0.clone();
            let value = state.state[i].1;
            proof {
                assert((name, value) == state.state@[i as int]);
            }
            let pos = self.position_of_first(&name);
            match pos {
                Some(j) => {
                    self.state.set(j, (name, value));
                },
                None => {
                    self.state.push((name, value));
                },
            }
            proof {
                assert(state.state@.subrange(0, i + 1).drop_last() =~= state.state@.subrange(
                    0,
                    i as int,
                ));
                assert(state.state@.subrange(0, i + 1).last() == state.state@[i as int]);
            }
            i = i + 1;
        }
        proof {
            assert(state.state@.subrange(0, n as int) =~= state.state@);
        }
    }

    /// The entries, for traversal.
    pub fn iter(&self) -> (r: &Vec<(String, Scalar)>)
        ensures
            r@ == self.state@,
    {
        &self.state
    }

    /// The entries, consumed.
    pub fn into_iter(self) -> (r: Vec<(String, Scalar)>)
        ensures
            r@ == self.state@,
    {
        self.state
    }
}

impl State<Scalar> for InputState {
    open spec fn contains_spec(&self, name: Seq<char>) -> bool {
        contains_key(self.state@, name)
    }

    open spec fn value_spec(&self, name: Seq<char>) -> Scalar {
        value_of(self.state@, name)
    }

    fn get(&self, name: &str) -> (r: Scalar) {
        let owned = String::from_str(name);
        let pos = self.position_of_first(&owned);
        match pos {
            Some(i) => self.state[i].1,
            None => Scalar::missing(),
        }
    }
}

/// Whether a requirement is read by its component.
#[derive(Clone, Copy, PartialEq, Eq, Structural, Debug, Hash)]
pub enum RequirementType {
    Input,
    Output,
    InputAndOutput,
}

/// A named, unit-tagged declaration by a component of a variable it
/// reads or writes.
#[derive(Clone, PartialEq, Eq, Debug, Hash)]
pub struct RequirementDefinition {
    pub name: String,
    pub unit: String,
    pub requirement_type: RequirementType,
}

impl RequirementDefinition {
    pub fn new(name: &str, unit: &str, parameter_type: RequirementType) -> (r:
        RequirementDefinition)
        ensures
            r.name@ == name@,
            r.unit@ == unit@,
            r.requirement_type == parameter_type,
    {
        RequirementDefinition {
            name: String::from_str(name),
            unit: String::from_str(unit),
            requirement_type: parameter_type,
        }
    }
}

/// A field-by-field copy of a requirement.
pub fn clone_def(d: &RequirementDefinition) -> (r: RequirementDefinition)
    ensures
        r == *d,
{
    RequirementDefinition {
        name: d.name.clone(),
        unit: d.unit.clone(),
        requirement_type: d.requirement_type,
    }
}

/// A requirement the component reads.
pub open spec fn is_input_def(d: RequirementDefinition) -> bool {
    d.requirement_type is Input || d.requirement_type is InputAndOutput
}

/// A requirement the component writes.
pub open spec fn is_output_def(d: RequirementDefinition) -> bool {
    d.requirement_type is Output || d.requirement_type is InputAndOutput
}

/// The requirements a component reads, in declaration order.
pub open spec fn input_defs(defs: Seq<RequirementDefinition>) -> Seq<RequirementDefinition>
    decreases defs.len(),
{
    if defs.len() == 0 {
        Seq::empty()
    } else if is_input_def(defs.last()) {
        input_defs(defs.drop_last()).push(defs.last())
    } else {
        input_defs(defs.drop_last())
    }
}

/// The requirements a component writes, in declaration order.
pub open spec fn output_defs(defs: Seq<RequirementDefinition>) -> Seq<RequirementDefinition>
    decreases defs.len(),
{
    if defs.len() == 0 {
        Seq::empty()
    } else if is_output_def(defs.last()) {
        output_defs(defs.drop_last()).push(defs.last())
    } else {
        output_defs(defs.drop_last())
    }
}

/// The declared variables that a component requires to be solved.
pub fn inputs(defs: &Vec<RequirementDefinition>) -> (r: Vec<RequirementDefinition>)
    ensures
        r@ == input_defs(defs@),
{
    let n = defs.len();
    let mut out: Vec<RequirementDefinition> = Vec::new();
    let mut i: usize = 0;
    while i < n
        invariant
            i <= n,
            n == defs@.len(),
            out@ == input_defs(defs@.subrange(0, i as int)),
        decreases n - i,
    {
        let d = &defs[i];
        let keep = match d.requirement_type {
            RequirementType::Input => true,
            RequirementType::InputAndOutput => true,
            RequirementType::Output => false,
        };
        if keep {
            out.push(clone_def(d));
        }
        proof {
            assert(defs@.subrange(0, i + 1).drop_last() =~= defs@.subrange(0, i as int));
            assert(defs@.subrange(0, i + 1).last() == defs@[i as int]);
        }
        i = i + 1;
    }
    proof {
        assert(defs@.subrange(0, n as int) =~= defs@);
    }
    out
}

/// The declared variables that a component solves.
pub fn outputs(defs: &Vec<RequirementDefinition>) -> (r: Vec<RequirementDefinition>)
    ensures
        r@ == output_defs(defs@),
{
    let n = defs.len();
    let mut out: Vec<RequirementDefinition> = Vec::new();
    let mut i: usize = 0;
    while i < n
        invariant
            i <= n,
            n == defs@.len(),
            out@ == output_defs(defs@.subrange(0, i as int)),
        decreases n - i,
    {
        let d = &defs[i];
        let keep = match d.requirement_type {
            RequirementType::Output => true,
            RequirementType::InputAndOutput => true,
            RequirementType::Input => false,
        };
        if keep {
            out.push(clone_def(d));
        }
        proof {
            assert(defs@.subrange(0, i + 1).drop_last() =~= defs@.subrange(0, i as int));
            assert(defs@.subrange(0, i + 1).last() == defs@[i as int]);
        }
        i = i + 1;
    }
    proof {
        assert(defs@.subrange(0, n as int) =~= defs@);
    }
    out
}

/// The names of the requirements, in order.
pub fn names_of(defs: &Vec<RequirementDefinition>) -> (r: Vec<String>)
    ensures
        r@.len() == defs@.len(),
        forall|i: int| 0 <= i < defs@.len() ==> (#[trigger] r@[i])@ == defs@[i].name@,
{
    let n = defs.len();
    let mut out: Vec<String> = Vec::new();
    let mut i: usize = 0;
    while i < n
        invariant
            i <= n,
            n == defs@.len(),
            out@.len() == i,
            forall|j: int| 0 <= j < i ==> (#[trigger] out@[j])@ == defs@[j].name@,
        decreases n - i,
    {
        out.push(defs[i].name.clone());
        i = i + 1;
    }
    out
}

/// The names a component reads.
pub fn input_names(defs: &Vec<RequirementDefinition>) -> (r: Vec<String>)
    ensures
        r@.len() == input_defs(defs@).len(),
        forall|i: int|
            0 <= i < input_defs(defs@).len() ==> (#[trigger] r@[i])@ == input_defs(
                defs@,
            )[i].name@,
{
    let ins = inputs(defs);
    names_of(&ins)
}

/// The names a component writes.
pub fn output_names(defs: &Vec<RequirementDefinition>) -> (r: Vec<String>)
    ensures
        r@.len() == output_defs(defs@).len(),
        forall|i: int|
            0 <= i < output_defs(defs@).len() ==> (#[trigger] r@[i])@ == output_defs(
                defs@,
            )[i].name@,
{
    let outs = outputs(defs);
    names_of(&outs)
}

/// Whether extraction succeeds for one name: the collection holds it,
/// and an exogenous series can answer the query time.
pub open spec fn extract_ok_at(items: Seq<TimeseriesItem>, name: Seq<char>, t: int) -> bool {
    &&& contains_name(items, name)
    &&& (items[index_of_name(items, name)].variable_type is Exogenous ==> {
        let ts = items[index_of_name(items, name)].timeseries;
        ts.interpolation_strategy.allows_extrapolation_spec() || in_range(ts.time_axis.bounds@, t)
    })
}

/// The value extraction reads for one name: the latest value of an
/// endogenous series (missing when nothing is computed yet), the
/// interpolated value of an exogenous one.
pub open spec fn extracted_value(items: Seq<TimeseriesItem>, name: Seq<char>, t: int) -> Scalar {
    let item = items[index_of_name(items, name)];
    match item.variable_type {
        VariableType::Endogenous => if item.timeseries.latest >= 0 {
            item.timeseries.values@[item.timeseries.latest as int]
        } else {
            Scalar { raw: MISSING_RAW }
        },
        VariableType::Exogenous => Scalar {
            raw: item.timeseries.interpolation_strategy.value_spec(
                item.timeseries.time_axis.bounds@,
                item.timeseries.values@,
                t,
            ) as i64,
        },
    }
}

/// The default state-extraction policy: for each input name, an
/// endogenous series contributes its latest value — so values produced
/// earlier within the same step are seen — and an exogenous series is
/// interpolated at the current time.
pub fn extract_state_default(
    input_names: &Vec<String>,
    collection: &TimeseriesCollection,
    t_current: Scalar,
) -> (r: RSCMResult<InputState>)
    requires
        collection.wf(),
        t_current.inv(),
    ensures
        r is Ok <==> forall|i: int|
            0 <= i < input_names@.len() ==> extract_ok_at(
                collection.timeseries@,
                (#[trigger] input_names@[i])@,
                t_current@,
            ),
        r matches Ok(s) ==> s.state@.len() == input_names@.len() && (forall|i: int|
            0 <= i < input_names@.len() ==> (#[trigger] s.state@[i]).0@ == input_names@[i]@
                && s.state@[i].1 == extracted_value(
                collection.timeseries@,
                input_names@[i]@,
                t_current@,
            )) && state_inv(s.state@),
        r matches Err(e) ==> (e is MissingExogenousData || e is ExtrapolationNotAllowed),
{
    let n = input_names.len();
    let mut state: Vec<(String, Scalar)> = Vec::new();
    let mut i: usize = 0;
    while i < n
        invariant
            i <= n,
            n == input_names@.len(),
            collection.wf(),
            t_current.inv(),
            state@.len() == i,
            forall|j: int|
                0 <= j < i ==> extract_ok_at(
                    collection.timeseries@,
                    (#[trigger] input_names@[j])@,
                    t_current@,
                ),
            forall|j: int|
                0 <= j < i ==> (#[trigger] state@[j]).0@ == input_names@[j]@ && state@[j].1
                    == extracted_value(collection.timeseries@, input_names@[j]@, t_current@)
                    && state@[j].1.inv(),
        decreases n - i,
    {
        let name = &input_names[i];
        let found = collection.get_by_name(name.as_str());
        match found {
            None => {
                return Err(RSCMError::MissingExogenousData { name: name.clone() });
            },
            Some(item) => {
                match item.variable_type {
                    VariableType::Endogenous => {
                        let v = match item.timeseries.latest_value() {
                            Some(v) => v,
                            None => Scalar::missing(),
                        };
                        state.push((name.clone(), v));
                    },
                    VariableType::Exogenous => {
                        let queried = item.timeseries.at_time(t_current);
                        match queried {
                            Ok(v) => {
                                proof {
                                    assert(v == extracted_value(
                                        collection.timeseries@,
                                        input_names@[i as int]@,
                                        t_current@,
                                    ));
                                }
                                state.push((name.clone(), v));
                            },
                            Err(e) => {
                                return Err(e);
                            },
                        }
                    },
                }
            },
        }
        i = i + 1;
    }
    Ok(InputState { state })
}

/// When a state contains a key, its first index is a real position
/// carrying that key, so the stored value is a stored scalar.
pub proof fn lemma_first_index_in_range(state: Seq<(String, Scalar)>, name: Seq<char>)
    requires
        contains_key(state, name),
    ensures
        0 <= first_index_of(state, name) < state.len(),
        state[first_index_of(state, name)].0@ == name,
    decreases state.len(),
{
    if state.len() > 0 && state[0].0@ != name {
        let tail = state.subrange(1, state.len() as int);
        let i = choose|i: int| 0 <= i < state.len() && (#[trigger] state[i]).0@ == name;
        assert(tail[i - 1] == state[i]);
        assert(contains_key(tail, name));
        lemma_first_index_in_range(tail, name);
    }
}

/// A component of a reduced-complexity climate model: a set of physics
/// that is solved over one time step from an extracted input state.
pub trait Component {
    /// The variables the component reads and writes.
    fn definitions(&self) -> Vec<RequirementDefinition>;

    /// Collects the component's input values for the step starting at
    /// `t_current`.
    fn extract_state(&self, collection: &TimeseriesCollection, t_current: Scalar) -> (r: RSCMResult<
        InputState,
    >)
        requires
            collection.wf(),
            t_current.inv(),
        ensures
            r matches Ok(s) ==> state_inv(s.state@),
    ;

    /// Solves the component from `t_current` to `t_next`, producing
    /// values that stand for the state at `t_next`.
    fn solve(&self, t_current: Scalar, t_next: Scalar, input_state: &InputState) -> (r: RSCMResult<
        OutputState,
    >)
        requires
            t_current.inv(),
            t_next.inv(),
            state_inv(input_state.state@),
        ensures
            r matches Ok(s) ==> state_inv(s.state@),
    ;

    /// A short description of the component for diagnostics.
    fn label(&self) -> String;
}

} // verus!
