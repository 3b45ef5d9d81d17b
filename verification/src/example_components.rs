//! A minimal component used by the tests: it scales a constant CO2
//! emission figure into a concentration.

use crate::component::{
    contains_key, lemma_first_index_in_range, state_inv, value_of, Component, InputState,
    OutputState, RequirementDefinition, RequirementType, State,
};
use crate::errors::{RSCMError, RSCMResult};
use crate::scalar::Scalar;
use crate::timeseries_collection::TimeseriesCollection;
use vstd::prelude::*;
use vstd::string::StringExecFns;

verus! {

/// Time-invariant constants of the test component.
#[derive(Clone, Copy, Debug)]
pub struct TestComponentParameters {
    pub p: Scalar,
}

/// A component that reads CO2 emissions and produces CO2 concentrations
/// scaled by the parameter `p`.
#[derive(Clone, Copy, Debug)]
pub struct TestComponent {
    pub parameters: TestComponentParameters,
}

impl TestComponent {
    pub fn from_parameters(parameters: TestComponentParameters) -> (r: TestComponent)
        ensures
            r.parameters == parameters,
    {
        TestComponent { parameters }
    }
}

impl Component for TestComponent {
    fn definitions(&self) -> Vec<RequirementDefinition> {
        let mut defs: Vec<RequirementDefinition> = Vec::new();
        defs.push(RequirementDefinition::new("Emissions|CO2", "GtCO2", RequirementType::Input));
        defs.push(
            RequirementDefinition::new("Concentrations|CO2", "ppm", RequirementType::Output),
        );
        defs
    }

    /// Hands back a fixed emission figure instead of reading the
    /// collection, which keeps the component self-contained.
    fn extract_state(&self, _collection: &TimeseriesCollection, _t_current: Scalar) -> (r:
        RSCMResult<InputState>) {
        let mut names: Vec<String> = Vec::new();
        names.push(String::from_str("Emissions|CO2"));
        let mut values: Vec<Scalar> = Vec::new();
        values.push(Scalar { raw: 1_300_000 });
        let state = InputState::from_vectors(values, names);
        proof {
            assert forall|i: int| 0 <= i < state.state@.len() implies (
            #[trigger] state.state@[i]).1.inv() by {
                assert(state.state@[i].1 == values@[i]);
            }
        }
        Ok(state)
    }

    fn solve(&self, _t_current: Scalar, _t_next: Scalar, input_state: &InputState) -> (r:
        RSCMResult<OutputState>) {
        if !input_state.has("Emissions|CO2") {
            return Err(
                RSCMError::ComponentSolveFailed {
                    message: String::from_str("no input named Emissions|CO2"),
                },
            );
        }
        if !self.parameters.p.check_inv() {
            return Err(
                RSCMError::ComponentSolveFailed {
                    message: String::from_str("the scaling parameter is out of range"),
                },
            );
        }
        proof {
            lemma_first_index_in_range(input_state.state@, "Emissions|CO2"@);
        }
        let emission_co2 = input_state.get("Emissions|CO2");
        let product = emission_co2.times(self.parameters.p);
        let mut names: Vec<String> = Vec::new();
        names.push(String::from_str("Concentrations|CO2"));
        let mut values: Vec<Scalar> = Vec::new();
        values.push(product);
        let state = InputState::from_vectors(values, names);
        proof {
            assert forall|i: int| 0 <= i < state.state@.len() implies (
            #[trigger] state.state@[i]).1.inv() by {
                assert(state.state@[i].1 == values@[i]);
            }
        }
        Ok(state)
    }

    fn label(&self) -> String {
        let text = String::from_str("TestComponent { parameters: TestComponentParameters { p: ");
        let text = text.concat(self.parameters.p.to_decimal_string().as_str());
        text.concat(" } }")
    }
}

} // verus!
