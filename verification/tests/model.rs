use rscm::component::{
    input_names, Component, InputState, RequirementDefinition, RequirementType, State,
};
use rscm::errors::{RSCMError, RSCMResult};
use rscm::example_components::{TestComponent, TestComponentParameters};
use rscm::interpolate::{Interp1DNext, InterpolationStrategy};
use rscm::timeseries::Timeseries;
use rscm::timeseries_collection::VariableType;
use rscm::model::ModelBuilder;
use rscm::scalar::Scalar;
use rscm::timeseries::TimeAxis;
use rscm::timeseries_collection::TimeseriesCollection;

fn s(x: f64) -> Scalar {
    Scalar::from_raw((x * 1_000_000.0).round() as i64).unwrap()
}

fn scalars(xs: &[f64]) -> Vec<Scalar> {
    xs.iter().map(|&x| s(x)).collect()
}

fn test_axis() -> TimeAxis {
    TimeAxis::from_values(scalars(&[2020.0, 2021.0, 2022.0, 2023.0, 2024.0])).unwrap()
}

fn emissions() -> Timeseries {
    Timeseries::from_values(
        scalars(&[1.3, 1.3, 1.3, 1.3, 1.3]),
        scalars(&[2020.0, 2021.0, 2022.0, 2023.0, 2024.0]),
    )
    .unwrap()
}

#[test]
fn build() {
    let _model = ModelBuilder::new()
        .with_time_axis(test_axis())
        .with_component(TestComponent::from_parameters(TestComponentParameters { p: s(0.5) }))
        .with_exogenous_variable("Emissions|CO2", emissions())
        .build()
        .unwrap();
}

#[test]
fn step() {
    let mut model = ModelBuilder::new()
        .with_time_axis(test_axis())
        .with_component(TestComponent::from_parameters(TestComponentParameters { p: s(0.5) }))
        .with_exogenous_variable("Emissions|CO2", emissions())
        .build()
        .unwrap();

    assert_eq!(model.time_index, 0);
    model.step();
    model.step();
    assert_eq!(model.time_index, 2);
    assert_eq!(model.current_time(), s(2022.0));
    model.run();
    assert_eq!(model.time_index, 5);
}

#[test]
fn dot() {
    let model = ModelBuilder::new()
        .with_time_axis(test_axis())
        .with_component(TestComponent::from_parameters(TestComponentParameters { p: s(0.5) }))
        .with_exogenous_variable("Emissions|CO2", emissions())
        .build()
        .unwrap();

    let exp = "digraph {
    0 [ ]
    1 [ label = \"TestComponent { parameters: TestComponentParameters { p: 0.5 } }\"]
    0 -> 1 [ ]
}
";

    let res = model.as_dot();
    assert_eq!(res, exp);
    assert!(res.contains("0 [ ]"));
    assert!(res.contains("0 -> 1 [ ]"));
}

/// A one-input, one-output component that copies its input to its
/// output, used to wire test graphs of any shape.
#[derive(Debug, Clone)]
struct Pipe {
    input: &'static str,
    output: &'static str,
}

impl Component for Pipe {
    fn definitions(&self) -> Vec<RequirementDefinition> {
        vec![
            RequirementDefinition::new(self.input, "u", RequirementType::Input),
            RequirementDefinition::new(self.output, "u", RequirementType::Output),
        ]
    }

    fn extract_state(
        &self,
        collection: &TimeseriesCollection,
        t_current: Scalar,
    ) -> RSCMResult<InputState> {
        let defs = self.definitions();
        rscm::component::extract_state_default(&input_names(&defs), collection, t_current)
    }

    fn solve(
        &self,
        _t_current: Scalar,
        _t_next: Scalar,
        input_state: &InputState,
    ) -> RSCMResult<InputState> {
        let value = input_state.get(self.input);
        Ok(InputState::from_vectors(
            vec![value],
            vec![String::from(self.output)],
        ))
    }

    fn label(&self) -> String {
        format!("Pipe({} -> {})", self.input, self.output)
    }
}

#[test]
fn build_rejects_cycles() {
    // two components that each require the other's output
    let a = Pipe { input: "x", output: "y" };
    let b = Pipe { input: "y", output: "x" };
    let result = ModelBuilder::new()
        .with_time_axis(test_axis())
        .with_component(a)
        .with_component(b)
        .build();
    assert!(matches!(result, Err(RSCMError::CycleDetected)));
}

#[test]
fn chain_reads_fresh_values_within_one_step() {
    // A -> B -> C: each step B must see the value A wrote in that step
    let a = Pipe { input: "source", output: "a_out" };
    let b = Pipe { input: "a_out", output: "b_out" };
    let c = Pipe { input: "b_out", output: "c_out" };
    let source = Timeseries::from_values(
        scalars(&[1.0, 2.0, 3.0, 4.0, 5.0]),
        scalars(&[2020.0, 2021.0, 2022.0, 2023.0, 2024.0]),
    )
    .unwrap();
    let mut model = ModelBuilder::new()
        .with_time_axis(test_axis())
        .with_component(a)
        .with_component(b)
        .with_component(c)
        .with_exogenous_variable("source", source)
        .build()
        .unwrap();
    model.step();
    // after one step, the chain has propagated the source value at 2020
    // all the way to C's output for the next index
    let c_series = model.collection.get_timeseries_by_name("c_out").unwrap();
    assert_eq!(c_series.values[1], s(1.0));
    assert_eq!(c_series.latest(), 1);
}

#[test]
fn build_rejects_unit_mismatch() {
    #[derive(Debug, Clone)]
    struct BadUnits;
    impl Component for BadUnits {
        fn definitions(&self) -> Vec<RequirementDefinition> {
            vec![
                RequirementDefinition::new("x", "kg", RequirementType::Input),
                RequirementDefinition::new("x", "g", RequirementType::Output),
            ]
        }

        fn extract_state(
            &self,
            _collection: &TimeseriesCollection,
            _t_current: Scalar,
        ) -> RSCMResult<InputState> {
            Ok(InputState::empty())
        }

        fn solve(
            &self,
            _t_current: Scalar,
            _t_next: Scalar,
            _input_state: &InputState,
        ) -> RSCMResult<InputState> {
            Ok(InputState::empty())
        }

        fn label(&self) -> String {
            String::from("BadUnits")
        }
    }
    let result = ModelBuilder::new()
        .with_time_axis(test_axis())
        .with_component(BadUnits)
        .build();
    assert!(matches!(result, Err(RSCMError::UnitMismatch { .. })));
}

#[test]
fn build_rejects_missing_exogenous_data() {
    // a required variable with no producer, no initial value and no
    // supplied series fails the build
    let needs_data = Pipe { input: "unsupplied", output: "out" };
    let result = ModelBuilder::new()
        .with_time_axis(test_axis())
        .with_component(needs_data)
        .build();
    assert!(matches!(result, Err(RSCMError::MissingExogenousData { .. })));
}

#[test]
fn default_axis_covers_decimal_years_2000_to_2100() {
    let builder: ModelBuilder<TestComponent> = ModelBuilder::new();
    let axis = builder.time_axis;
    assert_eq!(axis.len(), 100);
    assert_eq!(axis.first(), s(2000.0));
    assert_eq!(axis.last(), s(2100.0));
    assert_eq!(axis.at(1).unwrap(), s(2001.0));
}

#[test]
fn carried_state_makes_a_self_loop() {
    // a component that reads and writes the same variable across steps
    #[derive(Debug, Clone)]
    struct Accumulator;
    impl Component for Accumulator {
        fn definitions(&self) -> Vec<RequirementDefinition> {
            vec![RequirementDefinition::new(
                "stock",
                "GtC",
                RequirementType::InputAndOutput,
            )]
        }

        fn extract_state(
            &self,
            collection: &TimeseriesCollection,
            t_current: Scalar,
        ) -> RSCMResult<InputState> {
            let defs = self.definitions();
            rscm::component::extract_state_default(&input_names(&defs), collection, t_current)
        }

        fn solve(
            &self,
            _t_current: Scalar,
            _t_next: Scalar,
            input_state: &InputState,
        ) -> RSCMResult<InputState> {
            let stock = input_state.get("stock");
            Ok(InputState::from_vectors(
                vec![stock.plus(s(1.0))],
                vec![String::from("stock")],
            ))
        }

        fn label(&self) -> String {
            String::from("Accumulator")
        }
    }
    let mut initial = InputState::empty();
    initial.merge(InputState::from_vectors(
        vec![s(10.0)],
        vec![String::from("stock")],
    ));
    let mut model = ModelBuilder::new()
        .with_time_axis(test_axis())
        .with_component(Accumulator)
        .with_initial_values(initial)
        .build()
        .unwrap();
    model.run();
    let stock = model.collection.get_timeseries_by_name("stock").unwrap();
    // index 0 seeded with 10, each of the 4 interior writes adds one
    assert_eq!(stock.values[0], s(10.0));
    assert_eq!(stock.values[4], s(14.0));
}

#[test]
fn exogenous_collection_replaces_by_name() {
    let reader = Pipe { input: "source", output: "copied" };

    let first = Timeseries::from_values(
        scalars(&[1.0, 1.0, 1.0, 1.0, 1.0]),
        scalars(&[2020.0, 2021.0, 2022.0, 2023.0, 2024.0]),
    )
    .unwrap();
    let mut replacement = Timeseries::from_values(
        scalars(&[7.0, 7.0, 7.0, 7.0, 7.0]),
        scalars(&[2020.0, 2021.0, 2022.0, 2023.0, 2024.0]),
    )
    .unwrap();
    replacement.with_interpolation_strategy(InterpolationStrategy::from(Interp1DNext::new(true)));

    let mut supplied = TimeseriesCollection::new();
    supplied
        .add_timeseries(String::from("source"), replacement, VariableType::Exogenous)
        .unwrap();

    // the collection registered later replaces the earlier variable
    let mut model = ModelBuilder::new()
        .with_time_axis(test_axis())
        .with_component(reader)
        .with_exogenous_variable("source", first)
        .with_exogenous_collection(supplied)
        .build()
        .unwrap();
    model.step();
    let copied = model.collection.get_timeseries_by_name("copied").unwrap();
    assert_eq!(copied.values[1], s(7.0));
}
