use rscm::component::{Component, InputState, State};
use rscm::errors::RSCMError;
use rscm::example_components::{TestComponent, TestComponentParameters};
use rscm::scalar::Scalar;
use rscm::timeseries_collection::TimeseriesCollection;

fn s(x: f64) -> Scalar {
    Scalar::from_raw((x * 1_000_000.0).round() as i64).unwrap()
}

#[test]
fn solve() {
    let component = TestComponent::from_parameters(TestComponentParameters { p: s(2.0) });

    let input_state = component
        .extract_state(&TimeseriesCollection::new(), s(2020.0))
        .unwrap();
    let output_state = component.solve(s(2020.0), s(2021.0), &input_state).unwrap();

    assert_eq!(output_state.get("Concentrations|CO2"), s(2.0 * 1.3));
}

#[test]
fn solve_without_input_fails() {
    let component = TestComponent::from_parameters(TestComponentParameters { p: s(2.0) });
    let result = component.solve(s(2020.0), s(2021.0), &InputState::empty());
    assert!(matches!(result, Err(RSCMError::ComponentSolveFailed { .. })));
}

#[test]
fn input_state_merge_overrides_and_appends() {
    let mut state = InputState::from_vectors(
        vec![s(1.0), s(2.0)],
        vec![String::from("a"), String::from("b")],
    );
    state.merge(InputState::from_vectors(
        vec![s(9.0), s(3.0)],
        vec![String::from("a"), String::from("c")],
    ));
    assert_eq!(state.get("a"), s(9.0));
    assert_eq!(state.get("b"), s(2.0));
    assert_eq!(state.get("c"), s(3.0));
    assert!(state.has("c"));
    assert!(!state.has("d"));
    assert_eq!(state.iter().len(), 3);
}

#[test]
fn scalar_arithmetic_is_exact_on_decimals() {
    assert_eq!(s(1.5).plus(s(2.25)), s(3.75));
    assert_eq!(s(1.5).minus(s(2.0)), s(-0.5));
    assert_eq!(s(1.3).times(s(2.0)), s(2.6));
    assert_eq!(s(1.0).div_by(s(8.0)), s(0.125));
    assert_eq!(s(-7.5).div_by(s(2.5)), s(-3.0));
    assert!(s(1.0).div_by(Scalar::zero()).is_missing());
    assert!(Scalar::missing().plus(s(1.0)).is_missing());
    assert!(s(1.0).lt(&s(2.0)));
    assert!(s(2.0).le(&s(2.0)));
    assert_eq!(Scalar::from_int(2020).unwrap(), s(2020.0));
    assert!(Scalar::from_raw(i64::MAX).is_none());
}

#[test]
fn scalar_renders_as_decimal_text() {
    assert_eq!(s(0.5).to_decimal_string(), "0.5");
    assert_eq!(s(2.0).to_decimal_string(), "2.0");
    assert_eq!(s(-2.25).to_decimal_string(), "-2.25");
    assert_eq!(s(1987.125).to_decimal_string(), "1987.125");
    assert_eq!(Scalar::missing().to_decimal_string(), "missing");
}

#[test]
fn saturating_arithmetic_clamps_at_the_limit() {
    let limit = Scalar::from_raw(rscm::scalar::RAW_LIMIT).unwrap();
    let one = s(1.0);
    assert_eq!(limit.plus(one), limit);
    let negative_limit = Scalar::from_raw(-rscm::scalar::RAW_LIMIT).unwrap();
    assert_eq!(negative_limit.minus(one), negative_limit);
}
