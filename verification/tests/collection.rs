use rscm::errors::RSCMError;
use rscm::scalar::Scalar;
use rscm::timeseries::Timeseries;
use rscm::timeseries_collection::{TimeseriesCollection, VariableType};

fn s(x: f64) -> Scalar {
    Scalar::from_raw((x * 1_000_000.0).round() as i64).unwrap()
}

fn scalars(xs: &[f64]) -> Vec<Scalar> {
    xs.iter().map(|&x| s(x)).collect()
}

fn sample_timeseries() -> Timeseries {
    Timeseries::from_values(
        scalars(&[1.0, 2.0, 3.0]),
        scalars(&[2020.0, 2021.0, 2022.0]),
    )
    .unwrap()
}

#[test]
fn adding() {
    let mut collection = TimeseriesCollection::new();

    let timeseries = sample_timeseries();
    collection
        .add_timeseries(
            String::from("Surface Temperature"),
            timeseries.duplicate(),
            VariableType::Exogenous,
        )
        .unwrap();
    collection
        .add_timeseries(
            String::from("Emissions|CO2"),
            timeseries.duplicate(),
            VariableType::Endogenous,
        )
        .unwrap();

    assert!(collection.get_by_name("Surface Temperature").is_some());
    assert_eq!(
        collection.get_by_name("Emissions|CO2").unwrap().variable_type,
        VariableType::Endogenous
    );
    assert!(collection.get_timeseries_by_name("missing name").is_none());
    assert_eq!(collection.iter().len(), 2);
}

#[test]
fn adding_same_name() {
    let mut collection = TimeseriesCollection::new();

    let timeseries = sample_timeseries();
    collection
        .add_timeseries(
            String::from("test"),
            timeseries.duplicate(),
            VariableType::Exogenous,
        )
        .unwrap();
    let second = collection.add_timeseries(
        String::from("test"),
        timeseries.duplicate(),
        VariableType::Endogenous,
    );
    assert!(matches!(
        second,
        Err(RSCMError::DuplicateTimeseries { .. })
    ));
}

#[test]
fn writing_through_mutable_lookup() {
    let mut collection = TimeseriesCollection::new();
    collection
        .add_timeseries(
            String::from("test"),
            sample_timeseries(),
            VariableType::Endogenous,
        )
        .unwrap();

    let ts = collection.get_timeseries_by_name_mut("test").unwrap();
    ts.set(1, s(9.5));
    assert_eq!(
        collection.get_timeseries_by_name("test").unwrap().values[1],
        s(9.5)
    );
    assert!(collection.get_timeseries_by_name_mut("other").is_none());
}
