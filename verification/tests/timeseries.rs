use rscm::interpolate::{Interp1DPrevious, Interp1dLinearSpline, InterpolationStrategy};
use rscm::scalar::Scalar;
use rscm::timeseries::{TimeAxis, Timeseries};

fn s(x: f64) -> Scalar {
    Scalar::from_raw((x * 1_000_000.0).round() as i64).unwrap()
}

fn scalars(xs: &[f64]) -> Vec<Scalar> {
    xs.iter().map(|&x| s(x)).collect()
}

#[test]
fn check_monotonic_values() {
    let built = Timeseries::from_values(
        scalars(&[1.0, 2.0, 3.0]),
        scalars(&[2020.0, 1.0, 2021.0]),
    );
    assert!(built.is_none());
}

#[test]
fn timeseries_get_value() {
    let mut result = Timeseries::from_values(
        scalars(&[1.0, 2.0, 3.0, 4.0, 5.0]),
        scalars(&[2020.0, 2021.0, 2022.0, 2023.0, 2024.0]),
    )
    .unwrap();

    result.with_interpolation_strategy(InterpolationStrategy::from(Interp1dLinearSpline::new(
        false,
    )));
    assert_eq!(result.at_time(s(2020.0)).unwrap(), s(1.0));
    assert_eq!(result.at_time(s(2020.5)).unwrap(), s(1.5));
    assert_eq!(result.at_time(s(2021.0)).unwrap(), s(2.0));

    // Linear extrapolate isn't allowed by default
    assert!(result.at_time(s(2026.0)).is_err());
}

#[test]
fn custom_interpolator() {
    let data = scalars(&[1.0, 1.5, 2.0]);
    let years = scalars(&[2020.0, 2021.0, 2022.0]);
    let query = s(2024.0);

    let mut timeseries = Timeseries::from_values(data, years).unwrap();

    // Default to linear interpolation
    let result = timeseries.at_time(query).unwrap();
    assert_eq!(result, s(3.0));

    // Replace interpolation strategy
    timeseries
        .with_interpolation_strategy(InterpolationStrategy::from(Interp1DPrevious::new(true)));
    let result = timeseries.at_time(query).unwrap();
    assert_eq!(result, s(2.0));
}

#[test]
fn axis_from_values_derives_trailing_bound() {
    let axis = TimeAxis::from_values(scalars(&[1.0, 2.0, 3.0])).unwrap();
    assert_eq!(axis.len(), 3);
    assert_eq!(axis.len_bounds(), 4);
    assert_eq!(axis.at(1).unwrap(), s(2.0));
    assert!(axis.at(27).is_none());
    let (lo, hi) = axis.at_bounds(2).unwrap();
    assert_eq!(lo, s(3.0));
    assert_eq!(hi, s(4.0));
    assert_eq!(axis.first(), s(1.0));
    assert_eq!(axis.last(), s(4.0));
    assert_eq!(axis.values(), scalars(&[1.0, 2.0, 3.0]));
    assert!(axis.contains(s(1.0)));
    assert!(!axis.contains(s(27.0)));
    assert_eq!(axis.get_index(s(2.0)), Some(1));
    assert_eq!(axis.get_index(s(2.5)), None);
}

#[test]
fn axis_rejects_non_monotone_bounds() {
    assert!(TimeAxis::from_bounds(scalars(&[1.0, 1.0, 2.0])).is_none());
    assert!(TimeAxis::from_bounds(scalars(&[3.0, 2.0, 1.0])).is_none());
    assert!(TimeAxis::from_bounds(scalars(&[1.0])).is_none());
    let axis = TimeAxis::from_bounds(scalars(&[1.0, 2.0, 3.0, 4.0])).unwrap();
    assert_eq!(axis.len(), 3);
    for i in 0..axis.len() {
        let (lo, hi) = axis.at_bounds(i).unwrap();
        assert!(lo.raw < hi.raw);
    }
}

#[test]
fn latest_tracks_written_values() {
    let axis = TimeAxis::from_bounds(scalars(&[0.0, 1.0, 2.0, 3.0, 4.0])).unwrap();
    let mut ts = Timeseries::new_empty(
        axis,
        String::from("ppm"),
        InterpolationStrategy::from(Interp1dLinearSpline::new(true)),
    );
    assert_eq!(ts.latest(), -1);
    assert_eq!(ts.latest_value(), None);

    ts.set(0, s(10.0));
    assert_eq!(ts.latest(), 0);
    assert_eq!(ts.latest_value(), Some(s(10.0)));

    ts.set(1, s(11.0));
    assert_eq!(ts.latest(), 1);
    assert_eq!(ts.latest_value(), Some(s(11.0)));

    // writing the missing marker does not advance the newest index
    ts.set(2, Scalar::missing());
    assert_eq!(ts.latest(), 1);

    // a write behind the newest index does not move it back
    ts.set(0, s(12.0));
    assert_eq!(ts.latest(), 1);

    ts.set(3, s(13.0));
    assert_eq!(ts.latest(), 3);
}

#[test]
fn latest_starts_at_missing_free_prefix() {
    let axis = TimeAxis::from_bounds(scalars(&[0.0, 1.0, 2.0, 3.0])).unwrap();
    let values = vec![s(1.0), Scalar::missing(), s(3.0)];
    let ts = Timeseries::new(
        values,
        axis,
        String::from("ppm"),
        InterpolationStrategy::from(Interp1dLinearSpline::new(true)),
    );
    assert_eq!(ts.latest(), 0);
    assert_eq!(ts.latest_value(), Some(s(1.0)));
}
