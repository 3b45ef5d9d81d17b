use rscm::interpolate::{
    Interp1DNext, Interp1DPrevious, Interp1DStrategy, Interp1d, Interp1dLinearSpline,
    InterpolationStrategy,
};
use rscm::errors::{ExtrapolationSide, RSCMError};
use rscm::scalar::Scalar;

fn s(x: f64) -> Scalar {
    Scalar::from_raw((x * 1_000_000.0).round() as i64).unwrap()
}

fn scalars(xs: &[f64]) -> Vec<Scalar> {
    xs.iter().map(|&x| s(x)).collect()
}

#[test]
fn test_linear() {
    let time = scalars(&[0.0, 0.5, 1.0, 1.5]);
    let y = scalars(&[5.0, 8.0, 9.0]);

    let target = vec![0.0, 0.25, 0.5, 0.75, 1.0];
    let exps = vec![5.0, 6.5, 8.0, 8.5, 9.0];

    let interpolator = Interp1dLinearSpline::new(false);

    for (t, e) in target.into_iter().zip(exps.into_iter()) {
        println!("target={}, expected={}", t, e);
        assert_eq!(interpolator.interpolate(&time, &y, s(t)).unwrap(), s(e));
    }
}

#[test]
fn test_linear_extrapolation_error() {
    let time = scalars(&[0.0, 1.0]);
    let y = scalars(&[5.0]);

    let target = vec![-1.0, -0.01, 1.01, 1.2];

    let interpolator = Interp1dLinearSpline::new(false);

    for t in target.into_iter() {
        println!("target={t}");
        let res = interpolator.interpolate(&time, &y, s(t));
        assert!(res.is_err());

        let err = res.err().unwrap();
        assert!(err.to_string().starts_with("Extrapolation is not allowed"));
    }
}

#[test]
fn test_linear_extrapolation() {
    let time = scalars(&[0.0, 0.5, 1.0, 1.5]);
    let y = scalars(&[5.0, 8.0, 9.0]);

    let target = vec![-0.5, -0.25, 0.45, 1.5, 2.0];
    let exps = vec![2.0, 3.5, 7.7, 10.0, 11.0];

    let interpolator = Interp1dLinearSpline::new(true);

    for (t, e) in target.into_iter().zip(exps.into_iter()) {
        println!("target={}, expected={}", t, e);
        assert_eq!(interpolator.interpolate(&time, &y, s(t)).unwrap(), s(e));
    }
}

#[test]
fn test_next() {
    let time = scalars(&[0.0, 0.5, 1.0, 1.5]);
    let y = scalars(&[5.0, 8.0, 9.0]);

    let target = vec![0.0, 0.25, 0.5, 0.75, 1.0];
    let exps = vec![5.0, 8.0, 8.0, 9.0, 9.0];

    let interpolator = Interp1DNext::new(false);

    for (t, e) in target.into_iter().zip(exps.into_iter()) {
        println!("target={}, expected={}", t, e);
        assert_eq!(interpolator.interpolate(&time, &y, s(t)).unwrap(), s(e));
    }
}

#[test]
fn test_next_extrapolation_error() {
    let time = scalars(&[0.0, 1.0]);
    let y = scalars(&[5.0]);

    let target = vec![-1.0, -0.01, 1.01, 1.2];

    let interpolator = Interp1DNext::new(false);

    for t in target.into_iter() {
        println!("target={t}");
        let res = interpolator.interpolate(&time, &y, s(t));
        assert!(res.is_err());

        let err = res.err().unwrap();
        assert!(err.to_string().starts_with("Extrapolation is not allowed"));
    }
}

#[test]
fn test_next_extrapolation() {
    let time = scalars(&[0.0, 0.5, 1.0, 1.5]);
    let y = scalars(&[5.0, 8.0, 9.0]);

    let target = vec![-1.0, 0.0, 0.25, 0.5, 0.75, 1.0, 1.2];
    let exps = vec![5.0, 5.0, 8.0, 8.0, 9.0, 9.0, 9.0];

    let interpolator = Interp1DNext::new(true);

    for (t, e) in target.into_iter().zip(exps.into_iter()) {
        let value = interpolator.interpolate(&time, &y, s(t)).unwrap();
        println!("target={}, expected={} found={:?}", t, e, value);
        assert_eq!(value, s(e));
    }
}

#[test]
fn test_previous() {
    let time = scalars(&[0.0, 0.5, 1.0, 1.5]);
    let y = scalars(&[5.0, 8.0, 9.0]);

    let target = vec![0.0, 0.25, 0.5, 0.75, 1.0];
    let exps = vec![5.0, 5.0, 8.0, 8.0, 9.0];

    let interpolator = Interp1DPrevious::new(false);

    for (t, e) in target.into_iter().zip(exps.into_iter()) {
        println!("target={}, expected={}", t, e);
        assert_eq!(interpolator.interpolate(&time, &y, s(t)).unwrap(), s(e));
    }
}

#[test]
fn test_previous_extrapolation_error() {
    let time = scalars(&[0.0, 1.0]);
    let y = scalars(&[5.0]);

    let target = vec![-1.0, -0.01, 1.01, 1.2];

    let interpolator = Interp1DPrevious::new(false);

    for t in target.into_iter() {
        println!("target={t}");
        let res = interpolator.interpolate(&time, &y, s(t));
        assert!(res.is_err());

        let err = res.err().unwrap();
        assert!(err.to_string().starts_with("Extrapolation is not allowed"));
    }
}

#[test]
fn test_previous_extrapolation() {
    let time = scalars(&[0.0, 0.5, 1.0, 1.5]);
    let y = scalars(&[5.0, 8.0, 9.0]);

    let target = vec![-1.0, 0.0, 0.25, 0.5, 0.75, 1.0, 1.2];
    let exps = vec![5.0, 5.0, 5.0, 8.0, 8.0, 9.0, 9.0];

    let interpolator = Interp1DPrevious::new(true);

    for (t, e) in target.into_iter().zip(exps.into_iter()) {
        let value = interpolator.interpolate(&time, &y, s(t)).unwrap();
        println!("target={}, expected={} found={:?}", t, e, value);
        assert_eq!(value, s(e));
    }
}

#[test]
fn interpolate() {
    let data = scalars(&[1.0, 1.5, 2.0]);
    let bounds = scalars(&[2020.0, 2021.0, 2022.0, 2023.0]);
    let query = 2024.0;
    let expected = 3.0;

    let interpolator = Interp1d::new(
        bounds,
        data,
        InterpolationStrategy::from(Interp1dLinearSpline::new(true)),
    );
    let result = interpolator.interpolate(s(query)).unwrap();

    assert_eq!(result, s(expected));
}

#[test]
fn strategy_at_each_boundary() {
    let time = scalars(&[0.0, 0.5, 1.0, 1.5]);
    let y = scalars(&[5.0, 8.0, 9.0]);
    let strategies = vec![
        InterpolationStrategy::from(Interp1dLinearSpline::new(false)),
        InterpolationStrategy::from(Interp1DNext::new(false)),
        InterpolationStrategy::from(Interp1DPrevious::new(false)),
    ];
    for strategy in strategies.into_iter() {
        for i in 0..y.len() {
            assert_eq!(strategy.interpolate(&time, &y, time[i]).unwrap(), y[i]);
        }
    }
}

#[test]
fn extrapolation_error_carries_side_and_bound() {
    let time = scalars(&[0.0, 1.0]);
    let y = scalars(&[5.0]);
    let interpolator = Interp1dLinearSpline::new(false);

    match interpolator.interpolate(&time, &y, s(-1.0)) {
        Err(RSCMError::ExtrapolationNotAllowed { target, side, bound }) => {
            assert_eq!(target, s(-1.0));
            assert_eq!(side, ExtrapolationSide::Start);
            assert_eq!(bound, s(0.0));
        }
        other => panic!("expected an extrapolation error, got {:?}", other),
    }
    match interpolator.interpolate(&time, &y, s(1.5)) {
        Err(RSCMError::ExtrapolationNotAllowed { target, side, bound }) => {
            assert_eq!(target, s(1.5));
            assert_eq!(side, ExtrapolationSide::End);
            assert_eq!(bound, s(1.0));
        }
        other => panic!("expected an extrapolation error, got {:?}", other),
    }
}
