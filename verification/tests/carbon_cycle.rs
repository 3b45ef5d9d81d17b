use rscm::component::{input_names, Component, InputState, RequirementDefinition, RequirementType, State};
use rscm::errors::RSCMResult;
use rscm::ivp::{IVPSolver, IVP};
use rscm::interpolate::{Interp1DNext, Interp1DPrevious, InterpolationStrategy};
use rscm::model::ModelBuilder;
use rscm::scalar::Scalar;
use rscm::timeseries::{TimeAxis, Timeseries};
use rscm::timeseries_collection::TimeseriesCollection;

const GTC_PER_PPM: f64 = 2.13;

fn s(x: f64) -> Scalar {
    Scalar::from_raw((x * 1_000_000.0).round() as i64).unwrap()
}

fn f(x: Scalar) -> f64 {
    x.raw as f64 / 1_000_000.0
}

fn scalars(xs: &[f64]) -> Vec<Scalar> {
    xs.iter().map(|&x| s(x)).collect()
}

fn year_range(from: i64, to: i64) -> Vec<Scalar> {
    (from..to).map(|y| Scalar::from_int(y).unwrap()).collect()
}

/// One-box carbon cycle; the physics runs in floating point while the
/// framework sees fixed-point state.
#[derive(Debug, Clone)]
struct CarbonCycleComponent {
    tau: f64,
    conc_pi: f64,
    alpha_temperature: f64,
}

impl IVP for CarbonCycleComponent {
    fn calculate_dy_dt(
        &self,
        _t: Scalar,
        input_state: &InputState,
        y: &Vec<Scalar>,
        dy_dt: &mut Vec<Scalar>,
    ) {
        let emissions = f(input_state.get("Emissions|CO2|Anthropogenic"));
        let temperature = f(input_state.get("Surface Temperature"));
        let conc = f(y[0]);

        // dC / dt = E - (C - C_0) / (tau * exp(alpha_temperature * temperature))
        let lifetime = self.tau * (self.alpha_temperature * temperature).exp();
        let uptake = (conc - self.conc_pi) / lifetime;

        dy_dt[0] = s(emissions / GTC_PER_PPM - uptake);
        dy_dt[1] = s(uptake * GTC_PER_PPM);
        dy_dt[2] = s(emissions);
    }
}

impl Component for CarbonCycleComponent {
    fn definitions(&self) -> Vec<RequirementDefinition> {
        vec![
            RequirementDefinition::new(
                "Emissions|CO2|Anthropogenic",
                "GtC / yr",
                RequirementType::Input,
            ),
            RequirementDefinition::new("Surface Temperature", "K", RequirementType::Input),
            RequirementDefinition::new(
                "Atmospheric Concentration|CO2",
                "ppm",
                RequirementType::InputAndOutput,
            ),
            RequirementDefinition::new("Cumulative Land Uptake", "GtC", RequirementType::InputAndOutput),
            RequirementDefinition::new(
                "Cumulative Emissions|CO2",
                "GtC",
                RequirementType::InputAndOutput,
            ),
        ]
    }

    fn extract_state(
        &self,
        collection: &TimeseriesCollection,
        t_current: Scalar,
    ) -> RSCMResult<InputState> {
        let defs = self.definitions();
        rscm::component::extract_state_default(&input_names(&defs), collection, t_current)
    }

    fn solve(
        &self,
        t_current: Scalar,
        t_next: Scalar,
        input_state: &InputState,
    ) -> RSCMResult<InputState> {
        let y0 = vec![
            input_state.get("Atmospheric Concentration|CO2"),
            input_state.get("Cumulative Land Uptake"),
            input_state.get("Cumulative Emissions|CO2"),
        ];
        let solver = IVPSolver::new(self, input_state.clone());
        let trajectory = solver.integrate(t_current, t_next, s(0.1), y0);
        let last = trajectory.last().unwrap();
        Ok(InputState::from_vectors(
            vec![last.1[0], last.1[1], last.1[2]],
            vec![
                String::from("Atmospheric Concentration|CO2"),
                String::from("Cumulative Land Uptake"),
                String::from("Cumulative Emissions|CO2"),
            ],
        ))
    }

    fn label(&self) -> String {
        String::from("CarbonCycleComponent")
    }
}

/// CO2 effective radiative forcing from concentrations.
#[derive(Debug, Clone)]
struct CO2ERF {
    erf_2xco2: f64,
    conc_pi: f64,
}

impl Component for CO2ERF {
    fn definitions(&self) -> Vec<RequirementDefinition> {
        vec![
            RequirementDefinition::new(
                "Atmospheric Concentration|CO2",
                "ppm",
                RequirementType::Input,
            ),
            RequirementDefinition::new(
                "Effective Radiative Forcing|CO2",
                "W / m^2",
                RequirementType::Output,
            ),
        ]
    }

    fn extract_state(
        &self,
        collection: &TimeseriesCollection,
        t_current: Scalar,
    ) -> RSCMResult<InputState> {
        let defs = self.definitions();
        rscm::component::extract_state_default(&input_names(&defs), collection, t_current)
    }

    fn solve(
        &self,
        _t_current: Scalar,
        _t_next: Scalar,
        input_state: &InputState,
    ) -> RSCMResult<InputState> {
        let conc = f(input_state.get("Atmospheric Concentration|CO2"));
        let erf = self.erf_2xco2 / 2.0f64.log10()
            * (1.0 + (conc - self.conc_pi) / self.conc_pi).log10();
        Ok(InputState::from_vectors(
            vec![s(erf)],
            vec![String::from("Effective Radiative Forcing|CO2")],
        ))
    }

    fn label(&self) -> String {
        String::from("CO2ERF")
    }
}

/// Either model component, so one model can hold both kinds.
#[derive(Debug, Clone)]
enum CoupledComponent {
    CarbonCycle(CarbonCycleComponent),
    Erf(CO2ERF),
}

impl Component for CoupledComponent {
    fn definitions(&self) -> Vec<RequirementDefinition> {
        match self {
            CoupledComponent::CarbonCycle(c) => c.definitions(),
            CoupledComponent::Erf(c) => c.definitions(),
        }
    }

    fn extract_state(
        &self,
        collection: &TimeseriesCollection,
        t_current: Scalar,
    ) -> RSCMResult<InputState> {
        match self {
            CoupledComponent::CarbonCycle(c) => c.extract_state(collection, t_current),
            CoupledComponent::Erf(c) => c.extract_state(collection, t_current),
        }
    }

    fn solve(
        &self,
        t_current: Scalar,
        t_next: Scalar,
        input_state: &InputState,
    ) -> RSCMResult<InputState> {
        match self {
            CoupledComponent::CarbonCycle(c) => c.solve(t_current, t_next, input_state),
            CoupledComponent::Erf(c) => c.solve(t_current, t_next, input_state),
        }
    }

    fn label(&self) -> String {
        match self {
            CoupledComponent::CarbonCycle(c) => c.label(),
            CoupledComponent::Erf(c) => c.label(),
        }
    }
}

fn emissions_series(t_initial: f64, step_year: f64, step_size: f64) -> Timeseries {
    Timeseries::new(
        scalars(&[0.0, 0.0, step_size, step_size]),
        TimeAxis::from_bounds(scalars(&[
            t_initial,
            (t_initial + step_year) / 2.0,
            step_year,
            step_year + 50.0,
            2100.0,
        ]))
        .unwrap(),
        String::from("GtC / yr"),
        InterpolationStrategy::from(Interp1DPrevious::new(true)),
    )
}

#[test]
fn test_carbon_cycle() {
    let tau = 20.3;
    let conc_pi = 280.0;
    let conc_initial = 280.0;
    let t_initial = 1750.0;
    let step_year = 1850.0;
    // Any temperature works while the temperature feedback is zero.
    let temperature_value = 1.0;
    let step_size = 1.0 / 120.0;

    // No temperature feedback so the closed form below holds.
    let alpha_temperature = 0.0;

    let time_axis = TimeAxis::from_values(year_range(1750, 2100)).unwrap();

    let emissions = emissions_series(t_initial, step_year, step_size);
    let temperature = Timeseries::new(
        scalars(&[temperature_value]),
        TimeAxis::from_bounds(scalars(&[t_initial, 2100.0])).unwrap(),
        String::from("K"),
        InterpolationStrategy::from(Interp1DNext::new(true)),
    );

    let mut model = ModelBuilder::new()
        .with_component(CarbonCycleComponent { tau, conc_pi, alpha_temperature })
        .with_initial_values(InputState::from_vectors(
            vec![s(0.0), s(0.0), s(conc_initial)],
            vec![
                String::from("Cumulative Land Uptake"),
                String::from("Cumulative Emissions|CO2"),
                String::from("Atmospheric Concentration|CO2"),
            ],
        ))
        .with_time_axis(time_axis)
        .with_exogenous_variable("Emissions|CO2|Anthropogenic", emissions)
        .with_exogenous_variable("Surface Temperature", temperature)
        .build()
        .unwrap();

    model.run();

    // Closed-form reference: before the emissions step the concentration
    // stays at the pre-industrial level; afterwards the box fills toward
    // its new equilibrium.
    let conc = model
        .collection
        .get_timeseries_by_name("Atmospheric Concentration|CO2")
        .unwrap();
    let emission_level = f(s(step_size));
    let expected_at = |year: f64| -> f64 {
        let base = (conc_initial - conc_pi) * (-(year - t_initial) / tau).exp() + conc_pi;
        if year <= step_year {
            base
        } else {
            base + emission_level / GTC_PER_PPM * tau * (1.0 - (-(year - step_year) / tau).exp())
        }
    };
    for (idx, year) in [(50usize, 1800.0), (250usize, 2000.0), (340usize, 2090.0)] {
        let got = f(conc.values[idx]);
        let want = expected_at(year);
        println!("year={} got={} want={}", year, got, want);
        assert!((got - want).abs() < 0.01, "year {}: {} vs {}", year, got, want);
    }
}

#[test]
fn test_coupled_model() {
    let tau = 20.3;
    let conc_pi = 280.0;
    let t_initial = 1750.0;
    let erf_2xco2 = 4.0;
    let step_year = 1850.0;
    let step_size = 1.0 / 120.0;

    let alpha_temperature = 0.0;

    let time_axis = TimeAxis::from_values(year_range(1750, 2100)).unwrap();
    let emissions = emissions_series(t_initial, step_year, step_size);
    let temperature = Timeseries::new(
        scalars(&[1.0]),
        TimeAxis::from_bounds(scalars(&[t_initial, 2100.0])).unwrap(),
        String::from("K"),
        InterpolationStrategy::from(Interp1DNext::new(true)),
    );

    let mut model = ModelBuilder::new()
        .with_component(CoupledComponent::CarbonCycle(CarbonCycleComponent {
            tau,
            conc_pi,
            alpha_temperature,
        }))
        .with_component(CoupledComponent::Erf(CO2ERF { erf_2xco2, conc_pi }))
        .with_initial_values(InputState::from_vectors(
            vec![s(0.0), s(0.0), s(conc_pi)],
            vec![
                String::from("Cumulative Land Uptake"),
                String::from("Cumulative Emissions|CO2"),
                String::from("Atmospheric Concentration|CO2"),
            ],
        ))
        .with_time_axis(time_axis)
        .with_exogenous_variable("Emissions|CO2|Anthropogenic", emissions)
        .with_exogenous_variable("Surface Temperature", temperature)
        .build()
        .unwrap();

    println!("{}", model.as_dot());

    model.run();
    assert_eq!(model.time_index, 350);
    let erf = model
        .collection
        .get_timeseries_by_name("Effective Radiative Forcing|CO2")
        .unwrap();
    assert!(erf.latest() >= 0);
}
