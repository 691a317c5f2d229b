use irt_estimator::dims::check_dimensions;
use irt_estimator::dims::EstimateError;
use irt_estimator::runs::estimate_each;
use irt_estimator::runs::search_with;
use irt_estimator::search::Bisection;
use irt_estimator::search::SCALE;

const SCALE_F: f64 = 2097152.0;
const EPSILON: f64 = 1e-6;

/// One bounded bisection search per response vector: the verified search
/// picks the midpoints, this harness evaluates the log-likelihood
/// gradient there in floating point and reports back which way to move.
fn estimator(inflexion_velocity: &[f64], rarity: &[f64], result: &[Vec<f64>], d: f64) -> Vec<f64> {
    let scaled = estimate_each(result.len(), |s: usize, mid_scaled: i64| {
        let result_i = &result[s];
        let mid = mid_scaled as f64 / SCALE_F;
        let mut cost = 0.0;
        for j in 0..inflexion_velocity.len() {
            let logistic = 1.0 / (1.0 + (-d * inflexion_velocity[j] * (mid - rarity[j])).exp());
            cost += d * inflexion_velocity[j] * (result_i[j] - logistic);
        }
        cost < EPSILON
    });
    scaled.into_iter().map(|theta| theta as f64 / SCALE_F).collect()
}

#[test]
fn test_estimator() {
    let inflexion_velocity = [0.8, 0.8, 0.8];
    let rarity = [-0.5, 1.0, 0.0];
    let result = vec![
        vec![1.0, 1.0, 1.0],
        vec![1.0, 0.0, 1.0],
        vec![1.0, 0.0, 0.0],
    ];
    let d = 1.701;

    let estimated_params = estimator(&inflexion_velocity, &rarity, &result, d);

    assert_eq!(estimated_params.len(), result.len());
    for &param in &estimated_params {
        assert!(param.is_finite());
    }
    println!("estimated_params: {:?}", estimated_params);
    // => estimated_params: [0.9999995231628418, 0.754509449005127, -0.43817949295043945]
}

#[test]
fn test_reference_scenario_values() {
    let inflexion_velocity = [0.8, 0.8, 0.8];
    let rarity = [-0.5, 1.0, 0.0];
    let result = vec![
        vec![1.0, 1.0, 1.0],
        vec![1.0, 0.0, 1.0],
        vec![1.0, 0.0, 0.0],
    ];
    let d = 1.701;

    let estimated = estimator(&inflexion_velocity, &rarity, &result, d);

    let expected = [0.9999995231628418, 0.754509449005127, -0.43817949295043945];
    assert_eq!(estimated.len(), expected.len());
    for j in 0..expected.len() {
        assert!((estimated[j] - expected[j]).abs() < 1e-4);
        assert!(-1.0 <= estimated[j] && estimated[j] <= 1.0);
    }
}

#[test]
fn test_determinism() {
    let inflexion_velocity = [0.8, 1.3, 0.2];
    let rarity = [-0.5, 0.9, 0.1];
    let result = vec![vec![1.0, 0.0, 0.5], vec![0.0, 0.0, 1.0]];
    let d = 1.702;

    let first = estimator(&inflexion_velocity, &rarity, &result, d);
    let second = estimator(&inflexion_velocity, &rarity, &result, d);

    assert_eq!(first, second);
}

#[test]
fn test_output_cardinality() {
    let inflexion_velocity = [0.7, 1.1];
    let rarity = [0.3, -0.2];
    let d = 1.702;

    let none: Vec<Vec<f64>> = vec![];
    assert_eq!(estimator(&inflexion_velocity, &rarity, &none, d).len(), 0);

    let one = vec![vec![1.0, 0.0]];
    assert_eq!(estimator(&inflexion_velocity, &rarity, &one, d).len(), 1);

    let four = vec![
        vec![1.0, 0.0],
        vec![0.0, 0.0],
        vec![1.0, 1.0],
        vec![0.5, 0.5],
    ];
    assert_eq!(estimator(&inflexion_velocity, &rarity, &four, d).len(), 4);
}

#[test]
fn test_bounds_and_finiteness() {
    let cases: Vec<(Vec<f64>, Vec<f64>, Vec<Vec<f64>>, f64)> = vec![
        (
            vec![0.8, 0.8, 0.8],
            vec![-0.5, 1.0, 0.0],
            vec![vec![1.0, 1.0, 1.0], vec![0.0, 0.0, 0.0], vec![0.5, 0.25, 0.75]],
            1.701,
        ),
        // huge slopes: the exponential saturates, the logistic stays tame
        (
            vec![500.0, -300.0],
            vec![0.0, 0.4],
            vec![vec![1.0, 1.0], vec![0.0, 1.0]],
            1.702,
        ),
        // mixed-sign slopes: the cost need not be monotone in the trait
        (
            vec![1.0, -1.0],
            vec![-0.3, 0.3],
            vec![vec![1.0, 0.0], vec![0.0, 1.0]],
            1.702,
        ),
        // responses far outside [0, 1] are used as they stand
        (
            vec![0.4],
            vec![0.2],
            vec![vec![25.0], vec![-25.0]],
            1.702,
        ),
        // a negative scaling constant flips the model
        (
            vec![0.8, 0.8],
            vec![0.1, -0.1],
            vec![vec![1.0, 0.0]],
            -1.702,
        ),
    ];
    for (velocity, rarity, result, d) in cases {
        let estimated = estimator(&velocity, &rarity, &result, d);
        assert_eq!(estimated.len(), result.len());
        for &theta in &estimated {
            assert!(theta.is_finite());
            assert!(-1.0 <= theta && theta <= 1.0);
        }
    }
}

#[test]
fn test_monotonicity_single_item() {
    let inflexion_velocity = [1.0];
    let rarity = [0.0];
    let d = 1.702;
    let result = vec![vec![0.0], vec![1.0]];

    let estimated = estimator(&inflexion_velocity, &rarity, &result, d);

    assert!(estimated[1] >= estimated[0]);
}

#[test]
fn test_degenerate_all_ones() {
    let inflexion_velocity = [0.8, 0.8, 0.8];
    let rarity = [-0.5, 1.0, 0.0];
    let d = 1.701;
    let result = vec![vec![1.0, 1.0, 1.0]];

    let estimated = estimator(&inflexion_velocity, &rarity, &result, d);

    assert!((1.0 - estimated[0]).abs() < 1e-6);
}

#[test]
fn test_degenerate_all_zeros() {
    let inflexion_velocity = [0.8, 0.8, 0.8];
    let rarity = [-0.5, 1.0, 0.0];
    let d = 1.701;
    let result = vec![vec![0.0, 0.0, 0.0]];

    let estimated = estimator(&inflexion_velocity, &rarity, &result, d);

    assert!((estimated[0] - -1.0).abs() < 1e-6);
}

#[test]
fn test_search_runs_exactly_21_steps() {
    let mut search = Bisection::new();
    let mut steps: u32 = 0;
    while !search.converged() {
        // an arbitrary fixed decision pattern; termination must not
        // depend on it
        search.step(steps % 3 == 0);
        steps += 1;
    }
    assert_eq!(steps, 21);
}

#[test]
fn test_step_keeps_chosen_half() {
    let mut search = Bisection::new();
    assert_eq!(search.low, -SCALE);
    assert_eq!(search.high, SCALE);
    assert_eq!(search.midpoint(), 0);

    search.step(true);
    assert_eq!(search.low, -SCALE);
    assert_eq!(search.high, 0);

    search.step(false);
    assert_eq!(search.low, -SCALE / 2);
    assert_eq!(search.high, 0);
}

#[test]
fn test_estimate_stays_inside_bounds() {
    // drive the search all the way up and all the way down: the estimate
    // stops one fixed-point unit short of the bound in either case
    let mut up = Bisection::new();
    while !up.converged() {
        up.step(false);
    }
    assert_eq!(up.estimate(), SCALE - 1);

    let mut down = Bisection::new();
    while !down.converged() {
        down.step(true);
    }
    assert_eq!(down.estimate(), -SCALE + 1);
}

#[test]
fn test_check_dimensions_accepts_matching_shapes() {
    assert_eq!(check_dimensions(3, 3, &vec![3, 3, 3]), Ok(()));
    assert_eq!(check_dimensions(1, 1, &vec![1]), Ok(()));
    assert_eq!(check_dimensions(2, 2, &vec![]), Ok(()));
}

#[test]
fn test_check_dimensions_rejects_mismatches() {
    let mismatch: Result<(), EstimateError> = Err(EstimateError::DimensionMismatch);
    assert_eq!(check_dimensions(3, 2, &vec![3, 3]), mismatch);
    assert_eq!(check_dimensions(0, 0, &vec![]), mismatch);
    assert_eq!(check_dimensions(3, 3, &vec![3, 2, 3]), mismatch);
}

#[test]
fn test_search_with_constant_decisions() {
    assert_eq!(search_with(|_m: i64| false), SCALE - 1);
    assert_eq!(search_with(|_m: i64| true), -SCALE + 1);
}

#[test]
fn test_well_formed_rejects_bad_states() {
    assert!(Bisection::new().well_formed());
    assert!(!Bisection { low: 0, high: 0 }.well_formed());
    assert!(!Bisection { low: 5, high: 2 }.well_formed());
    assert!(!Bisection { low: 0, high: 3 }.well_formed());
    assert!(!Bisection { low: -SCALE - 2, high: 0 }.well_formed());
    assert!(!Bisection { low: 0, high: SCALE + 2 }.well_formed());
    assert!(Bisection { low: 0, high: 16 }.well_formed());
}
