use strike::att::calculate_att;
use strike::distance::{find_nn, nn_match, score_distance};
use strike::pipeline::{assign_ids, n_treat_control, treat_control_split, Observation};
use strike::unit::{EstimationError, Fraction, Unit};
use strike::variance::{
    calculate_variance, count_occurrences, distinct_units, square_diff,
    subsample_conditional_variance, subsample_count_matches, weighted_square_sum,
};

fn unit(id: u64, treated: bool, propensity: u64, outcome: i64) -> Unit {
    Unit { id, treated, outcome, propensity }
}

fn obs(treated: bool, propensity: u64, outcome: i64) -> Observation {
    Observation { treated, outcome, propensity }
}

#[test]
fn nearest_neighbour_and_att_of_single_pair() {
    let treated = vec![unit(1, true, 50, 10)];
    let mut control = vec![unit(2, false, 40, 4), unit(3, false, 52, 6)];
    let matched = nn_match(&treated, &mut control).unwrap();
    assert_eq!(matched.len(), 1);
    assert_eq!(matched[0].id, 3);
    let att = calculate_att(&treated, &matched).unwrap();
    assert_eq!(att, Fraction { numerator: 4, denominator: 1 });
}

#[test]
fn tie_goes_to_earlier_candidate() {
    let control = vec![unit(7, false, 40, 1), unit(8, false, 60, 2), unit(9, false, 40, 3)];
    for _ in 0..3 {
        assert_eq!(find_nn(&control, 50, 1), Ok(0));
    }
    let later_first = vec![unit(8, false, 60, 2), unit(7, false, 40, 1)];
    assert_eq!(find_nn(&later_first, 50, 1), Ok(0));
}

#[test]
fn self_match_is_excluded_by_id_not_value() {
    let pool = vec![unit(1, true, 50, 1), unit(2, true, 50, 2), unit(3, true, 70, 3)];
    assert_eq!(find_nn(&pool, 50, 1), Ok(1));
    assert_eq!(find_nn(&pool, 50, 2), Ok(0));
    assert_eq!(find_nn(&pool, 70, 3), Ok(0));
}

#[test]
fn match_keeps_order_length_and_pool() {
    let treated = vec![unit(1, true, 90, 0), unit(2, true, 10, 0), unit(3, true, 52, 0)];
    let mut control = vec![unit(4, false, 12, 0), unit(5, false, 88, 0), unit(6, false, 50, 0)];
    let before = control.clone();
    let matched = nn_match(&treated, &mut control).unwrap();
    assert_eq!(control, before);
    let ids: Vec<u64> = matched.iter().map(|u| u.id).collect();
    assert_eq!(ids, vec![5, 4, 6]);
}

#[test]
fn reused_control_matches_every_treated_unit() {
    let treated = vec![unit(1, true, 50, 10), unit(2, true, 55, 20)];
    let mut control = vec![unit(3, false, 52, 5)];
    let matched = nn_match(&treated, &mut control).unwrap();
    assert_eq!(matched, vec![unit(3, false, 52, 5), unit(3, false, 52, 5)]);
    let counts = subsample_count_matches(&matched);
    assert_eq!(counts.len(), 1);
    assert_eq!(counts[0].unit.id, 3);
    assert_eq!(counts[0].count, 2);
}

#[test]
fn empty_candidate_pool_fails() {
    let treated = vec![unit(1, true, 50, 10)];
    let mut control: Vec<Unit> = Vec::new();
    assert_eq!(
        nn_match(&treated, &mut control),
        Err(EstimationError::EmptyCandidatePool { query_id: 1 })
    );
    let mut only_self = vec![unit(1, true, 50, 10)];
    assert_eq!(
        nn_match(&treated, &mut only_self),
        Err(EstimationError::EmptyCandidatePool { query_id: 1 })
    );
}

#[test]
fn att_is_zero_when_outcomes_agree() {
    let treated = vec![unit(1, true, 50, 7), unit(2, true, 60, -3)];
    let matched = vec![unit(3, false, 51, 7), unit(4, false, 59, -3)];
    assert_eq!(calculate_att(&treated, &matched), Ok(Fraction { numerator: 0, denominator: 2 }));
}

#[test]
fn att_of_empty_cohort_is_undefined() {
    let none: Vec<Unit> = Vec::new();
    assert_eq!(calculate_att(&none, &none), Err(EstimationError::UndefinedMean));
    assert_eq!(calculate_variance(&none, &none), Err(EstimationError::UndefinedMean));
}

#[test]
fn single_unit_self_match_is_degenerate() {
    let one = vec![unit(1, true, 50, 10)];
    assert_eq!(
        subsample_conditional_variance(&one),
        Err(EstimationError::DegenerateSelfMatch { cohort_size: 1 })
    );
    let treated = vec![unit(1, true, 50, 10)];
    let matched = vec![unit(2, false, 50, 4)];
    assert_eq!(
        calculate_variance(&treated, &matched),
        Err(EstimationError::DegenerateSelfMatch { cohort_size: 1 })
    );
}

#[test]
fn single_distinct_matched_control_is_degenerate() {
    let treated = vec![unit(1, true, 50, 10), unit(2, true, 55, 20)];
    let matched = vec![unit(3, false, 52, 5), unit(3, false, 52, 5)];
    assert_eq!(
        calculate_variance(&treated, &matched),
        Err(EstimationError::DegenerateSelfMatch { cohort_size: 1 })
    );
}

#[test]
fn variance_of_two_pairs() {
    let treated = vec![unit(1, true, 50, 10), unit(3, true, 60, 14)];
    let mut control = vec![unit(2, false, 52, 6), unit(4, false, 58, 9), unit(5, false, 10, 0)];
    let matched = nn_match(&treated, &mut control).unwrap();
    assert_eq!(matched, vec![unit(2, false, 52, 6), unit(4, false, 58, 9)]);
    assert_eq!(calculate_att(&treated, &matched), Ok(Fraction { numerator: 9, denominator: 2 }));
    assert_eq!(
        calculate_variance(&treated, &matched),
        Ok(Fraction { numerator: 50, denominator: 8 })
    );
}

#[test]
fn variance_weights_reused_control_by_square_of_count() {
    let treated = vec![unit(1, true, 50, 10), unit(2, true, 52, 20), unit(3, true, 90, 30)];
    let mut control = vec![unit(4, false, 51, 5), unit(5, false, 88, 9)];
    let matched = nn_match(&treated, &mut control).unwrap();
    let ids: Vec<u64> = matched.iter().map(|u| u.id).collect();
    assert_eq!(ids, vec![4, 4, 5]);
    assert_eq!(calculate_att(&treated, &matched), Ok(Fraction { numerator: 41, denominator: 3 }));
    assert_eq!(
        calculate_variance(&treated, &matched),
        Ok(Fraction { numerator: 380, denominator: 18 })
    );
}

#[test]
fn variance_is_zero_with_identical_outcome_partners() {
    let treated = vec![unit(1, true, 50, 10), unit(2, true, 51, 10)];
    let matched = vec![unit(3, false, 50, 4), unit(4, false, 51, 4)];
    assert_eq!(
        calculate_variance(&treated, &matched),
        Ok(Fraction { numerator: 0, denominator: 8 })
    );
}

#[test]
fn variance_overflow_is_reported() {
    let treated = vec![unit(1, true, 50, i64::MAX), unit(2, true, 51, i64::MIN)];
    let matched = vec![unit(3, false, 50, 0), unit(4, false, 51, 1)];
    assert_eq!(calculate_variance(&treated, &matched), Err(EstimationError::ArithmeticOverflow));
}

#[test]
fn conditional_variance_rows() {
    let data = vec![unit(4, false, 51, 5), unit(4, false, 51, 5), unit(5, false, 88, 9)];
    let rows = subsample_conditional_variance(&data).unwrap();
    assert_eq!(rows.len(), 2);
    assert_eq!((rows[0].unit.id, rows[0].count, rows[0].doubled_variance), (4, 2, 16));
    assert_eq!((rows[1].unit.id, rows[1].count, rows[1].doubled_variance), (5, 1, 16));
    assert_eq!(weighted_square_sum(&rows), Some(80));
}

#[test]
fn helpers_compute_exact_values() {
    assert_eq!(score_distance(3, 10), 7);
    assert_eq!(score_distance(10, 3), 7);
    assert_eq!(square_diff(-3, 4), 49);
    assert_eq!(square_diff(i64::MIN, i64::MAX), (u64::MAX as u128) * (u64::MAX as u128));
    let data = vec![unit(2, false, 1, 1), unit(1, false, 1, 1), unit(2, false, 1, 1)];
    assert_eq!(count_occurrences(&data, 2), 2);
    assert_eq!(count_occurrences(&data, 9), 0);
    let ids: Vec<u64> = distinct_units(&data).iter().map(|u| u.id).collect();
    assert_eq!(ids, vec![2, 1]);
}

#[test]
fn ids_then_split_keep_every_unit_once() {
    let input = vec![obs(true, 50, 10), obs(false, 52, 6), obs(true, 60, 14), obs(false, 58, 9)];
    let units = assign_ids(&input);
    let ids: Vec<u64> = units.iter().map(|u| u.id).collect();
    assert_eq!(ids, vec![1, 2, 3, 4]);
    let (treat, control) = treat_control_split(&units);
    assert_eq!(treat.len() + control.len(), input.len());
    let mut all: Vec<u64> = treat.iter().chain(control.iter()).map(|u| u.id).collect();
    all.sort();
    assert_eq!(all, vec![1, 2, 3, 4]);
    assert!(treat.iter().all(|u| u.treated));
    assert!(control.iter().all(|u| !u.treated));
}

#[test]
fn distinct_control_count() {
    let treat = vec![unit(1, true, 50, 10), unit(2, true, 52, 20), unit(3, true, 90, 30)];
    let matched = vec![unit(4, false, 51, 5), unit(4, false, 51, 5), unit(5, false, 88, 9)];
    assert_eq!(n_treat_control(&treat, &matched), (3, 2));
}

#[test]
fn whole_run() {
    let input = vec![
        obs(true, 50, 10),
        obs(false, 52, 6),
        obs(true, 60, 14),
        obs(false, 58, 9),
        obs(false, 10, 0),
    ];
    let result = strike::pipeline::matches(&input).unwrap();
    assert_eq!(result.att, Fraction { numerator: 9, denominator: 2 });
    assert_eq!(result.att_variance, Fraction { numerator: 50, denominator: 8 });
    assert_eq!(result.n_treated, 2);
    assert_eq!(result.n_control_distinct, 2);
}

#[test]
fn whole_run_without_controls_fails() {
    let input = vec![obs(true, 50, 10), obs(true, 60, 14)];
    assert_eq!(strike::pipeline::matches(&input), Err(EstimationError::EmptyCandidatePool { query_id: 1 }));
    let no_treated = vec![obs(false, 50, 10)];
    assert_eq!(strike::pipeline::matches(&no_treated), Err(EstimationError::UndefinedMean));
}
