//! From observations with attached propensities to an estimation result:
//! identity assignment, the treated/control split, matching, the ATT and its
//! variance.
use vstd::prelude::*;
use crate::att::{att_result, calculate_att};
use crate::distance::{all_have_candidates, first_without_candidate, matched_units, nn_match};
use crate::unit::{count_id, first_occurrences, EstimationError, Fraction, MAX_COHORT_LEN, Unit};
use crate::variance::{calculate_variance, distinct_units, variance_result};

verus! {

/// One input row before it is given an identity.
#[derive(Clone, Copy, Debug, PartialEq, Eq, Structural)]
pub struct Observation {
    pub treated: bool,
    pub outcome: i64,
    pub propensity: u64,
}

/// The outcome of a whole estimation run.
#[derive(Clone, Copy, Debug, PartialEq, Eq, Structural)]
pub struct EstimationResult {
    pub att: Fraction,
    pub att_variance: Fraction,
    pub n_treated: usize,
    pub n_control_distinct: usize,
}

/// The observations as units with the ids `1..=n` in input order.
pub open spec fn with_ids(obs: Seq<Observation>) -> Seq<Unit> {
    Seq::new(
        obs.len(),
        |i: int|
            Unit {
                id: (i + 1) as u64,
                treated: obs[i].treated,
                outcome: obs[i].outcome,
                propensity: obs[i].propensity,
            },
    )
}

/// The treated units of `s`, in their order.
pub open spec fn treated_part(s: Seq<Unit>) -> Seq<Unit>
    decreases s.len(),
{
    if s.len() == 0 {
        Seq::empty()
    } else if s.last().treated {
        treated_part(s.drop_last()).push(s.last())
    } else {
        treated_part(s.drop_last())
    }
}

/// The control units of `s`, in their order.
pub open spec fn control_part(s: Seq<Unit>) -> Seq<Unit>
    decreases s.len(),
{
    if s.len() == 0 {
        Seq::empty()
    } else if s.last().treated {
        control_part(s.drop_last())
    } else {
        control_part(s.drop_last()).push(s.last())
    }
}

/// What a run gives once every treated unit `t` has its match in `m`.
pub open spec fn estimation_result(t: Seq<Unit>, m: Seq<Unit>) -> Result<
    EstimationResult,
    EstimationError,
> {
    match att_result(t, m) {
        Err(e) => Err(e),
        Ok(att) => match variance_result(t, m) {
            Err(e) => Err(e),
            Ok(att_variance) => Ok(
                EstimationResult {
                    att,
                    att_variance,
                    n_treated: t.len() as usize,
                    n_control_distinct: first_occurrences(m).len() as usize,
                },
            ),
        },
    }
}

proof fn lemma_count_push(s: Seq<Unit>, u: Unit, id: u64)
    ensures
        count_id(s.push(u), id) == count_id(s, id) + if u.id == id { 1nat } else { 0nat },
{
    assert(s.push(u).drop_last() =~= s);
}

/// Splitting keeps every unit: the two parts are as long as the whole, and
/// each id occurs in them together as often as in the whole.
pub proof fn lemma_split_keeps_units(s: Seq<Unit>, id: u64)
    ensures
        treated_part(s).len() + control_part(s).len() == s.len(),
        count_id(treated_part(s), id) + count_id(control_part(s), id) == count_id(s, id),
    decreases s.len(),
{
    if s.len() > 0 {
        let p = s.drop_last();
        lemma_split_keeps_units(p, id);
        lemma_count_push(treated_part(p), s.last(), id);
        lemma_count_push(control_part(p), s.last(), id);
    }
}

/// Each of the ids `1..=n` occurs exactly once among `n` observations given ids,
/// and no other id occurs.
pub proof fn lemma_ids_unique(obs: Seq<Observation>, id: u64)
    requires
        obs.len() < u64::MAX,
    ensures
        count_id(with_ids(obs), id) == if 1 <= id <= obs.len() { 1nat } else { 0nat },
    decreases obs.len(),
{
    if obs.len() > 0 {
        let p = obs.drop_last();
        lemma_ids_unique(p, id);
        assert(with_ids(obs).drop_last() =~= with_ids(p));
    }
}

/// Giving ids to `n` observations and splitting them keeps all `n`: the parts
/// hold `n` units together, and each of the ids `1..=n` exactly once.
pub proof fn lemma_ids_then_split(obs: Seq<Observation>)
    requires
        obs.len() < u64::MAX,
    ensures
        treated_part(with_ids(obs)).len() + control_part(with_ids(obs)).len() == obs.len(),
        forall|id: u64|
            1 <= id <= obs.len() ==> #[trigger] count_id(treated_part(with_ids(obs)), id)
                + count_id(control_part(with_ids(obs)), id) == 1,
        forall|id: u64|
            !(1 <= id <= obs.len()) ==> #[trigger] count_id(treated_part(with_ids(obs)), id)
                + count_id(control_part(with_ids(obs)), id) == 0,
{
    lemma_split_keeps_units(with_ids(obs), 0);
    assert forall|id: u64|
        #![trigger count_id(treated_part(with_ids(obs)), id)]
        count_id(treated_part(with_ids(obs)), id) + count_id(control_part(with_ids(obs)), id)
            == if 1 <= id <= obs.len() { 1nat } else { 0nat } by {
        lemma_split_keeps_units(with_ids(obs), id);
        lemma_ids_unique(obs, id);
    }
}

/// Gives the observations the ids `1..=n` in input order.
pub fn assign_ids(obs: &Vec<Observation>) -> (r: Vec<Unit>)
    requires
        obs@.len() < u64::MAX,
    ensures
        r@ == with_ids(obs@),
{
    let mut out: Vec<Unit> = Vec::new();
    let mut i: usize = 0;
    while i < obs.len()
        invariant
            0 <= i <= obs@.len(),
            obs@.len() < u64::MAX,
            out@ =~= with_ids(obs@).subrange(0, i as int),
        decreases obs@.len() - i,
    {
        let o = obs[i];
        out.push(
            Unit {
                id: i as u64 + 1,
                treated: o.treated,
                outcome: o.outcome,
                propensity: o.propensity,
            },
        );
        i = i + 1;
    }
    out
}

/// Splits units into the treated and the control cohort, each in input order.
pub fn treat_control_split(data: &Vec<Unit>) -> (r: (Vec<Unit>, Vec<Unit>))
    ensures
        r.0@ == treated_part(data@),
        r.1@ == control_part(data@),
{
    let mut treat: Vec<Unit> = Vec::new();
    let mut control: Vec<Unit> = Vec::new();
    let mut i: usize = 0;
    while i < data.len()
        invariant
            0 <= i <= data@.len(),
            treat@ == treated_part(data@.subrange(0, i as int)),
            control@ == control_part(data@.subrange(0, i as int)),
        decreases data@.len() - i,
    {
        proof {
            assert(data@.subrange(0, i + 1).drop_last() =~= data@.subrange(0, i as int));
        }
        let u = data[i];
        if u.treated {
            treat.push(u);
        } else {
            control.push(u);
        }
        i = i + 1;
    }
    proof {
        assert(data@.subrange(0, data@.len() as int) =~= data@);
    }
    (treat, control)
}

/// The number of treated units and of distinct matched controls.
pub fn n_treat_control(treat: &Vec<Unit>, control: &Vec<Unit>) -> (r: (usize, usize))
    ensures
        r.0 == treat@.len(),
        r.1 == first_occurrences(control@).len(),
{
    let distinct = distinct_units(control);
    (treat.len(), distinct.len())
}

/// Estimates the ATT and its variance by one-to-one propensity-score matching
/// with replacement: ids are given in input order, the units are split, each
/// treated unit is matched to its nearest control, and the estimates are taken
/// over the matched pairs.
pub fn matches(obs: &Vec<Observation>) -> (r: Result<EstimationResult, EstimationError>)
    requires
        obs@.len() <= MAX_COHORT_LEN,
    ensures
        ({
            let t = treated_part(with_ids(obs@));
            let c = control_part(with_ids(obs@));
            &&& all_have_candidates(t, c) ==> r == estimation_result(t, matched_units(t, c))
            &&& !all_have_candidates(t, c) ==> (r matches Err(e) && exists|i: int|
                first_without_candidate(t, c, i) && e == (EstimationError::EmptyCandidatePool {
                    query_id: t[i].id,
                }))
        }),
{
    let units = assign_ids(obs);
    let (treat, mut control) = treat_control_split(&units);
    proof {
        lemma_split_keeps_units(units@, 0);
    }
    let matched = match nn_match(&treat, &mut control) {
        Ok(m) => m,
        Err(e) => {
            return Err(e);
        },
    };
    let att = match calculate_att(&treat, &matched) {
        Ok(a) => a,
        Err(e) => {
            return Err(e);
        },
    };
    let att_variance = match calculate_variance(&treat, &matched) {
        Ok(v) => v,
        Err(e) => {
            return Err(e);
        },
    };
    let (n_treated, n_control_distinct) = n_treat_control(&treat, &matched);
    Ok(EstimationResult { att, att_variance, n_treated, n_control_distinct })
}

} // verus!
