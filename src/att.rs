//! The matching estimator of the average treatment effect on the treated.
use vstd::prelude::*;
use crate::unit::{EstimationError, Fraction, MAX_COHORT_LEN, Unit};

verus! {

/// The sum over the first `n` pairs of the treated outcome minus the matched
/// control outcome.
pub open spec fn outcome_diff_sum(t: Seq<Unit>, c: Seq<Unit>, n: int) -> int
    decreases n,
{
    if n <= 0 {
        0
    } else {
        outcome_diff_sum(t, c, n - 1) + (t[n - 1].outcome - c[n - 1].outcome)
    }
}

/// What the ATT is for treated units `t` and matched controls `c`: undefined
/// without treated units, else the summed differences over their number.
pub open spec fn att_result(t: Seq<Unit>, c: Seq<Unit>) -> Result<Fraction, EstimationError> {
    if t.len() == 0 {
        Err(EstimationError::UndefinedMean)
    } else {
        Ok(Fraction { numerator: outcome_diff_sum(t, c, t.len() as int) as i128, denominator: t.len() as u128 })
    }
}

/// Calculates the ATT: the mean over the treated units of their outcome minus
/// the outcome of the control unit matched to them at the same position. This
/// is the matching estimator without bias correction. It is returned as the
/// exact fraction of the summed differences over the number of treated units.
pub fn calculate_att(treat: &Vec<Unit>, control: &Vec<Unit>) -> (r: Result<
    Fraction,
    EstimationError,
>)
    requires
        treat@.len() == control@.len(),
        treat@.len() <= MAX_COHORT_LEN,
    ensures
        r == att_result(treat@, control@),
{
    if treat.len() == 0 {
        return Err(EstimationError::UndefinedMean);
    }
    let mut sum: i128 = 0;
    let mut i: usize = 0;
    while i < treat.len()
        invariant
            0 <= i <= treat@.len(),
            treat@.len() == control@.len(),
            treat@.len() <= MAX_COHORT_LEN,
            sum == outcome_diff_sum(treat@, control@, i as int),
            -(i * 0x1_0000_0000_0000_0000) <= sum <= i * 0x1_0000_0000_0000_0000,
        decreases treat@.len() - i,
    {
        let d: i128 = treat[i].outcome as i128 - control[i].outcome as i128;
        sum = sum + d;
        i = i + 1;
    }
    Ok(Fraction { numerator: sum, denominator: treat.len() as u128 })
}

/// When every treated outcome equals the outcome of its matched control, the
/// summed difference, and with it the ATT, is zero.
pub proof fn lemma_att_zero_on_equal_outcomes(t: Seq<Unit>, c: Seq<Unit>, n: int)
    requires
        0 <= n <= t.len(),
        n <= c.len(),
        forall|i: int| 0 <= i < n ==> #[trigger] t[i].outcome == c[i].outcome,
    ensures
        outcome_diff_sum(t, c, n) == 0,
    decreases n,
{
    if n > 0 {
        lemma_att_zero_on_equal_outcomes(t, c, n - 1);
    }
}

} // verus!
