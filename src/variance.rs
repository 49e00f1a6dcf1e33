//! The Abadie–Imbens heteroskedasticity-consistent variance of the ATT for
//! one-to-one matching with replacement.
use vstd::prelude::*;
use crate::distance::{all_have_candidates, has_candidate, matched_units, nn_match};
use crate::unit::{
    count_id, first_occurrences, has_id, lemma_first_occurrences_distinct,
    lemma_first_occurrences_has_id, EstimationError, Fraction, MAX_COHORT_LEN, Unit,
};

verus! {

/// A distinct unit of a subsample with the number of times its id occurs there.
#[derive(Clone, Copy, Debug, PartialEq, Eq, Structural)]
pub struct MatchCount {
    pub unit: Unit,
    pub count: usize,
}

/// A distinct unit of a subsample, its reuse count, and twice its conditional
/// outcome variance, estimated from its nearest neighbour within the subsample.
#[derive(Clone, Copy, Debug, PartialEq, Eq, Structural)]
pub struct UnitVariance {
    pub unit: Unit,
    pub count: usize,
    pub doubled_variance: u128,
}

/// The square of `x`.
pub open spec fn sq(x: int) -> int {
    x * x
}

/// The two-point variance of `a` and `b` about their mean, `((a - m)^2 + (b - m)^2)`
/// with `m = (a + b) / 2`, is half of `(a - b)^2`. Written over doubled
/// deviations so that it stays in the integers.
pub proof fn lemma_two_point_variance(a: int, b: int)
    ensures
        sq(2 * a - (a + b)) + sq(2 * b - (a + b)) == 2 * sq(a - b),
{
    assert(sq(2 * a - (a + b)) + sq(2 * b - (a + b)) == 2 * sq(a - b)) by (nonlinear_arith);
}

/// The weight of a unit in the variance: one for a treated unit, the number of
/// times it was used as a match for a control unit.
pub open spec fn unit_weight(u: Unit, s: Seq<Unit>) -> int {
    if u.treated {
        1
    } else {
        count_id(s, u.id) as int
    }
}

/// The sum over the first `n` distinct units `d` of a subsample `s` of their
/// squared weight times the squared outcome gap to their match in `m`.
pub open spec fn weighted_sum(d: Seq<Unit>, m: Seq<Unit>, s: Seq<Unit>, n: int) -> int
    decreases n,
{
    if n <= 0 {
        0
    } else {
        weighted_sum(d, m, s, n - 1) + sq(unit_weight(d[n - 1], s)) * sq(
            d[n - 1].outcome - m[n - 1].outcome,
        )
    }
}

/// The contribution of subsample `s`: each distinct unit is matched within the
/// distinct units of `s`, excluding itself.
pub open spec fn subsample_sum(s: Seq<Unit>) -> int {
    let d = first_occurrences(s);
    weighted_sum(d, matched_units(d, d), s, d.len() as int)
}

/// Twice `n_treated^2` times the ATT variance.
pub open spec fn variance_numerator(t: Seq<Unit>, c: Seq<Unit>) -> int {
    subsample_sum(t) + subsample_sum(c)
}

/// What the variance estimate is for treated units `t` and matched controls `c`.
pub open spec fn variance_result(t: Seq<Unit>, c: Seq<Unit>) -> Result<Fraction, EstimationError> {
    if t.len() == 0 {
        Err(EstimationError::UndefinedMean)
    } else if first_occurrences(t).len() < 2 {
        Err(EstimationError::DegenerateSelfMatch { cohort_size: first_occurrences(t).len() as usize })
    } else if first_occurrences(c).len() < 2 {
        Err(EstimationError::DegenerateSelfMatch { cohort_size: first_occurrences(c).len() as usize })
    } else if variance_numerator(t, c) > i128::MAX {
        Err(EstimationError::ArithmeticOverflow)
    } else {
        Ok(
            Fraction {
                numerator: variance_numerator(t, c) as i128,
                denominator: (2 * t.len() * t.len()) as u128,
            },
        )
    }
}

/// The summed weighted squares of the first `n` rows.
pub open spec fn row_sum(rows: Seq<UnitVariance>, n: int) -> int
    decreases n,
{
    if n <= 0 {
        0
    } else {
        row_sum(rows, n - 1) + sq(row_weight(rows[n - 1])) * rows[n - 1].doubled_variance
    }
}

/// The weight of a row: one when its unit is treated, else its count.
pub open spec fn row_weight(r: UnitVariance) -> int {
    if r.unit.treated {
        1
    } else {
        r.count as int
    }
}

/// Whether `rows` are the distinct units of `s` with their counts and their
/// doubled conditional variances.
pub open spec fn rows_of(rows: Seq<UnitVariance>, s: Seq<Unit>) -> bool {
    let d = first_occurrences(s);
    let m = matched_units(d, d);
    &&& rows.len() == d.len()
    &&& forall|i: int|
        0 <= i < rows.len() ==> {
            &&& (#[trigger] rows[i]).unit == d[i]
            &&& rows[i].count == count_id(s, d[i].id)
            &&& rows[i].doubled_variance == sq(d[i].outcome - m[i].outcome)
        }
}

proof fn lemma_weighted_sum_nonnegative(d: Seq<Unit>, m: Seq<Unit>, s: Seq<Unit>, n: int)
    ensures
        weighted_sum(d, m, s, n) >= 0,
    decreases n,
{
    if n > 0 {
        lemma_weighted_sum_nonnegative(d, m, s, n - 1);
        let w = unit_weight(d[n - 1], s);
        let g = d[n - 1].outcome - m[n - 1].outcome;
        assert(sq(w) * sq(g) >= 0) by (nonlinear_arith);
    }
}

proof fn lemma_row_sum_monotone(rows: Seq<UnitVariance>, n: int, k: int)
    requires
        n <= k,
    ensures
        row_sum(rows, n) <= row_sum(rows, k),
    decreases k - n,
{
    if n < k {
        lemma_row_sum_monotone(rows, n, k - 1);
        if k > 0 {
            let w = row_weight(rows[k - 1]);
            let v = rows[k - 1].doubled_variance as int;
            assert(sq(w) * v >= 0) by (nonlinear_arith)
                requires
                    v >= 0,
            ;
        }
    }
}

proof fn lemma_row_sum_is_subsample_sum(rows: Seq<UnitVariance>, s: Seq<Unit>, n: int)
    requires
        rows_of(rows, s),
        0 <= n <= rows.len(),
    ensures
        row_sum(rows, n) == weighted_sum(
            first_occurrences(s),
            matched_units(first_occurrences(s), first_occurrences(s)),
            s,
            n,
        ),
    decreases n,
{
    if n > 0 {
        lemma_row_sum_is_subsample_sum(rows, s, n - 1);
        let r = rows[n - 1];
        assert(row_weight(r) == unit_weight(first_occurrences(s)[n - 1], s));
    }
}

/// The ATT variance is never negative.
pub proof fn lemma_variance_nonnegative(t: Seq<Unit>, c: Seq<Unit>)
    ensures
        variance_numerator(t, c) >= 0,
{
    let dt = first_occurrences(t);
    let dc = first_occurrences(c);
    lemma_weighted_sum_nonnegative(dt, matched_units(dt, dt), t, dt.len() as int);
    lemma_weighted_sum_nonnegative(dc, matched_units(dc, dc), c, dc.len() as int);
}

proof fn lemma_weighted_sum_zero(d: Seq<Unit>, m: Seq<Unit>, s: Seq<Unit>, n: int)
    requires
        0 <= n <= d.len(),
        n <= m.len(),
        forall|i: int| 0 <= i < n ==> #[trigger] d[i].outcome == m[i].outcome,
    ensures
        weighted_sum(d, m, s, n) == 0,
    decreases n,
{
    if n > 0 {
        lemma_weighted_sum_zero(d, m, s, n - 1);
        assert(d[n - 1].outcome == m[n - 1].outcome);
        assert(sq(d[n - 1].outcome - m[n - 1].outcome) == 0);
    }
}

/// Whether every distinct unit of `s` has the same outcome as its nearest
/// neighbour among the distinct units of `s`, so that its conditional variance is zero.
pub open spec fn self_matches_agree(s: Seq<Unit>) -> bool {
    let d = first_occurrences(s);
    forall|i: int|
        0 <= i < d.len() ==> #[trigger] d[i].outcome == matched_units(d, d)[i].outcome
}

/// When every unit's conditional variance is zero, so is the ATT variance.
pub proof fn lemma_variance_zero_when_self_matches_agree(t: Seq<Unit>, c: Seq<Unit>)
    requires
        self_matches_agree(t),
        self_matches_agree(c),
    ensures
        variance_numerator(t, c) == 0,
{
    let dt = first_occurrences(t);
    let dc = first_occurrences(c);
    lemma_weighted_sum_zero(dt, matched_units(dt, dt), t, dt.len() as int);
    lemma_weighted_sum_zero(dc, matched_units(dc, dc), c, dc.len() as int);
}

/// Whether some unit of `v` carries the id `id`.
pub fn contains_id(v: &Vec<Unit>, id: u64) -> (r: bool)
    ensures
        r == has_id(v@, id),
{
    let mut i: usize = 0;
    while i < v.len()
        invariant
            0 <= i <= v@.len(),
            forall|k: int| 0 <= k < i ==> v@[k].id != id,
        decreases v@.len() - i,
    {
        if v[i].id == id {
            return true;
        }
        i = i + 1;
    }
    false
}

/// How many units of `v` carry the id `id`.
pub fn count_occurrences(v: &Vec<Unit>, id: u64) -> (r: usize)
    ensures
        r == count_id(v@, id),
{
    let mut c: usize = 0;
    let mut i: usize = 0;
    while i < v.len()
        invariant
            0 <= i <= v@.len(),
            c <= i,
            c == count_id(v@.subrange(0, i as int), id),
        decreases v@.len() - i,
    {
        proof {
            assert(v@.subrange(0, i + 1).drop_last() =~= v@.subrange(0, i as int));
        }
        if v[i].id == id {
            c = c + 1;
        }
        i = i + 1;
    }
    proof {
        assert(v@.subrange(0, v@.len() as int) =~= v@);
    }
    c
}

/// The units of `v` whose id has not occurred before them, in their order in `v`.
pub fn distinct_units(v: &Vec<Unit>) -> (r: Vec<Unit>)
    ensures
        r@ == first_occurrences(v@),
{
    let mut out: Vec<Unit> = Vec::new();
    let mut i: usize = 0;
    while i < v.len()
        invariant
            0 <= i <= v@.len(),
            out@ == first_occurrences(v@.subrange(0, i as int)),
        decreases v@.len() - i,
    {
        let u = v[i];
        proof {
            let s = v@.subrange(0, i + 1);
            assert(s.drop_last() =~= v@.subrange(0, i as int));
            assert(s.last() == u);
            lemma_first_occurrences_has_id(v@.subrange(0, i as int), u.id);
        }
        if !contains_id(&out, u.id) {
            out.push(u);
        }
        i = i + 1;
    }
    proof {
        assert(v@.subrange(0, v@.len() as int) =~= v@);
    }
    out
}

/// Counts how many times each unit of `data` occurs, by id, as happens to a
/// control unit that is matched more than once. Returns the distinct units in
/// their first order, each with its count.
pub fn subsample_count_matches(data: &Vec<Unit>) -> (r: Vec<MatchCount>)
    ensures
        r@.len() == first_occurrences(data@).len(),
        forall|i: int|
            0 <= i < r@.len() ==> (#[trigger] r@[i]).unit == first_occurrences(data@)[i]
                && r@[i].count == count_id(data@, first_occurrences(data@)[i].id),
{
    let units = distinct_units(data);
    let mut out: Vec<MatchCount> = Vec::new();
    let mut i: usize = 0;
    while i < units.len()
        invariant
            0 <= i <= units@.len(),
            units@ == first_occurrences(data@),
            out@.len() == i,
            forall|k: int|
                0 <= k < i ==> (#[trigger] out@[k]).unit == units@[k] && out@[k].count
                    == count_id(data@, units@[k].id),
        decreases units@.len() - i,
    {
        let u = units[i];
        let count = count_occurrences(data, u.id);
        out.push(MatchCount { unit: u, count });
        i = i + 1;
    }
    out
}

/// `(a - b)^2`, which fits: the gap of two `i64` is under `2^64`.
pub fn square_diff(a: i64, b: i64) -> (r: u128)
    ensures
        r == sq(a - b),
{
    let g: u128 = if a >= b {
        (a as i128 - b as i128) as u128
    } else {
        (b as i128 - a as i128) as u128
    };
    assert(g * g <= 0xffff_ffff_ffff_ffff_ffff_ffff_ffff_ffff) by (nonlinear_arith)
        requires
            g <= 0xffff_ffff_ffff_ffff,
    ;
    assert(sq(a - b) == g * g) by (nonlinear_arith)
        requires
            g == a - b || g == b - a,
    ;
    g * g
}

/// Estimates each distinct unit's conditional outcome variance by matching the
/// distinct units of `data` against themselves, each excluding itself. The
/// value kept is `(y - y_match)^2`, twice the two-point variance of the unit's
/// outcome and its match's outcome. Fails when fewer than two distinct units
/// are left, as no unit would then have a match.
pub fn subsample_conditional_variance(data: &Vec<Unit>) -> (r: Result<
    Vec<UnitVariance>,
    EstimationError,
>)
    ensures
        r is Err <==> first_occurrences(data@).len() < 2,
        r matches Err(e) ==> e == (EstimationError::DegenerateSelfMatch {
            cohort_size: first_occurrences(data@).len() as usize,
        }),
        r matches Ok(rows) ==> rows_of(rows@, data@),
{
    let counted = subsample_count_matches(data);
    let units = distinct_units(data);
    if units.len() < 2 {
        return Err(EstimationError::DegenerateSelfMatch { cohort_size: units.len() });
    }
    let mut pool = distinct_units(data);
    proof {
        lemma_first_occurrences_distinct(data@);
        assert forall|i: int| 0 <= i < units@.len() implies has_candidate(
            pool@,
            #[trigger] units@[i].id,
        ) by {
            let k: int = if i == 0 {
                1
            } else {
                0
            };
            assert(pool@[k].id != units@[i].id);
        }
        assert(all_have_candidates(units@, pool@));
    }
    let self_matches = match nn_match(&units, &mut pool) {
        Ok(m) => m,
        Err(e) => {
            return Err(e);
        },
    };
    let ghost d = first_occurrences(data@);
    let mut rows: Vec<UnitVariance> = Vec::new();
    let mut i: usize = 0;
    while i < units.len()
        invariant
            0 <= i <= units@.len(),
            units@ == d,
            d == first_occurrences(data@),
            counted@.len() == d.len(),
            forall|k: int|
                0 <= k < counted@.len() ==> (#[trigger] counted@[k]).unit == d[k]
                    && counted@[k].count == count_id(data@, d[k].id),
            self_matches@ == matched_units(d, d),
            rows@.len() == i,
            forall|k: int|
                0 <= k < i ==> {
                    &&& (#[trigger] rows@[k]).unit == d[k]
                    &&& rows@[k].count == count_id(data@, d[k].id)
                    &&& rows@[k].doubled_variance == sq(
                        d[k].outcome - matched_units(d, d)[k].outcome,
                    )
                },
        decreases units@.len() - i,
    {
        let u = units[i];
        let doubled_variance = square_diff(u.outcome, self_matches[i].outcome);
        rows.push(UnitVariance { unit: u, count: counted[i].count, doubled_variance });
        i = i + 1;
    }
    Ok(rows)
}

/// The summed squared weight times doubled variance over `rows`, or `None`
/// when it does not fit in a `u128`.
pub fn weighted_square_sum(rows: &Vec<UnitVariance>) -> (r: Option<u128>)
    ensures
        r is None <==> row_sum(rows@, rows@.len() as int) > u128::MAX,
        r matches Some(v) ==> v == row_sum(rows@, rows@.len() as int),
{
    let mut acc: u128 = 0;
    let mut i: usize = 0;
    while i < rows.len()
        invariant
            0 <= i <= rows@.len(),
            acc == row_sum(rows@, i as int),
        decreases rows@.len() - i,
    {
        let row = rows[i];
        let w: u128 = if row.unit.treated {
            1
        } else {
            row.count as u128
        };
        assert(w * w <= 0xffff_ffff_ffff_ffff_ffff_ffff_ffff_ffff) by (nonlinear_arith)
            requires
                w <= 0xffff_ffff_ffff_ffff,
        ;
        let w2: u128 = w * w;
        proof {
            lemma_row_sum_monotone(rows@, i + 1, rows@.len() as int);
            assert(w2 == sq(row_weight(row)));
            assert(w2 * row.doubled_variance >= 0) by (nonlinear_arith)
                requires
                    w2 >= 0,
                    row.doubled_variance >= 0,
            ;
        }
        match w2.checked_mul(row.doubled_variance) {
            None => {
                return None;
            },
            Some(term) => {
                match acc.checked_add(term) {
                    None => {
                        return None;
                    },
                    Some(next) => {
                        acc = next;
                    },
                }
            },
        }
        i = i + 1;
    }
    Some(acc)
}

/// Calculates the heteroskedasticity-consistent variance of the ATT of Abadie
/// and Imbens (2006) for one-to-one matching with replacement, from the treated
/// units and the controls matched to them. Each distinct unit contributes its
/// squared weight (one when treated, its reuse count as a match when not)
/// times its conditional variance; the sum is divided by the squared number of
/// treated units. Returned as an exact fraction with denominator `2 n^2`.
pub fn calculate_variance(treat: &Vec<Unit>, control: &Vec<Unit>) -> (r: Result<
    Fraction,
    EstimationError,
>)
    requires
        treat@.len() <= MAX_COHORT_LEN,
    ensures
        r == variance_result(treat@, control@),
{
    if treat.len() == 0 {
        return Err(EstimationError::UndefinedMean);
    }
    let treat_rows = match subsample_conditional_variance(treat) {
        Ok(rows) => rows,
        Err(e) => {
            return Err(e);
        },
    };
    let control_rows = match subsample_conditional_variance(control) {
        Ok(rows) => rows,
        Err(e) => {
            return Err(e);
        },
    };
    proof {
        lemma_row_sum_is_subsample_sum(treat_rows@, treat@, treat_rows@.len() as int);
        lemma_row_sum_is_subsample_sum(control_rows@, control@, control_rows@.len() as int);
        lemma_variance_nonnegative(treat@, control@);
        let dt = first_occurrences(treat@);
        let dc = first_occurrences(control@);
        lemma_weighted_sum_nonnegative(dt, matched_units(dt, dt), treat@, dt.len() as int);
        lemma_weighted_sum_nonnegative(dc, matched_units(dc, dc), control@, dc.len() as int);
    }
    let t_sum = match weighted_square_sum(&treat_rows) {
        Some(v) => v,
        None => {
            return Err(EstimationError::ArithmeticOverflow);
        },
    };
    let c_sum = match weighted_square_sum(&control_rows) {
        Some(v) => v,
        None => {
            return Err(EstimationError::ArithmeticOverflow);
        },
    };
    if t_sum > 0x7fff_ffff_ffff_ffff_ffff_ffff_ffff_ffff || c_sum > 0x7fff_ffff_ffff_ffff_ffff_ffff_ffff_ffff - t_sum {
        return Err(EstimationError::ArithmeticOverflow);
    }
    let n: u128 = treat.len() as u128;
    assert(2 * n * n <= 0x8000_0000_0000_0000_0000_0000_0000_0000) by (nonlinear_arith)
        requires
            n <= 0x1000_0000_0000_0000,
    ;
    let numerator: i128 = (t_sum + c_sum) as i128;
    Ok(Fraction { numerator, denominator: 2 * n * n })
}

} // verus!
