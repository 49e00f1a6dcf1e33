//! Units, cohorts and the errors of an estimation run.
use vstd::prelude::*;

verus! {

/// One observational row, with its propensity already attached.
///
/// `propensity` is a fixed-point score (a larger value is a higher probability
/// of treatment); `outcome` is the measured response on a fixed-point scale.
#[derive(Clone, Copy, Debug, PartialEq, Eq, Structural)]
pub struct Unit {
    pub id: u64,
    pub treated: bool,
    pub outcome: i64,
    pub propensity: u64,
}

/// Why an estimation run could not be completed.
#[derive(Clone, Copy, Debug, PartialEq, Eq, Structural)]
pub enum EstimationError {
    /// A required input field was absent.
    MissingColumn,
    /// The query unit with this id has no candidate left once it is excluded itself.
    EmptyCandidatePool { query_id: u64 },
    /// A mean was asked for over an empty cohort.
    UndefinedMean,
    /// The self-matching pass got a cohort of this size, which is under two.
    DegenerateSelfMatch { cohort_size: usize },
    /// The propensity model failed or gave an invalid probability.
    ScoreProviderFailure,
    /// An exact numerator does not fit in an `i128`.
    ArithmeticOverflow,
}

/// An exact rational number `numerator / denominator`.
#[derive(Clone, Copy, Debug, PartialEq, Eq, Structural)]
pub struct Fraction {
    pub numerator: i128,
    pub denominator: u128,
}

/// No cohort is longer than this: a `Unit` takes more than sixteen bytes, and no
/// allocation spans more than `isize::MAX` bytes.
pub const MAX_COHORT_LEN: u64 = 0x1000_0000_0000_0000;

/// Whether some unit of `s` carries the id `id`.
pub open spec fn has_id(s: Seq<Unit>, id: u64) -> bool {
    exists|k: int| 0 <= k < s.len() && s[k].id == id
}

/// How many units of `s` carry the id `id`.
pub open spec fn count_id(s: Seq<Unit>, id: u64) -> nat
    decreases s.len(),
{
    if s.len() == 0 {
        0
    } else {
        count_id(s.drop_last(), id) + if s.last().id == id { 1nat } else { 0nat }
    }
}

/// The units of `s` whose id has not occurred before them, in their order in `s`.
pub open spec fn first_occurrences(s: Seq<Unit>) -> Seq<Unit>
    decreases s.len(),
{
    if s.len() == 0 {
        Seq::empty()
    } else if has_id(s.drop_last(), s.last().id) {
        first_occurrences(s.drop_last())
    } else {
        first_occurrences(s.drop_last()).push(s.last())
    }
}

/// A unit occurs among the first occurrences exactly when its id occurs at all.
pub proof fn lemma_first_occurrences_has_id(s: Seq<Unit>, id: u64)
    ensures
        has_id(first_occurrences(s), id) == has_id(s, id),
    decreases s.len(),
{
    if s.len() > 0 {
        let p = s.drop_last();
        lemma_first_occurrences_has_id(p, id);
        let f = first_occurrences(p);
        if has_id(p, id) {
            let k = choose|k: int| 0 <= k < p.len() && p[k].id == id;
            assert(s[k] == p[k]);
        }
        if has_id(s, id) && !has_id(p, id) {
            let k = choose|k: int| 0 <= k < s.len() && s[k].id == id;
            if k < p.len() {
                assert(p[k] == s[k]);
            }
        }
        if has_id(p, s.last().id) {
        } else {
            let g = f.push(s.last());
            if has_id(f, id) {
                let k = choose|k: int| 0 <= k < f.len() && f[k].id == id;
                assert(g[k] == f[k]);
            }
            if has_id(g, id) && !has_id(f, id) {
                let k = choose|k: int| 0 <= k < g.len() && g[k].id == id;
                if k < f.len() {
                    assert(g[k] == f[k]);
                }
            }
            assert(g[f.len() as int] == s.last());
            assert(s[s.len() - 1] == s.last());
        }
    }
}

/// The first occurrences carry pairwise distinct ids.
pub proof fn lemma_first_occurrences_distinct(s: Seq<Unit>)
    ensures
        forall|i: int, j: int|
            0 <= i < j < first_occurrences(s).len() ==> first_occurrences(s)[i].id
                != first_occurrences(s)[j].id,
    decreases s.len(),
{
    if s.len() > 0 {
        let p = s.drop_last();
        lemma_first_occurrences_distinct(p);
        lemma_first_occurrences_has_id(p, s.last().id);
        let f = first_occurrences(p);
        if !has_id(p, s.last().id) {
            let g = f.push(s.last());
            assert forall|i: int, j: int| 0 <= i < j < g.len() implies g[i].id != g[j].id by {
                if j == f.len() {
                    assert(g[i] == f[i]);
                    assert(!(0 <= i < f.len() && f[i].id == s.last().id));
                }
            }
        }
    }
}

} // verus!
