//! Nearest-neighbour matching on the propensity axis, with replacement.
use vstd::prelude::*;
use crate::unit::{EstimationError, Unit};

verus! {

/// The distance between two propensity scores.
pub open spec fn dist(a: u64, b: u64) -> nat {
    if a >= b {
        (a - b) as nat
    } else {
        (b - a) as nat
    }
}

/// Whether `c` holds a unit other than the one with id `id`.
pub open spec fn has_candidate(c: Seq<Unit>, id: u64) -> bool {
    exists|k: int| 0 <= k < c.len() && c[k].id != id
}

/// Whether position `j` of `c` is the nearest neighbour of a query with score `p`
/// and id `id`: no other eligible candidate is closer, and every eligible
/// candidate before `j` is strictly farther (ties go to the earliest).
pub open spec fn is_nearest(c: Seq<Unit>, p: u64, id: u64, j: int) -> bool {
    &&& 0 <= j < c.len()
    &&& c[j].id != id
    &&& forall|k: int|
        0 <= k < c.len() && c[k].id != id ==> dist(c[j].propensity, p) <= dist(
            c[k].propensity,
            p,
        )
    &&& forall|k: int|
        0 <= k < j && c[k].id != id ==> dist(c[k].propensity, p) > dist(c[j].propensity, p)
}

/// The position of the nearest neighbour in `c` of a query with score `p` and id `id`.
pub open spec fn nearest_index(c: Seq<Unit>, p: u64, id: u64) -> int {
    choose|j: int| is_nearest(c, p, id, j)
}

/// The matched unit of every query, in the order of the queries.
pub open spec fn matched_units(q: Seq<Unit>, c: Seq<Unit>) -> Seq<Unit> {
    Seq::new(q.len(), |i: int| c[nearest_index(c, q[i].propensity, q[i].id)])
}

/// Whether every query has a candidate left once it is excluded itself.
pub open spec fn all_have_candidates(q: Seq<Unit>, c: Seq<Unit>) -> bool {
    forall|i: int| 0 <= i < q.len() ==> has_candidate(c, q[i].id)
}

/// The first query that has no candidate left once it is excluded itself.
pub open spec fn first_without_candidate(q: Seq<Unit>, c: Seq<Unit>, i: int) -> bool {
    &&& 0 <= i < q.len()
    &&& !has_candidate(c, q[i].id)
    &&& forall|k: int| 0 <= k < i ==> has_candidate(c, q[k].id)
}

/// At most one position is the nearest neighbour.
pub proof fn lemma_nearest_unique(c: Seq<Unit>, p: u64, id: u64, j1: int, j2: int)
    requires
        is_nearest(c, p, id, j1),
        is_nearest(c, p, id, j2),
    ensures
        j1 == j2,
{
    if j1 < j2 {
        assert(dist(c[j1].propensity, p) > dist(c[j2].propensity, p));
    } else if j2 < j1 {
        assert(dist(c[j2].propensity, p) > dist(c[j1].propensity, p));
    }
}

/// Some position is the nearest neighbour whenever a candidate is left.
pub proof fn lemma_nearest_exists(c: Seq<Unit>, p: u64, id: u64)
    requires
        has_candidate(c, id),
    ensures
        is_nearest(c, p, id, nearest_index(c, p, id)),
{
    lemma_first_minimum(c, p, id, c.len() as int);
    assert(c.subrange(0, c.len() as int) =~= c);
}

/// Of two eligible candidates at the same minimum distance, the later one is
/// never chosen: the match is the earlier one or a candidate before it.
pub proof fn lemma_tie_goes_to_earlier(c: Seq<Unit>, p: u64, id: u64, j1: int, j2: int)
    requires
        0 <= j1 < j2 < c.len(),
        c[j1].id != id,
        c[j2].id != id,
        dist(c[j1].propensity, p) == dist(c[j2].propensity, p),
        forall|k: int|
            0 <= k < c.len() && c[k].id != id ==> dist(c[j1].propensity, p) <= dist(
                c[k].propensity,
                p,
            ),
    ensures
        nearest_index(c, p, id) <= j1,
        nearest_index(c, p, id) != j2,
{
    lemma_nearest_exists(c, p, id);
    let b = nearest_index(c, p, id);
    if b > j1 {
        assert(dist(c[j1].propensity, p) > dist(c[b].propensity, p));
    }
}

/// A scan of the first `n` positions finds the first eligible one at minimum
/// distance, when there is one.
proof fn lemma_first_minimum(c: Seq<Unit>, p: u64, id: u64, n: int)
    requires
        0 <= n <= c.len(),
    ensures
        (exists|k: int| 0 <= k < n && c[k].id != id) ==> exists|b: int|
            is_nearest(c.subrange(0, n), p, id, b),
    decreases n,
{
    if n > 0 {
        let s = c.subrange(0, n);
        let t = c.subrange(0, n - 1);
        lemma_first_minimum(c, p, id, n - 1);
        if c[n - 1].id != id {
            if exists|k: int| 0 <= k < n - 1 && c[k].id != id {
                let b = choose|b: int| is_nearest(t, p, id, b);
                if dist(c[n - 1].propensity, p) < dist(c[b].propensity, p) {
                    assert(is_nearest(s, p, id, n - 1));
                } else {
                    assert(is_nearest(s, p, id, b));
                }
            } else {
                assert(is_nearest(s, p, id, n - 1));
            }
        } else {
            if exists|k: int| 0 <= k < n && c[k].id != id {
                let k = choose|k: int| 0 <= k < n && c[k].id != id;
                assert(0 <= k < n - 1 && c[k].id != id);
                let b = choose|b: int| is_nearest(t, p, id, b);
                assert(is_nearest(s, p, id, b));
            }
        }
    }
}

/// The distance between two propensity scores.
pub fn score_distance(a: u64, b: u64) -> (r: u64)
    ensures
        r as nat == dist(a, b),
{
    if a >= b {
        a - b
    } else {
        b - a
    }
}

/// Finds the position in `data` of the nearest neighbour of a query with score
/// `pscore` and id `strike_id`, skipping the unit that carries that id. Of
/// several candidates at the same minimum distance the earliest is chosen.
pub fn find_nn(data: &Vec<Unit>, pscore: u64, strike_id: u64) -> (r: Result<
    usize,
    EstimationError,
>)
    ensures
        r is Ok <==> has_candidate(data@, strike_id),
        r matches Ok(j) ==> is_nearest(data@, pscore, strike_id, j as int) && j as int
            == nearest_index(data@, pscore, strike_id),
        r matches Err(e) ==> e == (EstimationError::EmptyCandidatePool { query_id: strike_id }),
{
    let mut best: Option<usize> = None;
    let mut best_dist: u64 = 0;
    let mut i: usize = 0;
    while i < data.len()
        invariant
            0 <= i <= data@.len(),
            best is None ==> forall|k: int| 0 <= k < i ==> data@[k].id == strike_id,
            best matches Some(b) ==> {
                &&& 0 <= b < i
                &&& data@[b as int].id != strike_id
                &&& best_dist as nat == dist(data@[b as int].propensity, pscore)
                &&& forall|k: int|
                    0 <= k < i && data@[k].id != strike_id ==> best_dist as nat <= dist(
                        data@[k].propensity,
                        pscore,
                    )
                &&& forall|k: int|
                    0 <= k < b && data@[k].id != strike_id ==> dist(data@[k].propensity, pscore)
                        > best_dist as nat
            },
        decreases data@.len() - i,
    {
        let c = data[i];
        if c.id != strike_id {
            let d = score_distance(c.propensity, pscore);
            match best {
                None => {
                    best = Some(i);
                    best_dist = d;
                },
                Some(_) => {
                    if d < best_dist {
                        best = Some(i);
                        best_dist = d;
                    }
                },
            }
        }
        i = i + 1;
    }
    match best {
        Some(b) => {
            proof {
                lemma_nearest_exists(data@, pscore, strike_id);
                lemma_nearest_unique(
                    data@,
                    pscore,
                    strike_id,
                    b as int,
                    nearest_index(data@, pscore, strike_id),
                );
            }
            Ok(b)
        },
        None => Err(EstimationError::EmptyCandidatePool { query_id: strike_id }),
    }
}

/// Matches every unit of `main` to its nearest neighbour in `target`, with
/// replacement. The result holds one matched unit per query, in the order of
/// the queries; `target` is left as it was.
pub fn nn_match(main: &Vec<Unit>, target: &mut Vec<Unit>) -> (r: Result<
    Vec<Unit>,
    EstimationError,
>)
    ensures
        final(target)@ == old(target)@,
        r is Ok <==> all_have_candidates(main@, old(target)@),
        r matches Ok(m) ==> {
            &&& m@ == matched_units(main@, old(target)@)
            &&& m@.len() == main@.len()
            &&& forall|i: int| 0 <= i < m@.len() ==> old(target)@.contains(#[trigger] m@[i])
            &&& forall|i: int| 0 <= i < m@.len() ==> #[trigger] m@[i].id != main@[i].id
        },
        r matches Err(e) ==> exists|i: int|
            first_without_candidate(main@, old(target)@, i) && e == (
            EstimationError::EmptyCandidatePool { query_id: main@[i].id }),
{
    let mut targets: Vec<Unit> = Vec::new();
    let mut i: usize = 0;
    while i < main.len()
        invariant
            0 <= i <= main@.len(),
            target@ == old(target)@,
            targets@ == matched_units(main@.subrange(0, i as int), target@),
            forall|k: int| 0 <= k < i ==> has_candidate(target@, main@[k].id),
        decreases main@.len() - i,
    {
        let q = main[i];
        match find_nn(target, q.propensity, q.id) {
            Ok(j) => {
                targets.push(target[j]);
                proof {
                    assert(targets@ =~= matched_units(main@.subrange(0, i + 1), target@));
                }
            },
            Err(e) => {
                proof {
                    assert(first_without_candidate(main@, target@, i as int));
                }
                return Err(e);
            },
        }
        i = i + 1;
    }
    proof {
        assert(main@.subrange(0, main@.len() as int) =~= main@);
        assert forall|i: int| 0 <= i < targets@.len() implies target@.contains(
            #[trigger] targets@[i],
        ) && targets@[i].id != main@[i].id by {
            lemma_nearest_exists(target@, main@[i].propensity, main@[i].id);
        }
    }
    Ok(targets)
}

} // verus!
