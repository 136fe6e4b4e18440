//! The escape-time loop: follow an orbit until it leaves, or the cap is
//! reached.

use vstd::prelude::*;

verus! {

/// Whether `orbit` lists the points that `step` may produce one after
/// another, starting from `start`: `orbit[0]` from `start`, and each later
/// point from the one before it.
pub open spec fn follows<Z, S: Fn(Z) -> Z>(step: S, start: Z, orbit: Seq<Z>) -> bool {
    forall|k: int|
        0 <= k < orbit.len() ==> step.ensures(
            (if k == 0 {
                start
            } else {
                orbit[k - 1]
            },),
            #[trigger] orbit[k],
        )
}

/// Whether the test `escaped` may have answered "no" on every point of
/// `orbit`.
pub open spec fn stays<Z, E: Fn(&Z) -> bool>(escaped: E, orbit: Seq<Z>) -> bool {
    forall|k: int| 0 <= k < orbit.len() ==> escaped.ensures((&#[trigger] orbit[k],), false)
}

/// Whether `outcome` is a possible end of the orbit of `start` under the
/// cap `limit`.
///
/// `Some(i)` says that the orbit was followed for `i + 1` steps, that the
/// test answered "no" after each of the first `i` and "yes" after the last,
/// and that `i` is below the cap. `None` says that it was followed for
/// `limit` steps and the test answered "no" after each.
pub open spec fn ends<Z, S: Fn(Z) -> Z, E: Fn(&Z) -> bool>(
    step: S,
    escaped: E,
    start: Z,
    limit: u32,
    outcome: Option<u32>,
) -> bool {
    match outcome {
        Some(i) => i < limit && exists|orbit: Seq<Z>|
            {
                &&& orbit.len() == i + 1
                &&& #[trigger] follows(step, start, orbit)
                &&& stays(escaped, orbit.drop_last())
                &&& escaped.ensures((&orbit.last(),), true)
            },
        None => exists|orbit: Seq<Z>|
            {
                &&& orbit.len() == limit
                &&& #[trigger] follows(step, start, orbit)
                &&& stays(escaped, orbit)
            },
    }
}

/// Whether `step` can give only one answer on each point.
pub open spec fn single_valued<Z, S: Fn(Z) -> Z>(step: S) -> bool {
    forall|z: Z, a: Z, b: Z| #[trigger]
        step.ensures((z,), a) && #[trigger] step.ensures((z,), b) ==> a == b
}

/// Whether the test `escaped` can give only one answer on each point.
pub open spec fn decisive<Z, E: Fn(&Z) -> bool>(escaped: E) -> bool {
    forall|z: Z| !(#[trigger] escaped.ensures((&z,), true) && escaped.ensures((&z,), false))
}

/// Two orbits of one start under a single-valued step agree wherever both
/// are defined.
pub proof fn lemma_orbits_agree<Z, S: Fn(Z) -> Z>(
    step: S,
    start: Z,
    first: Seq<Z>,
    second: Seq<Z>,
    k: int,
)
    requires
        single_valued(step),
        follows(step, start, first),
        follows(step, start, second),
        0 <= k < first.len(),
        k < second.len(),
    ensures
        first[k] == second[k],
    decreases k,
{
    if k > 0 {
        lemma_orbits_agree(step, start, first, second, k - 1);
    }
    let from: Z = if k == 0 {
        start
    } else {
        first[k - 1]
    };
    assert(step.ensures((from,), first[k]));
    assert(step.ensures((from,), second[k]));
}

/// An orbit that starts at a fixed point of `step` never moves.
pub proof fn lemma_fixed_orbit<Z, S: Fn(Z) -> Z>(step: S, start: Z, orbit: Seq<Z>, k: int)
    requires
        forall|next: Z| step.ensures((start,), next) ==> next == start,
        follows(step, start, orbit),
        0 <= k < orbit.len(),
    ensures
        orbit[k] == start,
    decreases k,
{
    if k > 0 {
        lemma_fixed_orbit(step, start, orbit, k - 1);
    }
    let from: Z = if k == 0 {
        start
    } else {
        orbit[k - 1]
    };
    assert(step.ensures((from,), orbit[k]));
}

/// The orbit that stands behind a possible end.
pub open spec fn witness<Z, S: Fn(Z) -> Z, E: Fn(&Z) -> bool>(
    step: S,
    escaped: E,
    start: Z,
    limit: u32,
    outcome: Option<u32>,
) -> Seq<Z> {
    match outcome {
        Some(i) => choose|orbit: Seq<Z>|
            {
                &&& orbit.len() == i + 1
                &&& #[trigger] follows(step, start, orbit)
                &&& stays(escaped, orbit.drop_last())
                &&& escaped.ensures((&orbit.last(),), true)
            },
        None => choose|orbit: Seq<Z>|
            {
                &&& orbit.len() == limit
                &&& #[trigger] follows(step, start, orbit)
                &&& stays(escaped, orbit)
            },
    }
}

/// Determinism: where the step and the test each have only one answer, an
/// orbit has only one end. Following the same orbit twice under the same
/// cap gives the same outcome.
pub proof fn law_outcome_unique<Z, S: Fn(Z) -> Z, E: Fn(&Z) -> bool>(
    step: S,
    escaped: E,
    start: Z,
    limit: u32,
    first: Option<u32>,
    second: Option<u32>,
)
    requires
        single_valued(step),
        decisive(escaped),
        ends(step, escaped, start, limit, first),
        ends(step, escaped, start, limit, second),
    ensures
        first == second,
{
    let a: Seq<Z> = witness(step, escaped, start, limit, first);
    let b: Seq<Z> = witness(step, escaped, start, limit, second);
    // Where the first orbit says "yes", at its last point, the second must
    // not have said "no", and the other way round.
    if first is Some && (second is None || first->0 < second->0) {
        let i: int = first->0 as int;
        lemma_orbits_agree(step, start, a, b, i);
        assert(a.last() == a[i]);
        if second is Some {
            assert(b.drop_last()[i] == b[i]);
        }
        assert(escaped.ensures((&b[i],), false));
    } else if second is Some && (first is None || second->0 < first->0) {
        let i: int = second->0 as int;
        lemma_orbits_agree(step, start, a, b, i);
        assert(b.last() == b[i]);
        if first is Some {
            assert(a.drop_last()[i] == a[i]);
        }
        assert(escaped.ensures((&a[i],), false));
    }
}

/// A start that the step leaves where it is, and that the test never calls
/// escaped, does not escape under any cap.
pub proof fn law_fixed_point_never_escapes<Z, S: Fn(Z) -> Z, E: Fn(&Z) -> bool>(
    step: S,
    escaped: E,
    start: Z,
    limit: u32,
    outcome: Option<u32>,
)
    requires
        forall|next: Z| step.ensures((start,), next) ==> next == start,
        !escaped.ensures((&start,), true),
        ends(step, escaped, start, limit, outcome),
    ensures
        outcome is None,
{
    if outcome is Some {
        let orbit: Seq<Z> = witness(step, escaped, start, limit, outcome);
        lemma_fixed_orbit(step, start, orbit, orbit.len() - 1);
    }
}

/// A start whose first step already lands where the test says "escaped",
/// and never says otherwise, escapes at iteration 0 under every cap of at
/// least one.
pub proof fn law_escape_at_first_step<Z, S: Fn(Z) -> Z, E: Fn(&Z) -> bool>(
    step: S,
    escaped: E,
    start: Z,
    limit: u32,
    outcome: Option<u32>,
)
    requires
        limit >= 1,
        forall|next: Z| step.ensures((start,), next) ==> !escaped.ensures((&next,), false),
        ends(step, escaped, start, limit, outcome),
    ensures
        outcome == Some(0u32),
{
    let orbit: Seq<Z> = witness(step, escaped, start, limit, outcome);
    assert(step.ensures((start,), orbit[0]));
    if outcome is Some && outcome->0 > 0 {
        assert(orbit.drop_last()[0] == orbit[0]);
    }
}

/// Follows the orbit of `start` for at most `limit` steps.
///
/// Each round applies `step` once and then asks `escaped` about the new
/// point. The first "yes" ends the loop at once, with the number of the
/// round, counted from zero. `None` means that the cap was reached with no
/// "yes".
pub fn escape_time<Z, S: Fn(Z) -> Z, E: Fn(&Z) -> bool>(
    start: Z,
    limit: u32,
    step: S,
    escaped: E,
) -> (outcome: Option<u32>)
    requires
        forall|z: Z| step.requires((z,)),
        forall|z: &Z| escaped.requires((z,)),
    ensures
        ends(step, escaped, start, limit, outcome),
{
    let ghost mut orbit: Seq<Z> = Seq::empty();
    let mut z: Z = start;
    let mut i: u32 = 0;
    while i < limit
        invariant
            i <= limit,
            forall|z: Z| step.requires((z,)),
            forall|z: &Z| escaped.requires((z,)),
            orbit.len() == i,
            z == if i == 0 {
                start
            } else {
                orbit.last()
            },
            follows(step, start, orbit),
            stays(escaped, orbit),
        decreases limit - i,
    {
        let next: Z = step(z);
        let out: bool = escaped(&next);
        proof {
            let ghost before: Seq<Z> = orbit;
            orbit = orbit.push(next);
            assert(orbit.drop_last() =~= before);
            assert(follows(step, start, orbit));
        }
        if out {
            return Some(i);
        }
        z = next;
        i = i + 1;
    }
    None
}

} // verus!
