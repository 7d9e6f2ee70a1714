use vstd::prelude::*;

verus! {

/// Each state of `orbit` but the last is followed by a state that `step`
/// may produce from it.
pub open spec fn is_orbit<Z, S: Fn(Z) -> Z>(step: S, orbit: Seq<Z>) -> bool {
    forall|k: int| 0 <= k < orbit.len() - 1 ==> step.ensures((#[trigger] orbit[k],), orbit[k + 1])
}

/// The first `n` states of `orbit` have all been found not to have escaped.
pub open spec fn all_within<Z, E: Fn(&Z) -> bool>(escaped: E, orbit: Seq<Z>, n: int) -> bool {
    forall|k: int| 0 <= k < n ==> escaped.ensures((&#[trigger] orbit[k],), false)
}

/// `orbit` is a run of the iteration from `start` that accounts for the
/// outcome `r`: for `Some(i)`, states `0 .. i` were within and state `i` had
/// escaped; for `None`, all `limit` states that were tested were within.
pub open spec fn is_escape_witness<Z, E: Fn(&Z) -> bool, S: Fn(Z) -> Z>(
    start: Z,
    limit: usize,
    escaped: E,
    step: S,
    r: Option<usize>,
    orbit: Seq<Z>,
) -> bool {
    &&& is_orbit(step, orbit)
    &&& orbit.len() > 0 ==> orbit[0] == start
    &&& match r {
        Some(i) => {
            &&& i < limit
            &&& orbit.len() == i + 1
            &&& all_within(escaped, orbit, i as int)
            &&& escaped.ensures((&orbit[i as int],), true)
        },
        None => {
            &&& orbit.len() == limit
            &&& all_within(escaped, orbit, limit as int)
        },
    }
}

/// `r` is an outcome of iterating `step` from `start` for at most `limit`
/// steps, testing `escaped` before each step.
pub open spec fn is_escape_time<Z, E: Fn(&Z) -> bool, S: Fn(Z) -> Z>(
    start: Z,
    limit: usize,
    escaped: E,
    step: S,
    r: Option<usize>,
) -> bool {
    exists|orbit: Seq<Z>| is_escape_witness(start, limit, escaped, step, r, orbit)
}

/// `f` gives at most one result for each argument.
pub open spec fn single_valued<A, B, F: Fn(A) -> B>(f: F) -> bool {
    forall|a: A, x: B, y: B| f.ensures((a,), x) && f.ensures((a,), y) ==> x == y
}

/// `f` gives at most one result for each argument it is lent.
pub open spec fn single_valued_ref<A, B, F: Fn(&A) -> B>(f: F) -> bool {
    forall|a: A, x: B, y: B| f.ensures((&a,), x) && f.ensures((&a,), y) ==> x == y
}

/// Iterates `step` from `start`, testing `escaped` on each state before
/// stepping from it. Returns the number of steps taken when a state is first
/// found to have escaped, or `None` when the first `limit` states are all
/// within.
pub fn escape_time<Z, E: Fn(&Z) -> bool, S: Fn(Z) -> Z>(
    start: Z,
    limit: usize,
    escaped: E,
    step: S,
) -> (r: Option<usize>)
    requires
        forall|z: Z| escaped.requires((&z,)),
        forall|z: Z| step.requires((z,)),
    ensures
        is_escape_time(start, limit, escaped, step, r),
{
    let mut z = start;
    let mut i: usize = 0;
    let ghost mut seen: Seq<Z> = Seq::empty();
    while i < limit
        invariant
            i <= limit,
            seen.len() == i,
            is_orbit(step, seen.push(z)),
            seen.push(z)[0] == start,
            all_within(escaped, seen, i as int),
            forall|z: Z| escaped.requires((&z,)),
            forall|z: Z| step.requires((z,)),
        decreases limit - i,
    {
        let ghost orbit = seen.push(z);
        if escaped(&z) {
            proof {
                assert(all_within(escaped, orbit, i as int)) by {
                    assert forall|k: int| 0 <= k < i implies escaped.ensures(
                        (&#[trigger] orbit[k],),
                        false,
                    ) by {
                        assert(orbit[k] == seen[k]);
                    }
                }
                assert(is_escape_witness(start, limit, escaped, step, Some(i), orbit));
            }
            return Some(i);
        }
        z = step(z);
        proof {
            assert(all_within(escaped, orbit, i + 1)) by {
                assert forall|k: int| 0 <= k < i + 1 implies escaped.ensures(
                    (&#[trigger] orbit[k],),
                    false,
                ) by {
                    if k < i {
                        assert(orbit[k] == seen[k]);
                    }
                }
            }
            assert(is_orbit(step, orbit.push(z))) by {
                assert forall|k: int| 0 <= k < orbit.push(z).len() - 1 implies step.ensures(
                    (#[trigger] orbit.push(z)[k],),
                    orbit.push(z)[k + 1],
                ) by {
                    if k < i {
                        assert(orbit.push(z)[k] == orbit[k]);
                        assert(orbit.push(z)[k + 1] == orbit[k + 1]);
                    }
                }
            }
            seen = orbit;
        }
        i += 1;
    }
    proof {
        assert(is_orbit(step, seen)) by {
            assert forall|k: int| 0 <= k < seen.len() - 1 implies step.ensures(
                (#[trigger] seen[k],),
                seen[k + 1],
            ) by {
                assert(seen.push(z)[k] == seen[k]);
                assert(seen.push(z)[k + 1] == seen[k + 1]);
            }
        }
        if seen.len() > 0 {
            assert(seen.push(z)[0] == seen[0]);
        }
        assert(is_escape_witness(start, limit, escaped, step, None, seen));
    }
    None
}

/// Two runs from the same start under single-valued `step` agree on every
/// state that both reach.
proof fn lemma_orbits_agree<Z, S: Fn(Z) -> Z>(step: S, a: Seq<Z>, b: Seq<Z>, k: int)
    requires
        single_valued(step),
        is_orbit(step, a),
        is_orbit(step, b),
        0 <= k < a.len(),
        k < b.len(),
        a[0] == b[0],
    ensures
        a[k] == b[k],
    decreases k,
{
    if k > 0 {
        lemma_orbits_agree(step, a, b, k - 1);
        assert(step.ensures((a[k - 1],), a[k]));
        assert(step.ensures((b[k - 1],), b[k]));
    }
}

/// When the step and the test are single-valued, the outcome is determined
/// by the start and the limit.
pub proof fn lemma_escape_time_unique<Z, E: Fn(&Z) -> bool, S: Fn(Z) -> Z>(
    start: Z,
    limit: usize,
    escaped: E,
    step: S,
    r1: Option<usize>,
    r2: Option<usize>,
)
    requires
        single_valued(step),
        single_valued_ref(escaped),
        is_escape_time(start, limit, escaped, step, r1),
        is_escape_time(start, limit, escaped, step, r2),
    ensures
        r1 == r2,
{
    let a = choose|orbit: Seq<Z>| is_escape_witness(start, limit, escaped, step, r1, orbit);
    let b = choose|orbit: Seq<Z>| is_escape_witness(start, limit, escaped, step, r2, orbit);
    // The run that stops first stops at a state that the other run found to
    // be within, unless both stop at the same step.
    match (r1, r2) {
        (Some(i), Some(j)) => {
            if i < j {
                lemma_orbits_agree(step, a, b, i as int);
                assert(escaped.ensures((&b[i as int],), false));
            } else if j < i {
                lemma_orbits_agree(step, a, b, j as int);
                assert(escaped.ensures((&a[j as int],), false));
            }
        },
        (Some(i), None) => {
            lemma_orbits_agree(step, a, b, i as int);
            assert(escaped.ensures((&b[i as int],), false));
        },
        (None, Some(j)) => {
            lemma_orbits_agree(step, a, b, j as int);
            assert(escaped.ensures((&a[j as int],), false));
        },
        (None, None) => {},
    }
}

/// A start that the step maps to itself and that is within never escapes,
/// whatever the limit.
pub proof fn lemma_fixed_point_never_escapes<Z, E: Fn(&Z) -> bool, S: Fn(Z) -> Z>(
    start: Z,
    limit: usize,
    escaped: E,
    step: S,
    r: Option<usize>,
)
    requires
        forall|next: Z| step.ensures((start,), next) ==> next == start,
        forall|b: bool| escaped.ensures((&start,), b) ==> !b,
        is_escape_time(start, limit, escaped, step, r),
    ensures
        r is None,
{
    let orbit = choose|orbit: Seq<Z>| is_escape_witness(start, limit, escaped, step, r, orbit);
    if let Some(i) = r {
        lemma_orbit_of_fixed_point(start, step, orbit, i as int);
    }
}

/// Every state of a run from a fixed point of the step is that point.
proof fn lemma_orbit_of_fixed_point<Z, S: Fn(Z) -> Z>(start: Z, step: S, orbit: Seq<Z>, k: int)
    requires
        forall|next: Z| step.ensures((start,), next) ==> next == start,
        is_orbit(step, orbit),
        0 <= k < orbit.len(),
        orbit[0] == start,
    ensures
        orbit[k] == start,
    decreases k,
{
    if k > 0 {
        lemma_orbit_of_fixed_point(start, step, orbit, k - 1);
        assert(step.ensures((orbit[k - 1],), orbit[k]));
    }
}

/// An escape is never reported before the first test: a start that is
/// within is not reported as escaped at step 0.
pub proof fn lemma_within_start_takes_a_step<Z, E: Fn(&Z) -> bool, S: Fn(Z) -> Z>(
    start: Z,
    limit: usize,
    escaped: E,
    step: S,
    r: Option<usize>,
)
    requires
        forall|b: bool| escaped.ensures((&start,), b) ==> !b,
        is_escape_time(start, limit, escaped, step, r),
    ensures
        r != Some(0usize),
{
}

} // verus!
