//! The escape-time iteration: how long the orbit of a point under a
//! recurrence stays bounded.
//!
//! The arithmetic of the plane is the caller's: `step` computes the next term
//! of the orbit from the current term and the point, and `diverged` tells
//! whether a term has left the bounded region. What is decided here is the
//! index of the first term that left, or that none of the terms within the
//! limit did.

use vstd::prelude::*;

verus! {

/// Whether `orbit` is a run of the recurrence for the point `c`: it starts
/// at `origin`, and each further term is one that `step` gave for the term
/// before it.
pub open spec fn is_orbit<P, S: Fn(P, P) -> P>(step: S, c: P, origin: P, orbit: Seq<P>) -> bool {
    &&& orbit.len() >= 1
    &&& orbit[0] == origin
    &&& forall|n: int|
        0 <= n < orbit.len() - 1 ==> step.ensures((orbit[n], c), #[trigger] orbit[n + 1])
}

/// Whether `diverged` answered "no" for each of the terms 1 to `steps` of the
/// orbit.
pub open spec fn stays_bounded<P, D: Fn(P) -> bool>(diverged: D, orbit: Seq<P>, steps: int) -> bool {
    forall|n: int| 1 <= n <= steps ==> diverged.ensures((#[trigger] orbit[n],), false)
}

/// Whether `verdict` is a verdict of the iteration for the point `c` within
/// `limit` steps.
///
/// `Some(i)` says that an orbit took `i` steps without leaving and left with
/// step `i + 1`, where `i` is below the limit; so `Some(0)` is an orbit whose
/// first step left. `None` says that an orbit took `limit` steps without
/// leaving.
pub open spec fn is_verdict<P, S: Fn(P, P) -> P, D: Fn(P) -> bool>(
    step: S,
    diverged: D,
    c: P,
    origin: P,
    limit: u32,
    verdict: Option<u32>,
) -> bool {
    match verdict {
        Some(i) => i < limit && exists|orbit: Seq<P>|
            #![trigger is_orbit(step, c, origin, orbit)]
            orbit.len() == i + 2 && is_orbit(step, c, origin, orbit) && stays_bounded(
                diverged,
                orbit,
                i as int,
            ) && diverged.ensures((orbit[i + 1],), true),
        None => exists|orbit: Seq<P>|
            #![trigger is_orbit(step, c, origin, orbit)]
            orbit.len() == limit + 1 && is_orbit(step, c, origin, orbit) && stays_bounded(
                diverged,
                orbit,
                limit as int,
            ),
    }
}

/// Whether `step` and `diverged` can be called as far as the iteration goes:
/// `step` accepts the last term of every orbit that has stayed bounded and is
/// short of the limit, and `diverged` accepts every term that a step adds to
/// such an orbit.
pub open spec fn can_iterate<P, S: Fn(P, P) -> P, D: Fn(P) -> bool>(
    step: S,
    diverged: D,
    c: P,
    origin: P,
    limit: u32,
) -> bool {
    &&& forall|orbit: Seq<P>|
        #[trigger] is_orbit(step, c, origin, orbit) && orbit.len() <= limit && stays_bounded(
            diverged,
            orbit,
            orbit.len() - 1,
        ) ==> step.requires((orbit.last(), c))
    &&& forall|orbit: Seq<P>|
        #[trigger] is_orbit(step, c, origin, orbit) && 2 <= orbit.len() <= limit + 1
            && stays_bounded(diverged, orbit, orbit.len() - 2) ==> diverged.requires(
            (orbit.last(),),
        )
}

/// Iterates the recurrence for the point `c`, starting at `origin`, for at
/// most `limit` steps, and reports when the orbit left the bounded region.
///
/// After each step the new term is put to `diverged`; the first time it says
/// yes, the number of steps taken before that one is returned. When `limit`
/// steps have been taken without a yes, the result is `None`.
pub fn escape_time<P, S, D>(c: P, limit: u32, origin: P, step: S, diverged: D) -> (verdict: Option<
    u32,
>) where P: Copy, S: Fn(P, P) -> P, D: Fn(P) -> bool
    requires
        can_iterate(step, diverged, c, origin, limit),
    ensures
        is_verdict(step, diverged, c, origin, limit, verdict),
{
    let mut z = origin;
    let ghost mut orbit = seq![origin];
    let mut i: u32 = 0;
    while i < limit
        invariant
            i <= limit,
            orbit.len() == i + 1,
            is_orbit(step, c, origin, orbit),
            orbit[i as int] == z,
            stays_bounded(diverged, orbit, i as int),
            can_iterate(step, diverged, c, origin, limit),
        decreases limit - i,
    {
        let ghost before = orbit;
        z = step(z, c);
        proof {
            orbit = before.push(z);
            assert forall|n: int| 0 <= n < orbit.len() - 1 implies step.ensures(
                (orbit[n], c),
                #[trigger] orbit[n + 1],
            ) by {
                if n < i {
                    assert(orbit[n] == before[n] && orbit[n + 1] == before[n + 1]);
                }
            }
            assert forall|n: int| 1 <= n <= i implies diverged.ensures(
                (#[trigger] orbit[n],),
                false,
            ) by {
                assert(orbit[n] == before[n]);
            }
        }
        assert(is_orbit(step, c, origin, orbit));
        assert(orbit[i + 1] == z);
        if diverged(z) {
            assert(stays_bounded(diverged, orbit, i as int));
            assert(orbit.len() == i + 2);
            return Some(i);
        }
        i += 1;
    }
    None
}

/// In an orbit that starts at a point which every step leaves in place, all
/// the terms are that point.
proof fn lemma_orbit_at_rest<P, S: Fn(P, P) -> P>(step: S, c: P, origin: P, orbit: Seq<P>, n: int)
    requires
        is_orbit(step, c, origin, orbit),
        forall|z: P| step.ensures((origin, c), z) ==> z == origin,
        0 <= n < orbit.len(),
    ensures
        orbit[n] == origin,
    decreases n,
{
    if n > 0 {
        lemma_orbit_at_rest(step, c, origin, orbit, n - 1);
        assert(step.ensures((orbit[n - 1], c), orbit[n - 1 + 1]));
    }
}

/// A point whose orbit rests at the origin never escapes: when every step
/// from `origin` gives `origin` again, and `origin` has not left the bounded
/// region, the verdict is `None` whatever the limit.
pub proof fn lemma_rest_never_escapes<P, S: Fn(P, P) -> P, D: Fn(P) -> bool>(
    step: S,
    diverged: D,
    c: P,
    origin: P,
    limit: u32,
    verdict: Option<u32>,
)
    requires
        is_verdict(step, diverged, c, origin, limit, verdict),
        forall|z: P| step.ensures((origin, c), z) ==> z == origin,
        !diverged.ensures((origin,), true),
    ensures
        verdict is None,
{
    if let Some(i) = verdict {
        let orbit = choose|orbit: Seq<P>|
            #![trigger is_orbit(step, c, origin, orbit)]
            orbit.len() == i + 2 && is_orbit(step, c, origin, orbit) && stays_bounded(
                diverged,
                orbit,
                i as int,
            ) && diverged.ensures((orbit[i + 1],), true);
        lemma_orbit_at_rest(step, c, origin, orbit, i + 1);
    }
}

/// A point whose first step already leaves the bounded region escapes at
/// once: when `diverged` says yes to every term that a step from `origin`
/// gives, and the limit is positive, the verdict is `Some(0)`.
pub proof fn lemma_first_step_escapes<P, S: Fn(P, P) -> P, D: Fn(P) -> bool>(
    step: S,
    diverged: D,
    c: P,
    origin: P,
    limit: u32,
    verdict: Option<u32>,
)
    requires
        is_verdict(step, diverged, c, origin, limit, verdict),
        forall|z: P| step.ensures((origin, c), z) ==> !diverged.ensures((z,), false),
        limit >= 1,
    ensures
        verdict == Some(0u32),
{
    match verdict {
        Some(i) => {
            let orbit = choose|orbit: Seq<P>|
                #![trigger is_orbit(step, c, origin, orbit)]
                orbit.len() == i + 2 && is_orbit(step, c, origin, orbit) && stays_bounded(
                    diverged,
                    orbit,
                    i as int,
                ) && diverged.ensures((orbit[i + 1],), true);
            assert(step.ensures((orbit[0], c), orbit[0int + 1]));
            if i >= 1 {
                assert(diverged.ensures((orbit[1],), false));
            }
        },
        None => {
            let orbit = choose|orbit: Seq<P>|
                #![trigger is_orbit(step, c, origin, orbit)]
                orbit.len() == limit + 1 && is_orbit(step, c, origin, orbit) && stays_bounded(
                    diverged,
                    orbit,
                    limit as int,
                );
            assert(step.ensures((orbit[0], c), orbit[0int + 1]));
            assert(diverged.ensures((orbit[1],), false));
        },
    }
}

/// A verdict of escape always names a step within the limit, so it can be
/// told from the verdict that the orbit stayed bounded; and with a limit of
/// zero no step is taken and the verdict is `None`.
pub proof fn lemma_verdict_within_limit<P, S: Fn(P, P) -> P, D: Fn(P) -> bool>(
    step: S,
    diverged: D,
    c: P,
    origin: P,
    limit: u32,
    verdict: Option<u32>,
)
    requires
        is_verdict(step, diverged, c, origin, limit, verdict),
    ensures
        verdict matches Some(i) ==> i < limit,
        limit == 0 ==> verdict is None,
{
}

} // verus!
