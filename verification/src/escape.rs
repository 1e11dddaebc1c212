//! Escape results and the decisions of the escape-time loop.
//!
//! The recurrence itself is iterated by the caller. This module owns what the
//! loop decides: when to stop, and what the count at that moment means.

use vstd::prelude::*;

verus! {

/// What became of one sample point within the iteration budget.
#[derive(Clone, Copy, Debug, PartialEq, Eq, Structural)]
pub enum EscapeResult {
    /// The modulus exceeded the escape radius after this many iterations.
    Escaped(u32),
    /// The budget ran out with the modulus still within the radius.
    Bounded,
}

/// What the loop does next.
#[derive(Clone, Copy, Debug, PartialEq, Eq, Structural)]
pub enum Step {
    /// Apply the recurrence once more; the payload is the new count.
    Iterate(u32),
    /// Stop with this result.
    Stop(EscapeResult),
}

/// The meaning of a final iteration count: a count below the budget is an
/// escape at that count, anything else is a bounded point.
pub open spec fn outcome(iter: u32, max_iter: u32) -> EscapeResult {
    if iter < max_iter {
        EscapeResult::Escaped(iter)
    } else {
        EscapeResult::Bounded
    }
}

/// The decision at the head of the loop, after `iter` completed iterations,
/// given whether the current modulus is still within the escape radius.
pub open spec fn decide(iter: u32, max_iter: u32, within_radius: bool) -> Step {
    if iter < max_iter && within_radius {
        Step::Iterate((iter + 1) as u32)
    } else {
        Step::Stop(outcome(iter, max_iter))
    }
}

/// The result of running the loop from count `iter`, where `within(k)` tells
/// whether the modulus is within the radius after `k` iterations.
pub open spec fn orbit_result(iter: u32, max_iter: u32, within: spec_fn(u32) -> bool) -> EscapeResult
    decreases max_iter - iter,
{
    match decide(iter, max_iter, within(iter)) {
        Step::Iterate(next) => orbit_result(next, max_iter, within),
        Step::Stop(result) => result,
    }
}

/// Turns a final iteration count into an escape result.
pub fn classify(iter: u32, max_iter: u32) -> (result: EscapeResult)
    ensures
        result == outcome(iter, max_iter),
{
    if iter < max_iter {
        EscapeResult::Escaped(iter)
    } else {
        EscapeResult::Bounded
    }
}

/// Decides one round of the escape-time loop.
///
/// The caller starts at count 0 with the orbit at the origin, calls this with
/// the count so far and the outcome of its radius test, and either applies
/// the recurrence and continues with the new count, or stops with the result.
pub fn advance(iter: u32, max_iter: u32, within_radius: bool) -> (step: Step)
    ensures
        step == decide(iter, max_iter, within_radius),
{
    if iter < max_iter && within_radius {
        Step::Iterate(iter + 1)
    } else {
        Step::Stop(classify(iter, max_iter))
    }
}

/// From any count at which every earlier test passed, the loop stops at the
/// first failing test below the budget, and reports that count.
proof fn lemma_orbit_escapes_from(iter: u32, max_iter: u32, within: spec_fn(u32) -> bool, n: u32)
    requires
        iter <= n < max_iter,
        !within(n),
        forall|k: u32| iter <= k < n ==> #[trigger] within(k),
    ensures
        orbit_result(iter, max_iter, within) == EscapeResult::Escaped(n),
    decreases n - iter,
{
    if iter < n {
        lemma_orbit_escapes_from((iter + 1) as u32, max_iter, within, n);
    }
}

/// From any count, a loop whose remaining tests all pass runs out of budget.
proof fn lemma_orbit_bounded_from(iter: u32, max_iter: u32, within: spec_fn(u32) -> bool)
    requires
        forall|k: u32| iter <= k < max_iter ==> #[trigger] within(k),
    ensures
        orbit_result(iter, max_iter, within) == EscapeResult::Bounded,
    decreases max_iter - iter,
{
    if iter < max_iter {
        lemma_orbit_bounded_from((iter + 1) as u32, max_iter, within);
    }
}

/// The loop reports `Escaped(n)` exactly when `n` is below the budget and is
/// the first count at which the modulus is beyond the radius.
pub proof fn lemma_escaped_iff_first_beyond(max_iter: u32, within: spec_fn(u32) -> bool, n: u32)
    ensures
        orbit_result(0, max_iter, within) == EscapeResult::Escaped(n) <==> {
            &&& n < max_iter
            &&& !within(n)
            &&& forall|k: u32| k < n ==> #[trigger] within(k)
        },
{
    if n < max_iter && !within(n) && (forall|k: u32| k < n ==> #[trigger] within(k)) {
        lemma_orbit_escapes_from(0, max_iter, within, n);
    } else if forall|k: u32| k < max_iter ==> #[trigger] within(k) {
        lemma_orbit_bounded_from(0, max_iter, within);
    } else {
        let m = first_beyond(within, max_iter);
        lemma_first_beyond(within, max_iter);
        lemma_orbit_escapes_from(0, max_iter, within, m);
    }
}

/// The loop reports `Bounded` exactly when the modulus stays within the
/// radius at every count below the budget.
pub proof fn lemma_bounded_iff_never_beyond(max_iter: u32, within: spec_fn(u32) -> bool)
    ensures
        orbit_result(0, max_iter, within) == EscapeResult::Bounded <==> forall|k: u32|
            k < max_iter ==> #[trigger] within(k),
{
    if forall|k: u32| k < max_iter ==> #[trigger] within(k) {
        lemma_orbit_bounded_from(0, max_iter, within);
    } else {
        let m = first_beyond(within, max_iter);
        lemma_first_beyond(within, max_iter);
        lemma_orbit_escapes_from(0, max_iter, within, m);
    }
}

/// The least count below `limit` at which the radius test fails, or `limit`
/// when there is none.
spec fn first_beyond(within: spec_fn(u32) -> bool, limit: u32) -> u32
    decreases limit,
{
    if limit == 0 {
        0
    } else {
        let earlier = first_beyond(within, (limit - 1) as u32);
        if earlier < limit - 1 || !within((limit - 1) as u32) {
            earlier
        } else {
            limit
        }
    }
}

proof fn lemma_first_beyond(within: spec_fn(u32) -> bool, limit: u32)
    ensures
        first_beyond(within, limit) <= limit,
        forall|k: u32| k < first_beyond(within, limit) ==> #[trigger] within(k),
        first_beyond(within, limit) < limit ==> !within(
            first_beyond(within, limit),
        ),
    decreases limit,
{
    if limit > 0 {
        lemma_first_beyond(within, (limit - 1) as u32);
    }
}

} // verus!
