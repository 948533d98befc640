//! The escape-time decision rule.
//!
//! For a point `c` of the complex plane the renderer iterates `z := z*z + c`
//! from `z = 0` and watches whether the squared norm of `z` ever exceeds 4
//! (radius 2 is the provable escape radius for this map). The norm test is
//! the only step that needs real arithmetic; everything else is a decision
//! rule over the sequence of test outcomes, and that rule lives here. Entry
//! `i` of the `norm_exceeded` sequence records whether the norm test holds of
//! `z_i`, the orbit value after `i` update steps; the test happens *before*
//! each update, so an escape at entry `n` means `n` updates had already been
//! applied when the orbit first left the circle.

use vstd::prelude::*;

verus! {

/// The outcome of evaluating one point under an iteration limit: either the
/// orbit never provably diverged within the limit (the point is treated as a
/// member of the set), or it escaped after `n` update steps with `n < limit`.
#[derive(Clone, Copy, PartialEq, Eq, Structural, Debug)]
pub enum EscapeResult {
    Inside,
    Escaped(usize),
}

/// The outcome the evaluator owes for these norm tests and this limit: the
/// first of the tests `0 .. limit` that holds, and no escape when none does.
pub open spec fn escape_spec(norm_exceeded: Seq<bool>, limit: int) -> EscapeResult
    recommends
        limit <= norm_exceeded.len(),
    decreases limit,
{
    if limit <= 0 {
        EscapeResult::Inside
    } else if escape_spec(norm_exceeded, limit - 1) is Escaped {
        escape_spec(norm_exceeded, limit - 1)
    } else if norm_exceeded[limit - 1] {
        EscapeResult::Escaped((limit - 1) as usize)
    } else {
        EscapeResult::Inside
    }
}

/// Raising the limit never changes an already-determined escape iteration:
/// an orbit that escapes at step `n` under one limit escapes at that same
/// step under every higher limit.
pub proof fn lemma_escape_monotone(norm_exceeded: Seq<bool>, l1: int, l2: int, n: usize)
    requires
        0 <= l1 <= l2,
        escape_spec(norm_exceeded, l1) == EscapeResult::Escaped(n),
    ensures
        escape_spec(norm_exceeded, l2) == EscapeResult::Escaped(n),
    decreases l2,
{
    if l1 < l2 {
        lemma_escape_monotone(norm_exceeded, l1, l2 - 1, n);
    }
}

/// An orbit whose norm tests never fire is reported inside, whatever the
/// limit: only an observed escape can take a point out of the set.
pub proof fn lemma_bounded_orbit_stays_inside(norm_exceeded: Seq<bool>, limit: int)
    requires
        0 <= limit <= norm_exceeded.len(),
        forall|j: int| 0 <= j < norm_exceeded.len() ==> !norm_exceeded[j],
    ensures
        escape_spec(norm_exceeded, limit) is Inside,
    decreases limit,
{
    if limit > 0 {
        lemma_bounded_orbit_stays_inside(norm_exceeded, limit - 1);
    }
}

/// An orbit already outside the circle after its first update step escapes
/// at iteration 1 under every limit of at least 2: the limit-1 evaluation
/// tests only `z_0 = 0` and cannot see it.
pub proof fn lemma_immediate_escape(norm_exceeded: Seq<bool>, limit: int)
    requires
        2 <= norm_exceeded.len(),
        !norm_exceeded[0],
        norm_exceeded[1],
        2 <= limit,
    ensures
        escape_spec(norm_exceeded, limit) == EscapeResult::Escaped(1),
{
    reveal_with_fuel(escape_spec, 3);
    assert(escape_spec(norm_exceeded, 2) == EscapeResult::Escaped(1));
    lemma_escape_monotone(norm_exceeded, 2, limit, 1);
}

/// Decide the escape outcome from the first `limit` norm tests of an orbit.
///
/// Returns `Escaped(i)` for the first `i < limit` whose test holds, and
/// `Inside` when the budget is consumed without the norm ever exceeding the
/// threshold.
pub fn escape_outcome(norm_exceeded: &Vec<bool>, limit: usize) -> (r: EscapeResult)
    requires
        limit <= norm_exceeded.len(),
    ensures
        r == escape_spec(norm_exceeded@, limit as int),
{
    let mut i: usize = 0;
    while i < limit
        invariant
            i <= limit <= norm_exceeded@.len(),
            escape_spec(norm_exceeded@, i as int) is Inside,
        decreases limit - i,
    {
        if norm_exceeded[i] {
            proof {
                assert(escape_spec(norm_exceeded@, i + 1) == EscapeResult::Escaped(i));
                lemma_escape_monotone(norm_exceeded@, i + 1, limit as int, i);
            }
            return EscapeResult::Escaped(i);
        }
        i = i + 1;
    }
    EscapeResult::Inside
}

} // verus!
