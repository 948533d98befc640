//! Overflow-aware integer routines: bounded growth under repeated
//! multiplication, and the Padovan sequence.

use vstd::prelude::*;

verus! {

/// Ten raised to the `n`th power.
pub open spec fn pow10(n: nat) -> int
    decreases n,
{
    if n == 0 {
        1
    } else {
        10 * pow10((n - 1) as nat)
    }
}

proof fn lemma_pow10_positive(n: nat)
    ensures
        pow10(n) >= 1,
    decreases n,
{
    if n > 0 {
        lemma_pow10_positive((n - 1) as nat);
    }
}

proof fn lemma_pow10_monotone(a: nat, b: nat)
    requires
        a <= b,
    ensures
        1 <= pow10(a) <= pow10(b),
    decreases b,
{
    lemma_pow10_positive(a);
    if a < b {
        lemma_pow10_monotone(a, (b - 1) as nat);
        lemma_pow10_positive((b - 1) as nat);
    }
}

/// Grow a counter from one by repeated checked multiplication by ten, until
/// the next product would no longer fit an `i32`: the largest power of ten an
/// `i32` holds, and the number of multiplications that reached it. A caller
/// that treats the ensuing overflow as fatal fails when this returns.
pub fn b() -> (r: (i32, u32))
    ensures
        r.0 == 1_000_000_000i32,
        r.1 == 9,
{
    let mut i: i32 = 1;
    let mut steps: u32 = 0;
    while i <= 214_748_364
        invariant
            0 <= steps <= 9,
            i == pow10(steps as nat),
            1 <= i <= 1_000_000_000,
        decreases 1_000_000_000 - i,
    {
        proof {
            reveal_with_fuel(pow10, 11);
            if steps == 9 {
                assert(pow10(9) == 1_000_000_000);
                assert(false);
            }
            lemma_pow10_monotone((steps + 1) as nat, 9);
        }
        i = i * 10;
        steps = steps + 1;
    }
    proof {
        reveal_with_fuel(pow10, 11);
        if steps < 9 {
            lemma_pow10_monotone(steps as nat, 8);
            assert(pow10(8) == 100_000_000);
            assert(false);
        }
    }
    (i, steps)
}

/// The Padovan sequence: three ones, then each value is the sum of the
/// values two and three places back.
pub open spec fn padovan_spec(n: int) -> int
    decreases n,
{
    if n < 0 {
        0
    } else if n < 3 {
        1
    } else {
        padovan_spec(n - 2) + padovan_spec(n - 3)
    }
}

proof fn lemma_padovan_nonneg(n: int)
    ensures
        padovan_spec(n) >= 0,
    decreases n,
{
    if n >= 3 {
        lemma_padovan_nonneg(n - 2);
        lemma_padovan_nonneg(n - 3);
    }
}

/// The first `count` values of the Padovan sequence.
pub fn padovan(count: usize) -> (r: Vec<i32>)
    requires
        forall|n: int| 0 <= n < count ==> padovan_spec(n) <= i32::MAX,
    ensures
        r@.len() == count,
        forall|n: int| 0 <= n < count ==> r@[n] == padovan_spec(n),
{
    let mut r: Vec<i32> = Vec::new();
    let mut i: usize = 0;
    while i < count
        invariant
            i == r@.len() <= count,
            forall|n: int| 0 <= n < count ==> padovan_spec(n) <= i32::MAX,
            forall|n: int| 0 <= n < i ==> r@[n] == padovan_spec(n),
        decreases count - i,
    {
        if i < 3 {
            r.push(1);
        } else {
            proof {
                lemma_padovan_nonneg(i - 2);
                lemma_padovan_nonneg(i - 3);
                assert(padovan_spec(i as int) == padovan_spec(i - 2) + padovan_spec(i - 3));
            }
            let next = r[i - 3] + r[i - 2];
            r.push(next);
        }
        i = i + 1;
    }
    r
}

} // verus!
