//! Binomial coefficients and Stirling numbers of the second kind.

use stirling_numbers::stirling2_table;
use vstd::prelude::*;

verus! {

/// The largest degree bound whose Stirling numbers fit in a `u64`.
pub const MAX_DEGREE: usize = 26;

/// Stirling numbers of the second kind, by their recurrence.
pub open spec fn stirling2(n: nat, k: nat) -> int
    decreases n,
{
    if k > n {
        0
    } else if k == n {
        1
    } else if k == 0 {
        0
    } else {
        k * stirling2((n - 1) as nat, k) + stirling2((n - 1) as nat, (k - 1) as nat)
    }
}

/// Binomial coefficients, by Pascal's rule.
pub open spec fn binom(n: nat, k: nat) -> int
    decreases n,
{
    if k > n {
        0
    } else if k == 0 || k == n {
        1
    } else {
        binom((n - 1) as nat, (k - 1) as nat) + binom((n - 1) as nat, k)
    }
}

pub open spec fn pow2(n: nat) -> int
    decreases n,
{
    if n == 0 {
        1
    } else {
        2 * pow2((n - 1) as nat)
    }
}

/// Every binomial coefficient of row `n` lies in `[0, 2^n]`.
pub proof fn lemma_binom_bound(n: nat, k: nat)
    ensures
        0 <= binom(n, k) <= pow2(n),
    decreases n,
{
    if k <= n && k != 0 && k != n {
        lemma_binom_bound((n - 1) as nat, (k - 1) as nat);
        lemma_binom_bound((n - 1) as nat, k);
    } else if n > 0 {
        lemma_pow2_pos((n - 1) as nat);
    }
}

proof fn lemma_pow2_pos(n: nat)
    ensures
        pow2(n) >= 1,
    decreases n,
{
    if n > 0 {
        lemma_pow2_pos((n - 1) as nat);
    }
}

proof fn lemma_pow2_mono(a: nat, b: nat)
    requires
        a <= b,
    ensures
        pow2(a) <= pow2(b),
    decreases b,
{
    lemma_pow2_pos(a);
    if a < b {
        lemma_pow2_mono(a, (b - 1) as nat);
    }
}

/// Relies on `stirling_numbers::stirling2_table`: its last row, `S(d, 0..=d)`,
/// computed in `u64` (no entry overflows up to `MAX_DEGREE`).
#[verifier::external_body]
pub fn stirling_row(d: usize) -> (r: Vec<u64>)
    requires
        d <= MAX_DEGREE,
    ensures
        r@.len() == d + 1,
        forall|k: int| 0 <= k <= d ==> r@[k] as int == stirling2(d as nat, k as nat),
{
    stirling2_table::<u64>(d).last().cloned().unwrap_or_default()
}

/// Row `n` of Pascal's triangle: `C(n, 0..=n)`.
pub fn binomial_row(n: usize) -> (r: Vec<u64>)
    requires
        n <= MAX_DEGREE,
    ensures
        r@.len() == n + 1,
        forall|k: int| 0 <= k <= n ==> r@[k] as int == binom(n as nat, k as nat),
{
    let mut row: Vec<u64> = vec![1u64];
    let mut m: usize = 0;
    while m < n
        invariant
            m <= n <= MAX_DEGREE,
            row@.len() == m + 1,
            forall|k: int| 0 <= k <= m ==> row@[k] as int == binom(m as nat, k as nat),
        decreases n - m,
    {
        let mut next: Vec<u64> = vec![1u64];
        let mut k: usize = 1;
        while k <= m
            invariant
                1 <= k <= m + 1,
                m < n <= MAX_DEGREE,
                row@.len() == m + 1,
                forall|i: int| 0 <= i <= m ==> row@[i] as int == binom(m as nat, i as nat),
                next@.len() == k,
                forall|i: int| 0 <= i < k ==> next@[i] as int == binom((m + 1) as nat, i as nat),
            decreases m + 1 - k,
        {
            proof {
                lemma_binom_bound(m as nat, (k - 1) as nat);
                lemma_binom_bound(m as nat, k as nat);
                lemma_pow2_mono(m as nat, 26);
                assert(pow2(26) == 67108864) by {
                    reveal_with_fuel(pow2, 27);
                }
            }
            next.push(row[k - 1] + row[k]);
            k += 1;
        }
        next.push(1u64);
        m += 1;
        row = next;
    }
    row
}

} // verus!
