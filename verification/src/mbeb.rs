//! Modified binary exponential backoff: each retry waits out the whole
//! cumulative window of the retries before it.
//!
//! Level `k` does not depend on level `k - 1`: its entire mass is
//! placed uniformly over the `2^k` timeslots starting at `2^k - 1`,
//! the first slot past the union of all earlier contention windows.
//! Every level therefore sums to exactly one: `2^k` slots each worth
//! `1 / 2^k`, with no mass ever truncated.

use vstd::prelude::*;
use vstd::arithmetic::power2::{pow2, lemma_pow2_pos, lemma_pow2_unfold};
use crate::sums::{
    seq_sum, lemma_range_sum_constant, lemma_range_sum_split, lemma_pow2_mono, pow2_usize,
};
use crate::table::ProbTable;
use crate::beb::MAX_RETRIES;
use crate::ConfigError;

verus! {

/// The defining shape of an MBEB table: level `k` holds the value
/// `1 / 2^k` on exactly the timeslots `[2^k - 1, 2^k - 1 + 2^k)` and
/// zero elsewhere, so each level sums to exactly one.
pub open spec fn is_mbeb_table(tab: ProbTable, retries: int) -> bool {
    &&& tab.wf()
    &&& tab.levels() == retries + 1
    &&& tab.slots() == pow2((retries + 1) as nat)
    &&& forall|k: int| 0 <= k <= retries ==> #[trigger] tab.exp(k) == k
    &&& forall|k: int, t: int|
        0 <= k <= retries && 0 <= t < tab.slots() ==> #[trigger] tab.row(k)[t] == if pow2(k as nat)
            - 1 <= t < 2 * pow2(k as nat) - 1 {
            1u64
        } else {
            0u64
        }
    &&& forall|k: int| 0 <= k <= retries ==> seq_sum(#[trigger] tab.row(k)) == pow2(k as nat)
}

/// Builds the MBEB probability table for `retries` retry levels over
/// `2^(retries + 1)` timeslots.  Level `k` places its whole mass
/// uniformly on the window `[2^k - 1, 2^k - 1 + 2^k)`; unlike BEB no
/// mass is ever dropped, so every level sums to exactly one.
/// A retry count of zero is rejected; one above [`MAX_RETRIES`] is
/// excluded by contract so the shared table shape matches BEB's.
pub fn generate_mbeb(retries: usize) -> (r: Result<ProbTable, ConfigError>)
    requires
        retries <= MAX_RETRIES,
    ensures
        retries == 0 <==> r is Err,
        r matches Err(e) ==> e == ConfigError::RetryCountZero,
        r matches Ok(tab) ==> is_mbeb_table(tab, retries as int),
{
    if retries == 0 {
        return Err(ConfigError::RetryCountZero);
    }
    let slots = pow2_usize(retries + 1);
    let mut rows: Vec<Vec<u64>> = Vec::new();
    let mut den_exps: Vec<u64> = Vec::new();

    let mut k: usize = 0;
    while k <= retries
        invariant
            1 <= retries <= 10,
            slots == pow2((retries + 1) as nat),
            k <= retries + 1,
            rows@.len() == k,
            den_exps@.len() == k,
            forall|j: int| 0 <= j < k ==> (#[trigger] rows@[j])@.len() == slots,
            forall|j: int| 0 <= j < k ==> #[trigger] den_exps@[j] == j,
            forall|j: int, t: int|
                0 <= j < k && 0 <= t < slots ==> #[trigger] rows@[j]@[t] == if pow2(j as nat) - 1
                    <= t < 2 * pow2(j as nat) - 1 {
                    1u64
                } else {
                    0u64
                },
            forall|j: int| 0 <= j < k ==> seq_sum((#[trigger] rows@[j])@) == pow2(j as nat),
        decreases retries + 1 - k,
    {
        let smear = pow2_usize(k);
        proof {
            lemma_pow2_pos(k as nat);
        }
        let start = smear - 1;
        proof {
            // The window ends inside the table: 2^(k+1) - 1 <= 2^(retries+1).
            lemma_pow2_unfold((k + 1) as nat);
            lemma_pow2_mono((k + 1) as nat, (retries + 1) as nat);
        }
        let end = start + smear;

        let mut row: Vec<u64> = Vec::new();
        let mut t: usize = 0;
        while t < slots
            invariant
                start == pow2(k as nat) - 1,
                end == 2 * pow2(k as nat) - 1,
                end <= slots,
                t <= slots,
                row@.len() == t,
                forall|i: int|
                    0 <= i < t ==> row@[i] == if start <= i < end {
                        1u64
                    } else {
                        0u64
                    },
            decreases slots - t,
        {
            if start <= t && t < end {
                row.push(1);
            } else {
                row.push(0);
            }
            t = t + 1;
        }
        proof {
            lemma_range_sum_split(row@, 0, start as int, slots as int);
            lemma_range_sum_split(row@, start as int, end as int, slots as int);
            lemma_range_sum_constant(row@, 0, start as int, 0);
            lemma_range_sum_constant(row@, start as int, end as int, 1);
            lemma_range_sum_constant(row@, end as int, slots as int, 0);
            assert(seq_sum(row@) == pow2(k as nat));
        }
        rows.push(row);
        den_exps.push(k as u64);
        k = k + 1;
    }

    let tab = ProbTable { rows, den_exps };
    proof {
        assert forall|j: int| 0 <= j < tab.levels() implies seq_sum(#[trigger] tab.row(j)) <= pow2(
            tab.exp(j),
        ) by {
            assert(tab.row(j) == rows@[j]@);
        }
        assert(tab.wf());
    }
    Ok(tab)
}

} // verus!
