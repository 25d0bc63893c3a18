//! Integer summation over sequences, and small executable powers of two.
//!
//! Probability values in this crate are dyadic rationals: an integer
//! numerator over a power-of-two denominator.  All distribution sums are
//! therefore plain integer sums of numerators, defined here.

use vstd::prelude::*;
use vstd::arithmetic::power2::{pow2, lemma_pow2_adds, lemma_pow2_pos, lemma_pow2_unfold};

verus! {

/// Sum of the values of `s` over the index range `[lo, hi)`.
/// Empty or reversed ranges sum to zero.
pub open spec fn range_sum(s: Seq<u64>, lo: int, hi: int) -> int
    decreases hi - lo,
{
    if lo >= hi {
        0
    } else {
        s[lo] + range_sum(s, lo + 1, hi)
    }
}

/// Sum of all values of `s`.
pub open spec fn seq_sum(s: Seq<u64>) -> int {
    range_sum(s, 0, s.len() as int)
}

pub proof fn lemma_range_sum_nonneg(s: Seq<u64>, lo: int, hi: int)
    requires
        0 <= lo,
        hi <= s.len(),
    ensures
        range_sum(s, lo, hi) >= 0,
    decreases hi - lo,
{
    if lo < hi {
        lemma_range_sum_nonneg(s, lo + 1, hi);
    }
}

/// Extending a range on the right adds the new last element.
pub proof fn lemma_range_sum_extend(s: Seq<u64>, lo: int, hi: int)
    requires
        0 <= lo <= hi < s.len(),
    ensures
        range_sum(s, lo, hi + 1) == range_sum(s, lo, hi) + s[hi],
    decreases hi - lo,
{
    if lo < hi {
        lemma_range_sum_extend(s, lo + 1, hi);
        assert(range_sum(s, lo, hi) == s[lo] + range_sum(s, lo + 1, hi));
        assert(range_sum(s, lo, hi + 1) == s[lo] + range_sum(s, lo + 1, hi + 1));
    } else {
        assert(range_sum(s, lo + 1, hi + 1) == 0);
        assert(range_sum(s, lo, hi + 1) == s[lo] + range_sum(s, lo + 1, hi + 1));
    }
}

/// A range sum splits at any midpoint.
pub proof fn lemma_range_sum_split(s: Seq<u64>, lo: int, mid: int, hi: int)
    requires
        0 <= lo <= mid <= hi <= s.len(),
    ensures
        range_sum(s, lo, hi) == range_sum(s, lo, mid) + range_sum(s, mid, hi),
    decreases mid - lo,
{
    if lo < mid {
        lemma_range_sum_split(s, lo + 1, mid, hi);
    }
}

/// A sub-range never sums to more than the whole sequence.
pub proof fn lemma_range_sum_le_total(s: Seq<u64>, lo: int, hi: int)
    requires
        0 <= lo <= hi <= s.len(),
    ensures
        range_sum(s, lo, hi) <= seq_sum(s),
    decreases lo,
{
    lemma_range_sum_split(s, 0, lo, s.len() as int);
    lemma_range_sum_split(s, lo, hi, s.len() as int);
    lemma_range_sum_nonneg(s, 0, lo);
    lemma_range_sum_nonneg(s, hi, s.len() as int);
}

/// A single element never exceeds a range sum that covers it.
pub proof fn lemma_cell_le_range_sum(s: Seq<u64>, lo: int, hi: int, i: int)
    requires
        0 <= lo <= i < hi <= s.len(),
    ensures
        s[i] <= range_sum(s, lo, hi),
    decreases i - lo,
{
    if lo < i {
        lemma_cell_le_range_sum(s, lo + 1, hi, i);
    } else {
        lemma_range_sum_nonneg(s, lo + 1, hi);
    }
}

/// Updating one position shifts a covering range sum by the difference,
/// and leaves ranges that miss the position unchanged.
pub proof fn lemma_range_sum_update(s: Seq<u64>, i: int, v: u64, lo: int, hi: int)
    requires
        0 <= lo,
        hi <= s.len(),
        0 <= i < s.len(),
    ensures
        range_sum(s.update(i, v), lo, hi) == range_sum(s, lo, hi) + if lo <= i < hi {
            v - s[i]
        } else {
            0
        },
    decreases hi - lo,
{
    if lo < hi {
        lemma_range_sum_update(s, i, v, lo + 1, hi);
    }
}

/// A range of equal values sums to value times length.
pub proof fn lemma_range_sum_constant(s: Seq<u64>, lo: int, hi: int, c: u64)
    requires
        0 <= lo <= hi <= s.len(),
        forall|j: int| lo <= j < hi ==> s[j] == c,
    ensures
        range_sum(s, lo, hi) == c * (hi - lo),
    decreases hi - lo,
{
    if lo < hi {
        lemma_range_sum_constant(s, lo + 1, hi, c);
        assert(s[lo] == c);
        assert(range_sum(s, lo, hi) == s[lo] + range_sum(s, lo + 1, hi));
        let total: int = range_sum(s, lo, hi);
        let rest: int = range_sum(s, lo + 1, hi);
        assert(total == c * (hi - lo)) by (nonlinear_arith)
            requires
                total == c + rest,
                rest == c * (hi - lo - 1),
        ;
    } else {
        assert(c * (hi - lo) == 0) by (nonlinear_arith)
            requires
                hi == lo,
        ;
    }
}

/// If every element of the range but possibly `p` is zero, the range
/// sums to the element at `p` when covered, and to zero otherwise.
pub proof fn lemma_range_sum_point(s: Seq<u64>, lo: int, hi: int, p: int)
    requires
        0 <= lo <= hi <= s.len(),
        0 <= p < s.len(),
        forall|j: int| lo <= j < hi && j != p ==> s[j] == 0,
    ensures
        range_sum(s, lo, hi) == if lo <= p < hi {
            s[p]
        } else {
            0
        },
    decreases hi - lo,
{
    if lo < hi {
        lemma_range_sum_point(s, lo + 1, hi, p);
    }
}

/// Two sequences that agree on a range have the same sum over it.
pub proof fn lemma_range_sum_congruent(s1: Seq<u64>, s2: Seq<u64>, lo: int, hi: int)
    requires
        0 <= lo,
        hi <= s1.len(),
        hi <= s2.len(),
        forall|j: int| lo <= j < hi ==> s1[j] == s2[j],
    ensures
        range_sum(s1, lo, hi) == range_sum(s2, lo, hi),
    decreases hi - lo,
{
    if lo < hi {
        lemma_range_sum_congruent(s1, s2, lo + 1, hi);
    }
}

/// Appending an element adds it to the total.
pub proof fn lemma_seq_sum_push(s: Seq<u64>, v: u64)
    ensures
        seq_sum(s.push(v)) == seq_sum(s) + v,
{
    let t = s.push(v);
    lemma_range_sum_congruent(t, s, 0, s.len() as int);
    lemma_range_sum_extend(t, 0, s.len() as int);
}

/// `2^e` as a machine integer, for the small exponents this crate uses.
pub fn pow2_u64(e: u64) -> (r: u64)
    requires
        e <= 63,
    ensures
        r == pow2(e as nat),
{
    let mut i: u64 = 0;
    let mut r: u64 = 1;
    proof {
        vstd::arithmetic::power2::lemma2_to64();
        lemma_pow2_le_max(e as nat);
    }
    while i < e
        invariant
            i <= e <= 63,
            r == pow2(i as nat),
            pow2(e as nat) <= u64::MAX,
        decreases e - i,
    {
        proof {
            lemma_pow2_unfold((i + 1) as nat);
            lemma_pow2_mono((i + 1) as nat, e as nat);
        }
        r = r * 2;
        i = i + 1;
    }
    r
}

/// `2^e` as a `usize`, for the small table lengths this crate builds.
pub fn pow2_usize(e: usize) -> (r: usize)
    requires
        e <= 11,
    ensures
        r == pow2(e as nat),
{
    let mut i: usize = 0;
    let mut r: usize = 1;
    proof {
        vstd::arithmetic::power2::lemma2_to64();
        lemma_pow2_mono(e as nat, 11);
    }
    while i < e
        invariant
            i <= e <= 11,
            r == pow2(i as nat),
            pow2(e as nat) <= 0x800,
        decreases e - i,
    {
        proof {
            lemma_pow2_unfold((i + 1) as nat);
            lemma_pow2_mono((i + 1) as nat, e as nat);
        }
        r = r * 2;
        i = i + 1;
    }
    r
}

/// `2^e` fits in a `u64` whenever `e <= 63`.
pub proof fn lemma_pow2_le_max(e: nat)
    requires
        e <= 63,
    ensures
        pow2(e) <= 0x8000_0000_0000_0000,
{
    lemma_pow2_mono(e, 63);
    vstd::arithmetic::power2::lemma2_to64_rest();
}

/// `pow2` is monotone.
pub proof fn lemma_pow2_mono(e1: nat, e2: nat)
    requires
        e1 <= e2,
    ensures
        pow2(e1) <= pow2(e2),
{
    lemma_pow2_adds(e1, (e2 - e1) as nat);
    lemma_pow2_pos((e2 - e1) as nat);
    assert(pow2(e1) * 1 <= pow2(e1) * pow2((e2 - e1) as nat)) by (nonlinear_arith)
        requires
            pow2((e2 - e1) as nat) >= 1,
            pow2(e1) >= 0,
    ;
}

} // verus!
