//! Exact probability tables and their marginal (summed) distributions.
//!
//! A table holds one distribution per retry level.  The value of level
//! `k` at timeslot `t` is the dyadic rational `rows[k][t] / 2^den_exps[k]`.
//! Marginal totals across levels are reported over the table-wide
//! denominator `2^max_exp()`, the coarsest level's denominator.

use vstd::prelude::*;
use vstd::arithmetic::power2::{pow2, lemma_pow2_adds};
use vstd::arithmetic::mul::lemma_mul_inequality;
use crate::sums::{
    seq_sum, lemma_cell_le_range_sum, lemma_pow2_le_max, lemma_pow2_mono, pow2_u64,
};

verus! {

/// An exact probability table: one dyadic-rational distribution per
/// retry level, all rows over the same timeslot domain.
pub struct ProbTable {
    /// Numerators: one row per retry level, indexed by timeslot.
    pub rows: Vec<Vec<u64>>,
    /// Denominator exponents: level `k`'s values are over `2^den_exps[k]`.
    pub den_exps: Vec<u64>,
}

impl ProbTable {
    /// Number of retry levels (rows).
    pub open spec fn levels(self) -> int {
        self.rows.len() as int
    }

    /// Number of timeslots (columns).
    pub open spec fn slots(self) -> int {
        self.rows[0]@.len() as int
    }

    /// The numerator row of level `k`.
    pub open spec fn row(self, k: int) -> Seq<u64> {
        self.rows[k]@
    }

    /// The denominator exponent of level `k`.
    pub open spec fn exp(self, k: int) -> nat {
        self.den_exps[k] as nat
    }

    /// The table-wide denominator exponent: the last (largest) level's.
    pub open spec fn max_exp(self) -> nat {
        self.exp(self.levels() - 1)
    }

    /// Well-formedness: consistent shape, denominator exponents
    /// nondecreasing and small enough that rescaled marginal sums fit
    /// in a machine word, and every row summing to at most one (that
    /// is, its numerators summing to at most its denominator).
    pub open spec fn wf(self) -> bool {
        &&& 1 <= self.levels() <= 64
        &&& self.den_exps.len() == self.rows.len()
        &&& forall|k: int| 0 <= k < self.levels() ==> (#[trigger] self.row(k)).len() == self.slots()
        &&& forall|k: int| 0 <= k < self.levels() ==> #[trigger] self.exp(k) <= 57
        &&& forall|k1: int, k2: int|
            0 <= k1 <= k2 < self.levels() ==> #[trigger] self.exp(k1) <= #[trigger] self.exp(k2)
        &&& forall|k: int| 0 <= k < self.levels() ==> seq_sum(#[trigger] self.row(k)) <= pow2(
            self.exp(k),
        )
    }

    /// Level `k`'s numerator at slot `t`, rescaled to the table-wide
    /// denominator `2^max_exp()`.
    pub open spec fn scaled_cell(self, k: int, t: int) -> int {
        self.row(k)[t] * pow2((self.max_exp() - self.exp(k)) as nat)
    }

    /// Sum of the rescaled values of levels `[k_lo, k_hi)` at slot `t`.
    pub open spec fn level_range_sum(self, t: int, k_lo: int, k_hi: int) -> int
        decreases k_hi - k_lo,
    {
        if k_lo >= k_hi {
            0
        } else {
            self.scaled_cell(k_lo, t) + self.level_range_sum(t, k_lo + 1, k_hi)
        }
    }

    /// The marginal total of slot `t`: every level summed, over
    /// `2^max_exp()`.  This is what a comparison reports.
    pub open spec fn marginal(self, t: int) -> int {
        self.level_range_sum(t, 0, self.levels())
    }

    /// The trailing row total a rendered table shows: levels `1..`
    /// summed, over `2^max_exp()`.  Level 0 (the initial attempt) is
    /// not a printed retry column.
    pub open spec fn render_total(self, t: int) -> int {
        self.level_range_sum(t, 1, self.levels())
    }
}

/// A rescaled cell lies between zero and the table-wide denominator.
proof fn lemma_scaled_cell_bounds(tab: ProbTable, k: int, t: int)
    requires
        tab.wf(),
        0 <= k < tab.levels(),
        0 <= t < tab.slots(),
    ensures
        0 <= tab.scaled_cell(k, t) <= pow2(tab.max_exp()),
        tab.row(k)[t] <= pow2(tab.exp(k)),
{
    let row = tab.row(k);
    lemma_cell_le_range_sum(row, 0, row.len() as int, t);
    assert(row[t] <= seq_sum(row));
    let scale = pow2((tab.max_exp() - tab.exp(k)) as nat);
    vstd::arithmetic::power2::lemma_pow2_pos((tab.max_exp() - tab.exp(k)) as nat);
    lemma_mul_inequality(row[t] as int, pow2(tab.exp(k)) as int, scale as int);
    lemma_pow2_adds(tab.exp(k), (tab.max_exp() - tab.exp(k)) as nat);
    assert(row[t] * scale >= 0) by (nonlinear_arith)
        requires
            row[t] >= 0,
            scale >= 0,
    ;
}

/// Extending a level range on the right adds the new level's cell.
proof fn lemma_level_range_sum_extend(tab: ProbTable, t: int, k_lo: int, k_hi: int)
    requires
        0 <= k_lo <= k_hi,
    ensures
        tab.level_range_sum(t, k_lo, k_hi + 1) == tab.level_range_sum(t, k_lo, k_hi)
            + tab.scaled_cell(k_hi, t),
    decreases k_hi - k_lo,
{
    if k_lo < k_hi {
        lemma_level_range_sum_extend(tab, t, k_lo + 1, k_hi);
    } else {
        assert(tab.level_range_sum(t, k_lo + 1, k_hi + 1) == 0);
    }
}

/// A level range sum of a well-formed table is bounded by the number
/// of levels times the table-wide denominator.
proof fn lemma_level_range_sum_bounds(tab: ProbTable, t: int, k_lo: int, k_hi: int)
    requires
        tab.wf(),
        0 <= k_lo <= k_hi <= tab.levels(),
        0 <= t < tab.slots(),
    ensures
        0 <= tab.level_range_sum(t, k_lo, k_hi) <= (k_hi - k_lo) * pow2(tab.max_exp()),
    decreases k_hi - k_lo,
{
    if k_lo < k_hi {
        lemma_level_range_sum_bounds(tab, t, k_lo + 1, k_hi);
        lemma_scaled_cell_bounds(tab, k_lo, t);
        let cell: int = tab.scaled_cell(k_lo, t);
        let rest: int = tab.level_range_sum(t, k_lo + 1, k_hi);
        let p: int = pow2(tab.max_exp()) as int;
        assert(0 <= cell + rest <= (k_hi - k_lo) * p) by (nonlinear_arith)
            requires
                0 <= cell <= p,
                0 <= rest <= (k_hi - k_lo - 1) * p,
        ;
    } else {
        assert((k_hi - k_lo) * pow2(tab.max_exp()) == 0) by (nonlinear_arith)
            requires
                k_hi == k_lo,
        ;
    }
}

/// Sums the rescaled values of levels `[k_lo, levels)` at every slot.
fn level_sums_from(table: &ProbTable, k_lo: usize) -> (r: Vec<u64>)
    requires
        table.wf(),
        k_lo <= table.levels(),
    ensures
        r@.len() == table.slots(),
        forall|t: int|
            0 <= t < table.slots() ==> r@[t] == table.level_range_sum(
                t,
                k_lo as int,
                table.levels(),
            ),
{
    let slots = table.rows[0].len();
    let levels = table.rows.len();
    let max_exp = table.den_exps[levels - 1];
    let mut r: Vec<u64> = Vec::new();
    proof {
        lemma_pow2_le_max(table.max_exp());
        vstd::arithmetic::power2::lemma2_to64_rest();
        lemma_pow2_mono(table.max_exp(), 57);
    }
    for t in 0..slots
        invariant
            table.wf(),
            k_lo <= table.levels(),
            slots == table.slots(),
            levels == table.levels(),
            max_exp == table.max_exp(),
            pow2(table.max_exp()) <= pow2(57),
            pow2(57) == 0x200_0000_0000_0000,
            r@.len() == t,
            forall|j: int|
                0 <= j < t ==> r@[j] == table.level_range_sum(j, k_lo as int, table.levels()),
    {
        let mut acc: u64 = 0;
        let mut k = k_lo;
        proof {
            lemma_level_range_sum_bounds(*table, t as int, k_lo as int, k_lo as int);
        }
        while k < levels
            invariant
                table.wf(),
                k_lo <= k <= levels,
                levels == table.levels(),
                max_exp == table.max_exp(),
                pow2(table.max_exp()) <= pow2(57),
                pow2(57) == 0x200_0000_0000_0000,
                0 <= t < table.slots(),
                acc == table.level_range_sum(t as int, k_lo as int, k as int),
                acc <= (k - k_lo) * pow2(table.max_exp()),
            decreases levels - k,
        {
            proof {
                lemma_scaled_cell_bounds(*table, k as int, t as int);
                lemma_pow2_mono(
                    (table.max_exp() - table.exp(k as int)) as nat,
                    table.max_exp(),
                );
                lemma_pow2_le_max((table.max_exp() - table.exp(k as int)) as nat);
            }
            let scale = pow2_u64(max_exp - table.den_exps[k]);
            let cell = table.rows[k][t];
            proof {
                lemma_mul_inequality(
                    cell as int,
                    pow2(table.exp(k as int)) as int,
                    pow2((table.max_exp() - table.exp(k as int)) as nat) as int,
                );
                lemma_pow2_adds(
                    table.exp(k as int),
                    (table.max_exp() - table.exp(k as int)) as nat,
                );
                lemma_level_range_sum_extend(*table, t as int, k_lo as int, k as int);
                lemma_level_range_sum_bounds(*table, t as int, k_lo as int, k as int + 1);
                let bound: int = k + 1 - k_lo;
                assert(bound * pow2(table.max_exp()) <= 64 * pow2(57)) by (nonlinear_arith)
                    requires
                        0 <= bound <= 64,
                        0 <= pow2(table.max_exp()) <= pow2(57),
                ;
            }
            let term = cell * scale;
            acc = acc + term;
            k = k + 1;
        }
        r.push(acc);
    }
    r
}

/// The per-slot totals that a rendered table shows: for each timeslot,
/// the sum of the retry columns (levels `1..`), over `2^max_exp()`.
pub fn render_row_sums(table: &ProbTable) -> (r: Vec<u64>)
    requires
        table.wf(),
    ensures
        r@.len() == table.slots(),
        forall|t: int| 0 <= t < table.slots() ==> r@[t] == table.render_total(t),
{
    level_sums_from(table, 1)
}

/// The outcome of comparing two tables: per timeslot, each table's
/// marginal total across all retry levels, each side over its own
/// power-of-two denominator.
pub struct Comparison {
    /// Marginal totals of the first table, over `2^left_den_exp`.
    pub left_sums: Vec<u64>,
    /// Denominator exponent of the first table's totals.
    pub left_den_exp: u64,
    /// Marginal totals of the second table, over `2^right_den_exp`.
    pub right_sums: Vec<u64>,
    /// Denominator exponent of the second table's totals.
    pub right_den_exp: u64,
}

/// Compares two tables over the same timeslot domain: for each slot,
/// the sum across all retry levels of each table, side by side.
/// A length mismatch is a caller contract violation, not an error.
pub fn compare_tables(a: &ProbTable, b: &ProbTable) -> (r: Comparison)
    requires
        a.wf(),
        b.wf(),
        a.slots() == b.slots(),
    ensures
        r.left_sums@.len() == a.slots(),
        r.right_sums@.len() == a.slots(),
        forall|t: int| 0 <= t < a.slots() ==> r.left_sums@[t] == a.marginal(t),
        forall|t: int| 0 <= t < b.slots() ==> r.right_sums@[t] == b.marginal(t),
        r.left_den_exp == a.max_exp(),
        r.right_den_exp == b.max_exp(),
{
    let left_sums = level_sums_from(a, 0);
    let right_sums = level_sums_from(b, 0);
    Comparison {
        left_sums,
        left_den_exp: a.den_exps[a.den_exps.len() - 1],
        right_sums,
        right_den_exp: b.den_exps[b.den_exps.len() - 1],
    }
}

/// Nothing is lost through the comparison path: a slot's marginal
/// total is the rendered row total plus level 0's rescaled mass, so
/// wherever level 0 carries no mass the two totals agree exactly.
pub proof fn lemma_compare_matches_render(tab: ProbTable, t: int)
    requires
        tab.wf(),
        0 <= t < tab.slots(),
    ensures
        tab.marginal(t) == tab.scaled_cell(0, t) + tab.render_total(t),
        tab.row(0)[t] == 0 ==> tab.marginal(t) == tab.render_total(t),
{
    if tab.row(0)[t] == 0 {
        let scale: int = pow2((tab.max_exp() - tab.exp(0)) as nat) as int;
        assert(0 * scale == 0) by (nonlinear_arith);
    }
}

} // verus!
