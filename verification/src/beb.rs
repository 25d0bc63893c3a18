//! Binary exponential backoff: the exact per-retry timing table.
//!
//! Level 0 is a point mass at timeslot 0.  Each later level `k` smears
//! the previous level's distribution forward: every slot of mass at
//! index `idx` is spread uniformly over the `2^k` slots that follow it.
//! Numerators of level `k` are held over the denominator
//! `2^(1 + 2 + ... + k)`, so the smear is a pure integer window sum and
//! every table is exact.  Mass that would smear past the end of the
//! table is dropped, exactly as the window bound states.

use vstd::prelude::*;
use vstd::arithmetic::power2::{pow2, lemma_pow2_adds, lemma_pow2_pos, lemma_pow2_unfold};
use crate::sums::{
    range_sum, seq_sum, lemma_range_sum_extend, lemma_range_sum_le_total, lemma_range_sum_update,
    lemma_seq_sum_push, lemma_pow2_le_max, lemma_pow2_mono, pow2_usize,
};
use crate::table::ProbTable;
use crate::ConfigError;

verus! {

/// The largest retry count whose level denominators, `2^(k(k+1)/2)`,
/// still fit in a machine word.
pub const MAX_RETRIES: usize = 10;

/// Denominator exponent of BEB level `k`: one doubling per retry,
/// `1 + 2 + ... + k = k(k+1)/2`.
pub open spec fn beb_exp(k: nat) -> nat {
    k * (k + 1) / 2
}

/// First source index whose smear window reaches slot `t`.
pub open spec fn beb_win_lo(t: int, smear: int) -> int {
    if t > smear {
        t - smear
    } else {
        0
    }
}

/// One past the last source index whose smear window reaches slot `t`.
/// Sources at `len - smear - 1` and beyond are excluded: their windows
/// would spill past the end of the table, so their mass is dropped.
pub open spec fn beb_win_hi(t: int, smear: int, len: int) -> int {
    if t < len - smear - 1 {
        t
    } else {
        len - smear - 1
    }
}

/// The defining shape of a BEB table for a given retry count: a point
/// mass at level 0, and each later level's slot holding the window sum
/// of the previous level (its numerators being over a denominator
/// `2^k` times finer), together with the exact row-sum recurrence that
/// documents the mass dropped at the table edge.
pub open spec fn is_beb_table(tab: ProbTable, retries: int) -> bool {
    &&& tab.wf()
    &&& tab.levels() == retries + 1
    &&& tab.slots() == pow2((retries + 1) as nat)
    &&& forall|k: int| 0 <= k <= retries ==> #[trigger] tab.exp(k) == beb_exp(k as nat)
    &&& tab.row(0)[0] == 1
    &&& forall|t: int| 1 <= t < tab.slots() ==> tab.row(0)[t] == 0
    &&& seq_sum(tab.row(0)) == 1
    &&& forall|k: int, t: int|
        1 <= k <= retries && 0 <= t < tab.slots() ==> #[trigger] tab.row(k)[t] == range_sum(
            tab.row(k - 1),
            beb_win_lo(t, pow2(k as nat) as int),
            beb_win_hi(t, pow2(k as nat) as int, tab.slots()),
        )
    &&& forall|k: int|
        1 <= k <= retries ==> seq_sum(#[trigger] tab.row(k)) == pow2(k as nat) * range_sum(
            tab.row(k - 1),
            0,
            tab.slots() - pow2(k as nat) - 1,
        )
}

/// The sources counted so far: the window sum of slot `t`, cut off at
/// source index `done`.
spec fn partial_win(prev: Seq<u64>, t: int, smear: int, len: int, done: int) -> int {
    let hi = beb_win_hi(t, smear, len);
    range_sum(
        prev,
        beb_win_lo(t, smear),
        if hi < done {
            hi
        } else {
            done
        },
    )
}

/// Slots outside a source's window do not change when that source is
/// counted.
proof fn lemma_partial_win_stable(prev: Seq<u64>, t: int, smear: int, len: int, idx: int)
    requires
        2 <= smear,
        smear + 1 < len,
        prev.len() == len,
        0 <= idx < len - smear - 1,
        0 <= t < len,
        t <= idx || t > idx + smear,
    ensures
        partial_win(prev, t, smear, len, idx + 1) == partial_win(prev, t, smear, len, idx),
{
    let lo = beb_win_lo(t, smear);
    let hi = beb_win_hi(t, smear, len);
    if t <= idx {
        assert(hi <= idx);
    } else {
        assert(lo == t - smear);
        assert(range_sum(prev, lo, if hi < idx { hi } else { idx }) == 0);
        assert(range_sum(prev, lo, if hi < idx + 1 { hi } else { idx + 1 }) == 0);
    }
}

/// One smear step: spreads each in-range slot of `prev` uniformly over
/// the `smear` slots that follow it.  The result's slot `t` is the
/// window sum of `prev` over the sources that reach `t`, and its total
/// is exactly `smear` times the in-range mass of `prev`.
fn beb_step(prev: &Vec<u64>, smear: usize) -> (out: Vec<u64>)
    requires
        2 <= smear,
        smear + 1 < prev@.len(),
        seq_sum(prev@) <= 0x8000_0000_0000_0000,
    ensures
        out@.len() == prev@.len(),
        forall|t: int|
            0 <= t < out@.len() ==> out@[t] == range_sum(
                prev@,
                beb_win_lo(t, smear as int),
                beb_win_hi(t, smear as int, prev@.len() as int),
            ),
        seq_sum(out@) == smear * range_sum(prev@, 0, prev@.len() - smear - 1),
{
    let len = prev.len();
    let mut out: Vec<u64> = Vec::new();
    while out.len() < len
        invariant
            out@.len() <= len,
            len == prev@.len(),
            forall|t: int| 0 <= t < out@.len() ==> out@[t] == 0,
            seq_sum(out@) == 0,
        decreases len - out@.len(),
    {
        proof {
            lemma_seq_sum_push(out@, 0);
        }
        out.push(0);
    }
    let bound = len - smear - 1;
    proof {
        let rp: int = range_sum(prev@, 0, 0);
        assert(rp == 0);
        assert(smear as int * rp == 0) by (nonlinear_arith)
            requires
                rp == 0,
        ;
    }
    let mut idx: usize = 0;
    while idx < bound
        invariant
            2 <= smear,
            smear + 1 < len,
            bound == len - smear - 1,
            len == prev@.len(),
            out@.len() == len,
            idx <= bound,
            seq_sum(prev@) <= 0x8000_0000_0000_0000,
            seq_sum(out@) == smear * range_sum(prev@, 0, idx as int),
            forall|t: int|
                0 <= t < len ==> out@[t] == partial_win(
                    prev@,
                    t,
                    smear as int,
                    len as int,
                    idx as int,
                ),
        decreases bound - idx,
    {
        let d = prev[idx];
        let mut j: usize = 0;
        while j < smear
            invariant
                2 <= smear,
                smear + 1 < len,
                0 <= idx < len - smear - 1,
                len == prev@.len(),
                out@.len() == len,
                j <= smear,
                d == prev@[idx as int],
                seq_sum(prev@) <= 0x8000_0000_0000_0000,
                seq_sum(out@) == smear * range_sum(prev@, 0, idx as int) + j * d,
                forall|t: int|
                    idx + 1 <= t < idx + 1 + j ==> out@[t] == partial_win(
                        prev@,
                        t,
                        smear as int,
                        len as int,
                        idx as int + 1,
                    ),
                forall|t: int|
                    0 <= t < len && !(idx + 1 <= t < idx + 1 + j) ==> out@[t] == partial_win(
                        prev@,
                        t,
                        smear as int,
                        len as int,
                        idx as int,
                    ),
            decreases smear - j,
        {
            let tgt = idx + 1 + j;
            let ghost lo = beb_win_lo(tgt as int, smear as int);
            let ghost hi = beb_win_hi(tgt as int, smear as int, len as int);
            proof {
                assert(0 <= lo <= idx);
                assert(hi >= idx as int + 1);
                lemma_range_sum_extend(prev@, lo, idx as int);
                lemma_range_sum_le_total(prev@, lo, idx as int + 1);
            }
            let cur = out[tgt];
            let ghost out_old = out@;
            out[tgt] = cur + d;
            proof {
                assert(out@ == out_old.update(tgt as int, (cur + d) as u64));
                lemma_range_sum_update(out_old, tgt as int, (cur + d) as u64, 0, len as int);
                let ji: int = j as int;
                let di: int = d as int;
                assert(ji * di + di == (ji + 1) * di) by (nonlinear_arith);
            }
            j = j + 1;
        }
        proof {
            lemma_range_sum_extend(prev@, 0, idx as int);
            let si: int = smear as int;
            let ri: int = range_sum(prev@, 0, idx as int);
            let di: int = prev@[idx as int] as int;
            assert(si * ri + si * di == si * (ri + di)) by (nonlinear_arith);
            assert forall|t: int|
                0 <= t < len implies out@[t] == partial_win(
                prev@,
                t,
                smear as int,
                len as int,
                idx as int + 1,
            ) by {
                if t <= idx as int || t > idx as int + smear as int {
                    lemma_partial_win_stable(prev@, t, smear as int, len as int, idx as int);
                }
            }
        }
        idx = idx + 1;
    }
    proof {
        assert forall|t: int|
            0 <= t < len implies out@[t] == range_sum(
            prev@,
            beb_win_lo(t, smear as int),
            beb_win_hi(t, smear as int, len as int),
        ) by {
            assert(beb_win_hi(t, smear as int, len as int) <= bound as int);
        }
    }
    out
}

/// Builds the BEB probability table for `retries` retry levels over
/// `2^(retries + 1)` timeslots.  Level 0 is a point mass at slot 0;
/// level `k` smears level `k - 1` forward over windows of `2^k` slots.
/// A retry count of zero is rejected; one above [`MAX_RETRIES`] would
/// overflow the level denominators and is excluded by contract.
pub fn generate_beb(retries: usize) -> (r: Result<ProbTable, ConfigError>)
    requires
        retries <= MAX_RETRIES,
    ensures
        retries == 0 <==> r is Err,
        r matches Err(e) ==> e == ConfigError::RetryCountZero,
        r matches Ok(tab) ==> is_beb_table(tab, retries as int),
{
    if retries == 0 {
        return Err(ConfigError::RetryCountZero);
    }
    let slots = pow2_usize(retries + 1);
    proof {
        vstd::arithmetic::power2::lemma2_to64();
    }

    // Level 0: the whole mass in the first timeslot.
    let mut row0: Vec<u64> = Vec::new();
    row0.push(1);
    proof {
        lemma_seq_sum_push(Seq::<u64>::empty(), 1);
    }
    while row0.len() < slots
        invariant
            1 <= row0@.len() <= slots,
            row0@[0] == 1,
            forall|t: int| 1 <= t < row0@.len() ==> row0@[t] == 0,
            seq_sum(row0@) == 1,
        decreases slots - row0@.len(),
    {
        proof {
            lemma_seq_sum_push(row0@, 0);
        }
        row0.push(0);
    }

    let mut rows: Vec<Vec<u64>> = Vec::new();
    let mut den_exps: Vec<u64> = Vec::new();
    rows.push(row0);
    den_exps.push(0);
    proof {
        assert(beb_exp(0) == 0);
    }

    let mut k: usize = 1;
    while k <= retries
        invariant
            1 <= retries <= 10,
            slots == pow2((retries + 1) as nat),
            4 <= slots <= 0x800,
            1 <= k <= retries + 1,
            rows@.len() == k,
            den_exps@.len() == k,
            forall|j: int| 0 <= j < k ==> (#[trigger] rows@[j])@.len() == slots,
            forall|j: int| 0 <= j < k ==> #[trigger] den_exps@[j] == beb_exp(j as nat),
            rows@[0]@[0] == 1,
            forall|t: int| 1 <= t < slots ==> rows@[0]@[t] == 0,
            seq_sum(rows@[0]@) == 1,
            forall|j: int| 0 <= j < k ==> seq_sum((#[trigger] rows@[j])@) <= pow2(beb_exp(j as nat)),
            forall|j: int, t: int|
                1 <= j < k && 0 <= t < slots ==> #[trigger] rows@[j]@[t] == range_sum(
                    rows@[j - 1]@,
                    beb_win_lo(t, pow2(j as nat) as int),
                    beb_win_hi(t, pow2(j as nat) as int, slots as int),
                ),
            forall|j: int|
                1 <= j < k ==> seq_sum((#[trigger] rows@[j])@) == pow2(j as nat) * range_sum(
                    rows@[j - 1]@,
                    0,
                    slots - pow2(j as nat) - 1,
                ),
        decreases retries + 1 - k,
    {
        let smear = pow2_usize(k);
        proof {
            // The window fits: 2^k + 1 < 2^(retries + 1).
            lemma_pow2_unfold((retries + 1) as nat);
            lemma_pow2_unfold(k as nat);
            lemma_pow2_mono(k as nat, retries as nat);
            lemma_pow2_pos(k as nat);
            lemma_pow2_pos((k - 1) as nat);
            if retries >= 1 {
                lemma_pow2_unfold(retries as nat);
                lemma_pow2_pos((retries - 1) as nat);
            }
            // The previous row's sum fits far below the step's cap.
            let km1: int = k as int - 1;
            assert(beb_exp(km1 as nat) == km1 * (km1 + 1) / 2);
            assert(km1 * (km1 + 1) / 2 <= 55) by (nonlinear_arith)
                requires
                    0 <= km1 <= 9,
            ;
            lemma_pow2_mono(beb_exp((k - 1) as nat), 55);
            lemma_pow2_le_max(55);
        }
        let new_row = beb_step(&rows[k - 1], smear);
        proof {
            // The new row's sum stays within its denominator:
            // smear * (in-range mass of prev) <= 2^k * 2^beb_exp(k-1).
            lemma_range_sum_le_total(rows@[k - 1]@, 0, slots - smear as int - 1);
            let si: int = smear as int;
            let rsv: int = range_sum(rows@[k - 1]@, 0, slots - si - 1);
            let sp: int = seq_sum(rows@[k - 1]@);
            let pe: int = pow2(beb_exp((k - 1) as nat)) as int;
            lemma_pow2_adds(beb_exp((k - 1) as nat), k as nat);
            assert((k - 1) * ((k - 1) + 1) / 2 + k == k * (k + 1) / 2) by (nonlinear_arith)
                requires
                    1 <= k,
            ;
            assert(beb_exp((k - 1) as nat) + k as nat == beb_exp(k as nat));
            assert(si * rsv <= pe * si) by (nonlinear_arith)
                requires
                    rsv <= sp,
                    sp <= pe,
                    si >= 0,
            ;
            assert(seq_sum(new_row@) <= pow2(beb_exp(k as nat)));
        }
        let exp = den_exps[k - 1] + k as u64;
        rows.push(new_row);
        den_exps.push(exp);
        k = k + 1;
    }

    let tab = ProbTable { rows, den_exps };
    proof {
        assert forall|k1: int, k2: int|
            0 <= k1 <= k2 < tab.levels() implies #[trigger] tab.exp(k1) <= #[trigger] tab.exp(
            k2,
        ) by {
            assert(k1 * (k1 + 1) / 2 <= k2 * (k2 + 1) / 2) by (nonlinear_arith)
                requires
                    0 <= k1 <= k2,
            ;
        }
        assert forall|j: int| 0 <= j < tab.levels() implies #[trigger] tab.exp(j) <= 57 by {
            assert(j * (j + 1) / 2 <= 55) by (nonlinear_arith)
                requires
                    0 <= j <= 10,
            ;
        }
        assert(tab.wf());
    }
    Ok(tab)
}

/// Every BEB level sums to at most one, and the exact deficit is the
/// truncated tail: level `k`'s total is `2^k` times level `k - 1`'s
/// total minus the mass standing in the `2^k + 1` slots at the table
/// edge, whose smear would have spilled past the end.  Over the level
/// denominators this reads: sum(k)/2^beb_exp(k) ==
/// (sum(k-1) - tail(k-1))/2^beb_exp(k-1), so the shortfall below one
/// grows with each truncated tail and never recovers.
pub proof fn lemma_beb_row_sum(tab: ProbTable, retries: int, k: int)
    requires
        is_beb_table(tab, retries),
        1 <= k <= retries,
    ensures
        seq_sum(tab.row(k)) <= pow2(beb_exp(k as nat)),
        seq_sum(tab.row(k)) == pow2(k as nat) * (seq_sum(tab.row(k - 1)) - range_sum(
            tab.row(k - 1),
            tab.slots() - pow2(k as nat) - 1,
            tab.slots(),
        )),
{
    let slots = tab.slots();
    let m = slots - pow2(k as nat) - 1;
    lemma_pow2_mono(k as nat, retries as nat);
    lemma_pow2_unfold((retries + 1) as nat);
    lemma_pow2_pos(retries as nat);
    assert(0 <= m <= slots);
    crate::sums::lemma_range_sum_split(tab.row(k - 1), 0, m, slots);
    let p: int = pow2(k as nat) as int;
    let whole: int = seq_sum(tab.row(k - 1));
    let tail: int = range_sum(tab.row(k - 1), m, slots);
    let head: int = range_sum(tab.row(k - 1), 0, m);
    assert(p * head == p * (whole - tail)) by (nonlinear_arith)
        requires
            head == whole - tail,
    ;
}

/// BEB level 1 is exactly one half at timeslots 1 and 2 and zero
/// elsewhere: the level-0 point mass at slot 0, smeared over the two
/// slots that follow it (its numerators are over denominator `2^1`).
pub proof fn lemma_beb_level_one(tab: ProbTable, retries: int)
    requires
        is_beb_table(tab, retries),
        retries >= 1,
    ensures
        tab.exp(1) == 1,
        tab.row(1)[1] == 1,
        tab.row(1)[2] == 1,
        forall|t: int| 0 <= t < tab.slots() && t != 1 && t != 2 ==> tab.row(1)[t] == 0,
{
    let slots = tab.slots();
    vstd::arithmetic::power2::lemma2_to64();
    lemma_pow2_mono(2, (retries + 1) as nat);
    assert(slots >= 4);
    assert(beb_exp(1) == 1);
    let two: int = pow2(1) as int;
    assert forall|t: int| 0 <= t < slots implies tab.row(1)[t] == if 1 <= t <= 2 {
        1int
    } else {
        0int
    } by {
        assert(tab.row(1)[t] == range_sum(
            tab.row(0),
            beb_win_lo(t, two),
            beb_win_hi(t, two, slots),
        ));
        crate::sums::lemma_range_sum_point(
            tab.row(0),
            beb_win_lo(t, two),
            beb_win_hi(t, two, slots),
            0,
        );
    }
    assert(tab.row(1)[1] == 1);
    assert(tab.row(1)[2] == 1);
}

} // verus!
