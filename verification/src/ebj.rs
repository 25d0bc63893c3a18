//! Exponential backoff with jitter: a Monte Carlo bucket histogram.
//!
//! Time is counted in integer ticks.  The nominal interval grows by
//! the rational multiplier `mult_num / mult_den` before each retry,
//! rounding down; the realized wait of a retry is drawn uniformly
//! from the closed tick range `[interval * (1 - rf), interval * (1 + rf)]`
//! where `rf = rand_num / rand_den`, again rounding the endpoints
//! down.  Each sampled path walks all retry levels, adding every
//! arrival to the bucket its elapsed time falls in.
//!
//! Nothing is promised about which value a sample takes, so the
//! contracts state only what holds of every outcome: each level's
//! counts total exactly the number of paths, and all mass lies between
//! the buckets of the earliest and latest possible arrival times.

use vstd::prelude::*;
use vstd::arithmetic::div_mod::{
    lemma_div_is_ordered, lemma_div_multiples_vanish, lemma_div_pos_is_pos,
    lemma_fundamental_div_mod, lemma_mod_bound,
};
use vstd::arithmetic::mul::{lemma_mul_inequality, lemma_mul_is_commutative};
use vstd::arithmetic::power::{pow, lemma_pow0, lemma_pow1, lemma_pow_adds, lemma_pow_increases, lemma_pow_positive};
use crate::ConfigError;
use crate::sums::{
    seq_sum, lemma_cell_le_range_sum, lemma_range_sum_update, lemma_seq_sum_push,
};

verus! {

/// Configuration of the EBJ simulation.  Time is in integer ticks;
/// the backoff multiplier and the randomization factor are the
/// rationals `mult_num / mult_den` and `rand_num / rand_den`.
pub struct EbjConfig {
    /// Number of retry levels each path walks.
    pub retries: usize,
    /// Number of independent paths to sample.
    pub paths: u64,
    /// Number of histogram buckets.
    pub buckets: usize,
    /// Nominal wait before the first attempt, in ticks.
    pub initial_interval: u64,
    /// Numerator of the per-retry interval multiplier.
    pub mult_num: u64,
    /// Denominator of the per-retry interval multiplier.
    pub mult_den: u64,
    /// Numerator of the randomization factor.
    pub rand_num: u64,
    /// Denominator of the randomization factor.
    pub rand_den: u64,
}

impl EbjConfig {
    /// The configurations the generators accept: at least one retry,
    /// path and bucket, a nonzero initial interval, a multiplier
    /// strictly above one, and a randomization factor in `[0, 1]`.
    pub open spec fn valid(self) -> bool {
        &&& 1 <= self.retries
        &&& 1 <= self.paths
        &&& 1 <= self.buckets
        &&& 1 <= self.initial_interval
        &&& 1 <= self.mult_den < self.mult_num
        &&& 1 <= self.rand_den
        &&& self.rand_num <= self.rand_den
    }

    /// Nominal interval before retry `k`: the initial interval grown
    /// `k` times by the multiplier, rounding down at each step.
    pub open spec fn ivl(self, k: nat) -> int
        decreases k,
    {
        if k == 0 {
            self.initial_interval as int
        } else {
            self.ivl((k - 1) as nat) * self.mult_num / (self.mult_den as int)
        }
    }

    /// Shortest possible wait before retry `k`.
    pub open spec fn wait_lo(self, k: nat) -> int {
        self.ivl(k) * (self.rand_den - self.rand_num) / (self.rand_den as int)
    }

    /// Longest possible wait before retry `k`.
    pub open spec fn wait_hi(self, k: nat) -> int {
        self.ivl(k) * (self.rand_den + self.rand_num) / (self.rand_den as int)
    }

    /// Earliest possible elapsed time after `k` retries.
    pub open spec fn t_lo(self, k: nat) -> int
        decreases k,
    {
        if k == 0 {
            0
        } else {
            self.t_lo((k - 1) as nat) + self.wait_lo((k - 1) as nat)
        }
    }

    /// Latest possible elapsed time after `k` retries.
    pub open spec fn t_hi(self, k: nat) -> int
        decreases k,
    {
        if k == 0 {
            0
        } else {
            self.t_hi((k - 1) as nat) + self.wait_hi((k - 1) as nat)
        }
    }

    /// The intermediate products of retry `k` fit in a machine word.
    pub open spec fn step_fits(self, k: nat) -> bool {
        &&& self.ivl(k) * self.mult_num <= u64::MAX
        &&& self.ivl(k) * (self.rand_den + self.rand_num) <= u64::MAX
    }

    /// Every quantity of the whole simulation fits in a machine word.
    pub open spec fn fits(self) -> bool {
        &&& forall|k: nat| k < self.retries ==> self.step_fits(k)
        &&& self.t_hi(self.retries as nat) <= u64::MAX
    }

    /// Numerator of the nominal maximum elapsed time, in ticks: the
    /// geometric-series bound
    /// `initial * mult^(retries-1) * (1 + rf) / (1 - 1/mult)` written
    /// over a common denominator.
    pub open spec fn max_time_num(self) -> int {
        self.initial_interval * pow(self.mult_num as int, (self.retries - 1) as nat) * (
        self.rand_den + self.rand_num) * self.mult_num
    }

    /// Denominator of the nominal maximum elapsed time.
    pub open spec fn max_time_den(self) -> int {
        pow(self.mult_den as int, (self.retries - 1) as nat) * self.rand_den * (self.mult_num
            - self.mult_den)
    }

    /// The nominal maximum elapsed time, in ticks, rounded down.
    pub open spec fn max_time(self) -> int {
        self.max_time_num() / self.max_time_den()
    }
}

/// Nominal intervals stay at or above one tick.
proof fn lemma_ivl_at_least_one(cfg: EbjConfig, k: nat)
    requires
        cfg.valid(),
    ensures
        cfg.ivl(k) >= 1,
    decreases k,
{
    if k > 0 {
        lemma_ivl_at_least_one(cfg, (k - 1) as nat);
        let prev: int = cfg.ivl((k - 1) as nat);
        let mn: int = cfg.mult_num as int;
        let md: int = cfg.mult_den as int;
        assert(prev * mn >= md) by (nonlinear_arith)
            requires
                prev >= 1,
                mn > md >= 1,
        ;
        lemma_div_is_ordered(md, prev * mn, md);
        lemma_div_multiples_vanish(1, md);
    }
}

/// Wait bounds are ordered and nonnegative.
proof fn lemma_wait_bounds(cfg: EbjConfig, k: nat)
    requires
        cfg.valid(),
    ensures
        0 <= cfg.wait_lo(k) <= cfg.wait_hi(k),
{
    lemma_ivl_at_least_one(cfg, k);
    let iv: int = cfg.ivl(k);
    let rd: int = cfg.rand_den as int;
    let rn: int = cfg.rand_num as int;
    assert(0 <= iv * (rd - rn) <= iv * (rd + rn)) by (nonlinear_arith)
        requires
            iv >= 1,
            0 <= rn <= rd,
    ;
    lemma_div_is_ordered(iv * (rd - rn), iv * (rd + rn), rd);
    lemma_div_pos_is_pos(iv * (rd - rn), rd);
}

/// Elapsed-time bounds are ordered, nonnegative and monotone in the
/// number of retries walked.
proof fn lemma_t_bounds(cfg: EbjConfig, k1: nat, k2: nat)
    requires
        cfg.valid(),
        k1 <= k2,
    ensures
        0 <= cfg.t_lo(k2) <= cfg.t_hi(k2),
        cfg.t_hi(k1) <= cfg.t_hi(k2),
    decreases k2,
{
    if k2 > 0 {
        lemma_t_bounds(cfg, if k1 < k2 { k1 } else { (k2 - 1) as nat }, (k2 - 1) as nat);
        lemma_wait_bounds(cfg, (k2 - 1) as nat);
    }
}

/// A product stays within a cap exactly when the first factor stays
/// within the cap divided by the second.
proof fn lemma_mul_fits(a: int, b: int, cap: int)
    requires
        0 <= a,
        1 <= b,
        0 <= cap,
    ensures
        (a * b <= cap) <==> (a <= cap / b),
{
    lemma_fundamental_div_mod(cap, b);
    lemma_mod_bound(cap, b);
    if a <= cap / b {
        lemma_mul_inequality(a, cap / b, b);
        lemma_mul_is_commutative(cap / b, b);
    }
    if a * b <= cap {
        lemma_div_is_ordered(a * b, cap, b);
        lemma_div_multiples_vanish(a, b);
        lemma_mul_is_commutative(a, b);
    }
}

/// Checks that every intermediate quantity of the simulation fits in
/// a machine word, walking the same interval recurrence the simulator
/// walks.
pub fn check_fits(cfg: &EbjConfig) -> (r: bool)
    requires
        cfg.valid(),
    ensures
        r == cfg.fits(),
{
    let mut interval: u64 = cfg.initial_interval;
    let mut total_hi: u64 = 0;
    let mut k: usize = 0;
    while k < cfg.retries
        invariant
            cfg.valid(),
            k <= cfg.retries,
            interval == cfg.ivl(k as nat),
            total_hi == cfg.t_hi(k as nat),
            forall|j: nat| j < k ==> cfg.step_fits(j),
        decreases cfg.retries - k,
    {
        proof {
            lemma_ivl_at_least_one(*cfg, k as nat);
        }
        if cfg.rand_den > u64::MAX - cfg.rand_num {
            proof {
                let iv: int = cfg.ivl(k as nat);
                let rsum: int = cfg.rand_den + cfg.rand_num;
                assert(iv * rsum >= rsum) by (nonlinear_arith)
                    requires
                        iv >= 1,
                        rsum >= 0,
                ;
                assert(!cfg.step_fits(k as nat));
            }
            return false;
        }
        let rsum = cfg.rand_den + cfg.rand_num;
        proof {
            lemma_mul_fits(interval as int, cfg.mult_num as int, u64::MAX as int);
            lemma_mul_fits(interval as int, rsum as int, u64::MAX as int);
        }
        if interval > u64::MAX / cfg.mult_num {
            proof {
                assert(!cfg.step_fits(k as nat));
            }
            return false;
        }
        if interval > u64::MAX / rsum {
            proof {
                assert(!cfg.step_fits(k as nat));
            }
            return false;
        }
        let wait_hi = interval * rsum / cfg.rand_den;
        proof {
            lemma_wait_bounds(*cfg, k as nat);
            lemma_t_bounds(*cfg, k as nat, (k + 1) as nat);
        }
        if total_hi > u64::MAX - wait_hi {
            proof {
                lemma_t_bounds(*cfg, (k + 1) as nat, cfg.retries as nat);
            }
            return false;
        }
        total_hi = total_hi + wait_hi;
        interval = interval * cfg.mult_num / cfg.mult_den;
        k = k + 1;
    }
    true
}

/// One uniformly random draw from a closed integer tick range.
/// Relies on rand::random_range over `lo..=hi`: it returns a value of
/// that range drawn uniformly by the thread-local generator, and
/// panics only when the range is empty, which `lo <= hi` rules out.
/// Nothing more can be promised of a random value, so callers are
/// verified against every outcome in the range.
#[verifier::external_body]
fn sample_uniform(lo: u64, hi: u64) -> (r: u64)
    requires
        lo <= hi,
    ensures
        lo <= r <= hi,
{
    rand::random_range(lo..=hi)
}

/// The raw outcome of the simulation: per retry level, how many of
/// the sampled paths arrived in each time bucket.
pub struct EbjHistogram {
    /// Bucket counts: one row per retry level.
    pub counts: Vec<Vec<u64>>,
    /// Width of one bucket, in ticks.
    pub bucket_size: u64,
}

/// The bucket an elapsed time of `t` ticks falls in, the last bucket
/// absorbing anything past the nominal maximum time.
pub open spec fn bucket_of(t: int, bucket_size: int, buckets: int) -> int {
    if t / bucket_size >= buckets {
        buckets - 1
    } else {
        t / bucket_size
    }
}

/// What holds of every simulation outcome: the shape is `retries`
/// rows of `buckets` counts; each row totals exactly `paths` (each
/// path arrives exactly once per level); and a row's mass lies
/// entirely between the buckets of the earliest and latest possible
/// arrival times of its level.
pub open spec fn is_ebj_histogram(h: EbjHistogram, cfg: EbjConfig) -> bool {
    &&& h.counts.len() == cfg.retries
    &&& h.bucket_size >= 1
    &&& forall|k: int| 0 <= k < cfg.retries ==> (#[trigger] h.counts[k])@.len() == cfg.buckets
    &&& forall|k: int| 0 <= k < cfg.retries ==> seq_sum((#[trigger] h.counts[k])@) == cfg.paths
    &&& forall|k: int, b: int|
        0 <= k < cfg.retries && 0 <= b < cfg.buckets && !(bucket_of(
            cfg.t_lo((k + 1) as nat),
            h.bucket_size as int,
            cfg.buckets as int,
        ) <= b <= bucket_of(
            cfg.t_hi((k + 1) as nat),
            h.bucket_size as int,
            cfg.buckets as int,
        )) ==> #[trigger] h.counts[k]@[b] == 0
}

/// A time between two others lands in a bucket between theirs.
proof fn lemma_bucket_between(tl: int, tv: int, th: int, bucket_size: int, buckets: int)
    requires
        0 <= tl <= tv <= th,
        bucket_size >= 1,
        buckets >= 1,
    ensures
        0 <= bucket_of(tl, bucket_size, buckets) <= bucket_of(tv, bucket_size, buckets)
            <= bucket_of(th, bucket_size, buckets) < buckets,
{
    lemma_div_is_ordered(tl, tv, bucket_size);
    lemma_div_is_ordered(tv, th, bucket_size);
    lemma_div_pos_is_pos(tl, bucket_size);
}

/// Runs the Monte Carlo simulation: walks `paths` independent paths
/// through all retry levels, sampling each wait uniformly from its
/// tick range, and counts each arrival in the bucket of its elapsed
/// time.  The counts are raw; normalization is a separate step.
pub fn generate_ebj(cfg: &EbjConfig, bucket_size: u64) -> (h: EbjHistogram)
    requires
        cfg.valid(),
        cfg.fits(),
        bucket_size >= 1,
    ensures
        is_ebj_histogram(h, *cfg),
        h.bucket_size == bucket_size,
{
    let levels = cfg.retries;
    let buckets = cfg.buckets;
    let mut counts: Vec<Vec<u64>> = Vec::new();
    while counts.len() < levels
        invariant
            counts@.len() <= levels,
            forall|k: int| 0 <= k < counts@.len() ==> (#[trigger] counts@[k])@.len() == buckets,
            forall|k: int, b: int|
                0 <= k < counts@.len() && 0 <= b < buckets ==> #[trigger] counts@[k]@[b] == 0,
            forall|k: int| 0 <= k < counts@.len() ==> seq_sum((#[trigger] counts@[k])@) == 0,
        decreases levels - counts@.len(),
    {
        let mut row: Vec<u64> = Vec::new();
        while row.len() < buckets
            invariant
                row@.len() <= buckets,
                forall|b: int| 0 <= b < row@.len() ==> row@[b] == 0,
                seq_sum(row@) == 0,
            decreases buckets - row@.len(),
        {
            proof {
                lemma_seq_sum_push(row@, 0);
            }
            row.push(0);
        }
        counts.push(row);
    }

    let mut path: u64 = 0;
    while path < cfg.paths
        invariant
            cfg.valid(),
            cfg.fits(),
            bucket_size >= 1,
            levels == cfg.retries,
            buckets == cfg.buckets,
            counts@.len() == levels,
            path <= cfg.paths,
            forall|k: int| 0 <= k < levels ==> (#[trigger] counts@[k])@.len() == buckets,
            forall|k: int| 0 <= k < levels ==> seq_sum((#[trigger] counts@[k])@) == path,
            forall|k: int, b: int|
                0 <= k < levels && 0 <= b < buckets && !(bucket_of(
                    cfg.t_lo((k + 1) as nat),
                    bucket_size as int,
                    buckets as int,
                ) <= b <= bucket_of(
                    cfg.t_hi((k + 1) as nat),
                    bucket_size as int,
                    buckets as int,
                )) ==> #[trigger] counts@[k]@[b] == 0,
        decreases cfg.paths - path,
    {
        let mut t: u64 = 0;
        let mut interval: u64 = cfg.initial_interval;
        let mut k: usize = 0;
        while k < levels
            invariant
                cfg.valid(),
                cfg.fits(),
                bucket_size >= 1,
                levels == cfg.retries,
                buckets == cfg.buckets,
                counts@.len() == levels,
                path < cfg.paths,
                k <= levels,
                interval == cfg.ivl(k as nat),
                cfg.t_lo(k as nat) <= t <= cfg.t_hi(k as nat),
                forall|j: int| 0 <= j < levels ==> (#[trigger] counts@[j])@.len() == buckets,
                forall|j: int|
                    0 <= j < k ==> seq_sum((#[trigger] counts@[j])@) == path + 1,
                forall|j: int|
                    k <= j < levels ==> seq_sum((#[trigger] counts@[j])@) == path,
                forall|j: int, b: int|
                    0 <= j < levels && 0 <= b < buckets && !(bucket_of(
                        cfg.t_lo((j + 1) as nat),
                        bucket_size as int,
                        buckets as int,
                    ) <= b <= bucket_of(
                        cfg.t_hi((j + 1) as nat),
                        bucket_size as int,
                        buckets as int,
                    )) ==> #[trigger] counts@[j]@[b] == 0,
            decreases levels - k,
        {
            proof {
                assert(cfg.step_fits(k as nat));
                lemma_ivl_at_least_one(*cfg, k as nat);
                lemma_wait_bounds(*cfg, k as nat);
                let iv: int = cfg.ivl(k as nat);
                let rd: int = cfg.rand_den as int;
                let rn: int = cfg.rand_num as int;
                assert(rd + rn <= iv * (rd + rn) && iv * (rd - rn) <= iv * (rd + rn))
                    by (nonlinear_arith)
                    requires
                        iv >= 1,
                        0 <= rn <= rd,
                ;
            }
            let rsum = cfg.rand_den + cfg.rand_num;
            let lo = interval * (cfg.rand_den - cfg.rand_num) / cfg.rand_den;
            let hi = interval * rsum / cfg.rand_den;
            proof {
                lemma_div_is_ordered(
                    interval * (cfg.rand_den - cfg.rand_num) as int,
                    interval * rsum as int,
                    cfg.rand_den as int,
                );
                lemma_t_bounds(*cfg, (k + 1) as nat, cfg.retries as nat);
            }
            let w = sample_uniform(lo, hi);
            t = t + w;
            let b0 = t / bucket_size;
            let b = if b0 >= buckets as u64 {
                buckets - 1
            } else {
                b0 as usize
            };
            proof {
                lemma_t_bounds(*cfg, (k + 1) as nat, (k + 1) as nat);
                lemma_bucket_between(
                    cfg.t_lo((k + 1) as nat),
                    t as int,
                    cfg.t_hi((k + 1) as nat),
                    bucket_size as int,
                    buckets as int,
                );
                assert(b == bucket_of(t as int, bucket_size as int, buckets as int));
                lemma_cell_le_range_sum(
                    counts@[k as int]@,
                    0,
                    counts@[k as int]@.len() as int,
                    b as int,
                );
            }
            let cur = counts[k][b];
            let ghost counts_old = counts@;
            let ghost row_old = counts@[k as int]@;
            counts[k][b] = cur + 1;
            proof {
                assert(counts@[k as int]@ == row_old.update(b as int, (cur + 1) as u64));
                lemma_range_sum_update(row_old, b as int, (cur + 1) as u64, 0, row_old.len() as int);
            }
            interval = interval * cfg.mult_num / cfg.mult_den;
            k = k + 1;
        }
        path = path + 1;
    }
    EbjHistogram { counts, bucket_size }
}


/// Computes the nominal maximum elapsed time of the simulation, in
/// ticks: `initial * mult^(retries-1) * (1 + rf) / (1 - 1/mult)`,
/// evaluated exactly as one integer quotient.  Fails precisely when
/// the numerator does not fit in a machine word.
pub fn compute_max_time(cfg: &EbjConfig) -> (r: Result<u64, ConfigError>)
    requires
        cfg.valid(),
    ensures
        r matches Ok(v) ==> v == cfg.max_time() && cfg.max_time_num() <= u64::MAX,
        r is Err ==> cfg.max_time_num() > u64::MAX,
        r matches Err(e) ==> e == ConfigError::Overflow,
{
    let reps = cfg.retries - 1;
    let ghost mn: int = cfg.mult_num as int;
    let ghost md: int = cfg.mult_den as int;
    let mut p_num: u64 = 1;
    let mut p_den: u64 = 1;
    let mut i: usize = 0;
    proof {
        lemma_pow0(mn);
        lemma_pow0(md);
    }
    while i < reps
        invariant
            cfg.valid(),
            reps == cfg.retries - 1,
            mn == cfg.mult_num as int,
            md == cfg.mult_den as int,
            i <= reps,
            p_num == pow(mn, i as nat),
            p_den == pow(md, i as nat),
            1 <= p_den <= p_num,
        decreases reps - i,
    {
        proof {
            lemma_mul_fits(p_num as int, mn, u64::MAX as int);
            lemma_mul_is_commutative(p_num as int, mn);
            lemma_pow1(mn);
            lemma_pow1(md);
            lemma_pow_adds(mn, i as nat, 1);
            lemma_pow_adds(md, i as nat, 1);
            assert(pow(mn, (i + 1) as nat) == pow(mn, i as nat) * mn);
            assert(pow(md, (i + 1) as nat) == pow(md, i as nat) * md);
            lemma_mul_is_commutative(p_den as int, md);
        }
        if p_num > u64::MAX / cfg.mult_num {
            proof {
                lemma_pow_increases(cfg.mult_num as nat, (i + 1) as nat, reps as nat);
                let pr: int = pow(mn, reps as nat);
                let a: int = cfg.initial_interval as int;
                let b: int = cfg.rand_den + cfg.rand_num;
                assert(a * pr * b * mn >= pr) by (nonlinear_arith)
                    requires
                        a >= 1,
                        b >= 1,
                        mn >= 1,
                        pr >= 0,
                ;
            }
            return Err(ConfigError::Overflow);
        }
        proof {
            let pd: int = p_den as int;
            let pn: int = p_num as int;
            assert(1 <= pd * md <= pn * mn) by (nonlinear_arith)
                requires
                    1 <= pd <= pn,
                    1 <= md <= mn,
            ;
        }
        p_num = p_num * cfg.mult_num;
        p_den = p_den * cfg.mult_den;
        i = i + 1;
    }
    proof {
        lemma_pow_positive(mn, reps as nat);
    }
    if cfg.rand_den > u64::MAX - cfg.rand_num {
        proof {
            let pr: int = pow(mn, reps as nat);
            let a: int = cfg.initial_interval as int;
            let b: int = cfg.rand_den + cfg.rand_num;
            assert(a * pr * b * mn >= b) by (nonlinear_arith)
                requires
                    a >= 1,
                    pr >= 1,
                    mn >= 1,
                    b >= 0,
            ;
        }
        return Err(ConfigError::Overflow);
    }
    let rsum = cfg.rand_den + cfg.rand_num;
    proof {
        lemma_mul_fits(cfg.initial_interval as int, p_num as int, u64::MAX as int);
    }
    if cfg.initial_interval > u64::MAX / p_num {
        proof {
            let q: int = cfg.initial_interval * pow(mn, reps as nat);
            assert(q * rsum * mn >= q) by (nonlinear_arith)
                requires
                    rsum >= 1,
                    mn >= 1,
                    q >= 0,
            ;
        }
        return Err(ConfigError::Overflow);
    }
    let m1 = cfg.initial_interval * p_num;
    proof {
        lemma_mul_fits(m1 as int, rsum as int, u64::MAX as int);
    }
    if m1 > u64::MAX / rsum {
        proof {
            let q: int = m1 * rsum;
            assert(q * mn >= q) by (nonlinear_arith)
                requires
                    mn >= 1,
                    q >= 0,
            ;
        }
        return Err(ConfigError::Overflow);
    }
    let m2 = m1 * rsum;
    proof {
        lemma_mul_fits(m2 as int, mn, u64::MAX as int);
    }
    if m2 > u64::MAX / cfg.mult_num {
        return Err(ConfigError::Overflow);
    }
    let m3 = m2 * cfg.mult_num;
    let mdiff = cfg.mult_num - cfg.mult_den;
    proof {
        let pd: int = p_den as int;
        let rd: int = cfg.rand_den as int;
        let ii: int = cfg.initial_interval as int;
        let pn: int = p_num as int;
        assert(pn <= ii * pn) by (nonlinear_arith)
            requires
                1 <= ii,
                0 <= pn,
        ;
        assert(1 <= pd * rd <= m1 * rsum) by (nonlinear_arith)
            requires
                1 <= pd <= m1,
                1 <= rd <= rsum,
        ;
    }
    let d1 = p_den * cfg.rand_den;
    proof {
        let d1i: int = d1 as int;
        let mdiffi: int = mdiff as int;
        assert(1 <= d1i * mdiffi <= m2 * mn) by (nonlinear_arith)
            requires
                1 <= d1i <= m2,
                1 <= mdiffi <= mn,
        ;
    }
    let den = d1 * mdiff;
    Ok(m3 / den)
}

/// A normalized EBJ histogram: every count is read over the common
/// denominator `den`, chosen so that the first retry level's peak
/// bucket has the value one half.
pub struct EbjTable {
    /// Numerators: the raw bucket counts, one row per retry level.
    pub num: Vec<Vec<u64>>,
    /// Common denominator of every value in the table.
    pub den: u64,
    /// Width of one bucket, in ticks.
    pub bucket_size: u64,
}

/// `den` is twice the peak of the given row, so the peak's value
/// `peak / den` is exactly one half.
pub open spec fn is_peak_denominator(row: Seq<u64>, den: int) -> bool {
    &&& exists|b: int| 0 <= b < row.len() && den == 2 * #[trigger] row[b]
    &&& forall|b: int| 0 <= b < row.len() ==> 2 * #[trigger] row[b] <= den
}

/// Scales a histogram for side-by-side comparison with the BEB
/// table: the counts become numerators over a denominator of twice
/// the first retry level's peak, so that peak reads exactly one half.
/// The counts themselves are untouched; only the denominator is
/// chosen.
pub fn normalize(h: EbjHistogram) -> (r: EbjTable)
    requires
        h.counts@.len() >= 1,
        h.counts[0]@.len() >= 1,
        1 <= seq_sum(h.counts[0]@) <= u64::MAX / 2,
    ensures
        r.num@ == h.counts@,
        r.bucket_size == h.bucket_size,
        is_peak_denominator(h.counts[0]@, r.den as int),
        r.den >= 2,
{
    let row = &h.counts[0];
    let n = row.len();
    let mut mx: u64 = row[0];
    let mut arg: usize = 0;
    let mut b: usize = 1;
    while b < n
        invariant
            n == row@.len(),
            1 <= b <= n,
            arg < b,
            mx == row@[arg as int],
            forall|j: int| 0 <= j < b ==> row@[j] <= mx,
        decreases n - b,
    {
        if row[b] > mx {
            mx = row[b];
            arg = b;
        }
        b = b + 1;
    }
    proof {
        lemma_cell_le_range_sum(row@, 0, n as int, arg as int);
        if mx == 0 {
            crate::sums::lemma_range_sum_constant(row@, 0, n as int, 0);
        }
        assert(mx >= 1);
    }
    let den = 2 * mx;
    EbjTable { num: h.counts, den, bucket_size: h.bucket_size }
}

/// Peak normalization is scale-invariant: scaling every raw count by
/// the same factor scales the peak denominator by that factor too, so
/// every normalized value, read as the rational count/denominator, is
/// unchanged.
pub proof fn lemma_normalize_scale_invariant(
    row: Seq<u64>,
    scaled: Seq<u64>,
    den: int,
    den_scaled: int,
    c: int,
)
    requires
        c >= 1,
        row.len() == scaled.len(),
        row.len() >= 1,
        forall|b: int| 0 <= b < row.len() ==> #[trigger] scaled[b] == c * row[b],
        is_peak_denominator(row, den),
        is_peak_denominator(scaled, den_scaled),
    ensures
        den_scaled == c * den,
        forall|v: int| #[trigger] (c * v * den) == v * den_scaled,
{
    let b0 = choose|b: int| 0 <= b < row.len() && den == 2 * row[b];
    let b1 = choose|b: int| 0 <= b < scaled.len() && den_scaled == 2 * scaled[b];
    assert(scaled[b0] == c * row[b0]);
    assert(scaled[b1] == c * row[b1]);
    assert(2 * scaled[b0] <= den_scaled);
    assert(2 * row[b1] <= den);
    assert(den_scaled == c * den) by (nonlinear_arith)
        requires
            den == 2 * row[b0],
            den_scaled == 2 * scaled[b1],
            scaled[b0] == c * row[b0],
            scaled[b1] == c * row[b1],
            2 * scaled[b0] <= den_scaled,
            2 * row[b1] <= den,
            c >= 1,
    ;
    assert forall|v: int| #[trigger] (c * v * den) == v * den_scaled by {
        assert(c * v * den == v * den_scaled) by (nonlinear_arith)
            requires
                den_scaled == c * den,
        ;
    }
}

/// With a zero randomization factor the simulation is deterministic:
/// every path arrives at the same tick at each level, so each level's
/// whole mass, all `paths` counts of it, lands in the single bucket
/// of its deterministic arrival time, and every other bucket is zero.
pub proof fn lemma_ebj_deterministic(h: EbjHistogram, cfg: EbjConfig)
    requires
        cfg.valid(),
        cfg.rand_num == 0,
        is_ebj_histogram(h, cfg),
    ensures
        forall|k: int|
            0 <= k < cfg.retries ==> #[trigger] h.counts[k]@[bucket_of(
                cfg.t_hi((k + 1) as nat),
                h.bucket_size as int,
                cfg.buckets as int,
            )] == cfg.paths,
        forall|k: int, b: int|
            0 <= k < cfg.retries && 0 <= b < cfg.buckets && b != bucket_of(
                cfg.t_hi((k + 1) as nat),
                h.bucket_size as int,
                cfg.buckets as int,
            ) ==> #[trigger] h.counts[k]@[b] == 0,
{
    assert forall|k: nat| k <= cfg.retries implies cfg.t_lo(k) == cfg.t_hi(k) by {
        lemma_t_equal_when_exact(cfg, k);
    }
    assert forall|k: int| 0 <= k < cfg.retries implies #[trigger] h.counts[k]@[bucket_of(
        cfg.t_hi((k + 1) as nat),
        h.bucket_size as int,
        cfg.buckets as int,
    )] == cfg.paths by {
        lemma_t_bounds(cfg, (k + 1) as nat, (k + 1) as nat);
        let bs: int = h.bucket_size as int;
        let nb: int = cfg.buckets as int;
        let bk = bucket_of(cfg.t_hi((k + 1) as nat), bs, nb);
        lemma_bucket_between(
            cfg.t_hi((k + 1) as nat),
            cfg.t_hi((k + 1) as nat),
            cfg.t_hi((k + 1) as nat),
            bs,
            nb,
        );
        let row = h.counts[k]@;
        crate::sums::lemma_range_sum_point(row, 0, row.len() as int, bk);
    }
}

/// With a zero randomization factor the earliest and latest possible
/// arrival times coincide.
proof fn lemma_t_equal_when_exact(cfg: EbjConfig, k: nat)
    requires
        cfg.valid(),
        cfg.rand_num == 0,
    ensures
        cfg.t_lo(k) == cfg.t_hi(k),
    decreases k,
{
    if k > 0 {
        lemma_t_equal_when_exact(cfg, (k - 1) as nat);
    }
}


/// The configurations that a full simulation run accepts.
pub open spec fn ebj_accepts(cfg: EbjConfig) -> bool {
    &&& cfg.valid()
    &&& cfg.paths <= u64::MAX / 2
    &&& cfg.max_time_num() <= u64::MAX
    &&& cfg.max_time() / (cfg.buckets as int) >= 1
    &&& cfg.fits()
}

/// Which error a rejected configuration reports, in the order the
/// checks run.
pub open spec fn ebj_error_of(cfg: EbjConfig) -> ConfigError {
    if cfg.retries == 0 {
        ConfigError::RetryCountZero
    } else if cfg.paths == 0 {
        ConfigError::PathCountZero
    } else if cfg.buckets == 0 {
        ConfigError::BucketCountZero
    } else if cfg.initial_interval == 0 {
        ConfigError::IntervalZero
    } else if cfg.mult_den == 0 || cfg.mult_num <= cfg.mult_den {
        ConfigError::MultiplierNotGreater
    } else if cfg.rand_den == 0 || cfg.rand_num > cfg.rand_den {
        ConfigError::RandFactorInvalid
    } else if cfg.paths > u64::MAX / 2 {
        ConfigError::Overflow
    } else if cfg.max_time_num() > u64::MAX {
        ConfigError::Overflow
    } else if cfg.max_time() / (cfg.buckets as int) < 1 {
        ConfigError::BucketWidthZero
    } else {
        ConfigError::Overflow
    }
}

/// What a completed simulation run promises of its table, whatever
/// the random samples were: the histogram shape, each level totalling
/// exactly `paths`, all mass inside each level's reachable bucket
/// band, and the peak-of-level-0 denominator.
pub open spec fn is_ebj_table(tab: EbjTable, cfg: EbjConfig) -> bool {
    &&& tab.num.len() == cfg.retries
    &&& tab.bucket_size >= 1
    &&& tab.den >= 2
    &&& forall|k: int| 0 <= k < cfg.retries ==> (#[trigger] tab.num[k])@.len() == cfg.buckets
    &&& forall|k: int| 0 <= k < cfg.retries ==> seq_sum((#[trigger] tab.num[k])@) == cfg.paths
    &&& forall|k: int, b: int|
        0 <= k < cfg.retries && 0 <= b < cfg.buckets && !(bucket_of(
            cfg.t_lo((k + 1) as nat),
            tab.bucket_size as int,
            cfg.buckets as int,
        ) <= b <= bucket_of(
            cfg.t_hi((k + 1) as nat),
            tab.bucket_size as int,
            cfg.buckets as int,
        )) ==> #[trigger] tab.num[k]@[b] == 0
    &&& is_peak_denominator(tab.num[0]@, tab.den as int)
}

/// Validates the configuration, derives the bucket width from the
/// nominal maximum time, runs the Monte Carlo simulation and scales
/// its peak for comparison with the BEB table.  Succeeds exactly on
/// the configurations [`ebj_accepts`] describes; a rejected one
/// reports the error of its first failed check.
pub fn run_ebj(cfg: &EbjConfig) -> (r: Result<EbjTable, ConfigError>)
    ensures
        r is Ok <==> ebj_accepts(*cfg),
        r matches Err(e) ==> e == ebj_error_of(*cfg),
        r matches Ok(tab) ==> is_ebj_table(tab, *cfg) && tab.bucket_size == cfg.max_time()
            / (cfg.buckets as int),
{
    if cfg.retries == 0 {
        return Err(ConfigError::RetryCountZero);
    }
    if cfg.paths == 0 {
        return Err(ConfigError::PathCountZero);
    }
    if cfg.buckets == 0 {
        return Err(ConfigError::BucketCountZero);
    }
    if cfg.initial_interval == 0 {
        return Err(ConfigError::IntervalZero);
    }
    if cfg.mult_den == 0 || cfg.mult_num <= cfg.mult_den {
        return Err(ConfigError::MultiplierNotGreater);
    }
    if cfg.rand_den == 0 || cfg.rand_num > cfg.rand_den {
        return Err(ConfigError::RandFactorInvalid);
    }
    if cfg.paths > u64::MAX / 2 {
        return Err(ConfigError::Overflow);
    }
    let max_time = match compute_max_time(cfg) {
        Ok(v) => v,
        Err(e) => {
            return Err(e);
        },
    };
    let bucket_size = max_time / (cfg.buckets as u64);
    if bucket_size == 0 {
        return Err(ConfigError::BucketWidthZero);
    }
    if !check_fits(cfg) {
        return Err(ConfigError::Overflow);
    }
    let h = generate_ebj(cfg, bucket_size);
    proof {
        assert(h.counts[0]@.len() == cfg.buckets);
        assert(seq_sum(h.counts[0]@) == cfg.paths);
    }
    let tab = normalize(h);
    proof {
        assert forall|k: int| 0 <= k < cfg.retries implies (#[trigger] tab.num[k])@.len()
            == cfg.buckets && seq_sum(tab.num[k]@) == cfg.paths by {
            assert(tab.num[k] == h.counts[k]);
        }
        assert forall|k: int, b: int|
            0 <= k < cfg.retries && 0 <= b < cfg.buckets && !(bucket_of(
                cfg.t_lo((k + 1) as nat),
                tab.bucket_size as int,
                cfg.buckets as int,
            ) <= b <= bucket_of(
                cfg.t_hi((k + 1) as nat),
                tab.bucket_size as int,
                cfg.buckets as int,
            )) implies #[trigger] tab.num[k]@[b] == 0 by {
            assert(tab.num[k] == h.counts[k]);
            assert(h.counts[k]@[b] == 0);
        }
        assert(tab.num[0] == h.counts[0]);
    }
    Ok(tab)
}

} // verus!
