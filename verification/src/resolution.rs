//! Adaptive search for the minimal bin size meeting the coverage criterion.
//!
//! Starting at the base bin width, a coarse scan strides upward (rounding
//! every candidate to a bin-width multiple) until the proportion criterion
//! holds or a hard ceiling is reached; a capped binary search then refines
//! the satisfying upper bound downward.

use vstd::prelude::*;
use vstd::arithmetic::div_mod::{
    lemma_div_is_ordered, lemma_div_multiples_vanish, lemma_fundamental_div_mod,
    lemma_mod_division_less_than_divisor, lemma_mod_multiples_basic,
};
use vstd::arithmetic::mul::lemma_mul_inequality;
use crate::coverage::{clip_u64, spec_good_bins, spec_non_zero_bins, spec_total_contacts,
    sum_lengths, Coverage};

verus! {

/// Hard ceiling of the coarse scan, in base pairs.
pub const MAX_REASONABLE_BIN: u32 = 10_000_000;

/// Cap on binary-search refinement steps.
pub const MAX_BINARY_ITERATIONS: u64 = 100;

/// `v` rounded up to the next multiple of `w`.
pub open spec fn spec_round_up(v: int, w: int) -> int {
    ((v + w - 1) / w) * w
}

/// Rounding up to a multiple lands in `[v, v + w)` and on a multiple.
pub proof fn lemma_round_up_bounds(v: int, w: int)
    requires
        w >= 1,
    ensures
        v <= spec_round_up(v, w) < v + w,
        spec_round_up(v, w) % w == 0,
{
    let x = v + w - 1;
    lemma_fundamental_div_mod(x, w);
    lemma_mod_division_less_than_divisor(x, w);
    assert((x / w) * w == x - x % w) by (nonlinear_arith)
        requires
            x == w * (x / w) + x % w,
    ;
    lemma_mod_multiples_basic(x / w, w);
}

/// Rounds a bin-size candidate up to the next multiple of the base bin
/// width: `((value + bin_width - 1) / bin_width) * bin_width`.
pub fn round_to_bin_multiple(value: u32, bin_width: u32) -> (r: u32)
    requires
        bin_width >= 1,
        value + bin_width - 1 <= u32::MAX,
    ensures
        r == spec_round_up(value as int, bin_width as int),
        value <= r < value + bin_width,
        r % bin_width == 0,
{
    proof {
        lemma_round_up_bounds(value as int, bin_width as int);
    }
    let q = (value + (bin_width - 1)) / bin_width;
    q * bin_width
}

/// `round_to_bin_multiple` over `u64`, for candidates built from strides
/// that may not fit `u32`.
fn round_up_u64(value: u64, w: u64) -> (r: u64)
    requires
        w >= 1,
        value + w - 1 <= u64::MAX,
    ensures
        r == spec_round_up(value as int, w as int),
        value <= r < value + w,
        r % w == 0,
{
    proof {
        lemma_round_up_bounds(value as int, w as int);
    }
    let q = (value + (w - 1)) / w;
    q * w
}

/// A target proportion in `[0, 1]`, held exactly as the rational
/// `num / den`.
pub struct Proportion {
    pub num: u32,
    pub den: u32,
}

impl Proportion {
    /// A valid proportion: positive denominator, value at most 1.
    pub open spec fn wf(self) -> bool {
        0 < self.den && self.num <= self.den
    }
}

/// Outcome of the resolution search. When `satisfied` is false the search
/// hit its ceiling without meeting the criterion and `bin_size` is the
/// rounded ceiling, a best-effort value. The reduction queries that
/// parametrized the search ride along as plain diagnostic data.
pub struct ResolutionResult {
    pub bin_size: u32,
    pub satisfied: bool,
    pub total_contacts: u64,
    pub non_zero_bins: u64,
}

/// Everything the search predicate depends on, fixed for one search.
pub ghost struct SearchParams {
    pub counts: Seq<Seq<u32>>,
    pub bw: u32,
    pub genome: int,
    pub num: int,
    pub den: int,
    pub threshold: u32,
    pub adj: int,
    pub limit: int,
}

/// Number of good bins required at aggregated bin size `b`:
/// `floor(prop * floor(genome / b))`.
pub open spec fn spec_required_bins(genome: int, num: int, den: int, b: int) -> int {
    num * (genome / b) / den
}

/// The coverage criterion at bin size `b`: at least the required number of
/// aggregated bins reach the contact threshold.
pub open spec fn spec_satisfies(p: SearchParams, b: int) -> bool {
    spec_good_bins(p.counts, b / p.bw as int, p.threshold) >= spec_required_bins(
        p.genome,
        p.num,
        p.den,
        b,
    )
}

/// The coarse stride, multiplied by 10 when fewer than 1% of base bins hold
/// any contact.
pub open spec fn spec_adjusted_step(step: u32, non_zero: int, total_base_bins: int) -> int {
    if non_zero * 100 < total_base_bins {
        step as int * 10
    } else {
        step as int
    }
}

/// The coarse-scan ceiling: `MAX_REASONABLE_BIN`, or the genome size (capped
/// to the `u32` range) if smaller.
pub open spec fn spec_limit(genome: int) -> int {
    let g = if genome < 0xffff_ffff {
        genome
    } else {
        0xffff_ffff
    };
    if g < MAX_REASONABLE_BIN {
        g
    } else {
        MAX_REASONABLE_BIN as int
    }
}

/// The next coarse candidate: one stride up, rounded to a bin-width
/// multiple, forced strictly upward if rounding stalled, and capped at the
/// rounded ceiling.
pub open spec fn spec_next_candidate(p: SearchParams, high: int) -> int {
    let n0 = spec_round_up(high + p.adj, p.bw as int);
    let n1 = if n0 == high {
        high + p.bw
    } else {
        n0
    };
    let cap = spec_round_up(p.limit, p.bw as int);
    if n1 > cap {
        cap
    } else {
        n1
    }
}

/// The stride moves strictly upward and never beyond the rounded ceiling.
proof fn lemma_next_candidate_bounds(p: SearchParams, high: int)
    requires
        p.bw >= 1,
        p.adj >= 0,
        high < p.limit,
    ensures
        high < spec_next_candidate(p, high),
        spec_next_candidate(p, high) <= p.limit + p.bw - 1,
{
    lemma_round_up_bounds(high + p.adj, p.bw as int);
    lemma_round_up_bounds(p.limit, p.bw as int);
}

/// The coarse scan, from current bounds `(low, high)`: evaluates the
/// criterion at `high`; on success returns `(low, high, true)`; once the
/// ceiling is reached returns the rounded ceiling with `false`; otherwise
/// slides the window up by one stride.
pub open spec fn spec_coarse(p: SearchParams, low: int, high: int) -> (int, int, bool)
    decreases p.limit + p.bw - high,
        when p.bw >= 1 && p.adj >= 0
        via spec_coarse_decreases
{
    if spec_satisfies(p, high) {
        (low, high, true)
    } else if high >= p.limit {
        (low, spec_round_up(p.limit, p.bw as int), false)
    } else {
        spec_coarse(p, high, spec_next_candidate(p, high))
    }
}

#[via_fn]
proof fn spec_coarse_decreases(p: SearchParams, low: int, high: int) {
    if !spec_satisfies(p, high) && high < p.limit {
        lemma_next_candidate_bounds(p, high);
    }
}

/// The binary refinement: with `low` failing and `high` satisfying, probes
/// the rounded midpoint until the bracket is one bin width wide or the
/// iteration cap is reached, and returns the satisfying upper bound.
pub open spec fn spec_binary(p: SearchParams, low: int, high: int, iter: int) -> int
    decreases 101 - iter,
{
    if high <= low + p.bw {
        high
    } else {
        let mid = spec_round_up(low + (high - low) / 2, p.bw as int);
        let hi2 = if spec_satisfies(p, mid) {
            mid
        } else {
            high
        };
        let lo2 = if spec_satisfies(p, mid) {
            low
        } else {
            mid
        };
        if iter + 1 > MAX_BINARY_ITERATIONS {
            hi2
        } else {
            spec_binary(p, lo2, hi2, iter + 1)
        }
    }
}

/// The search parameters derived from a store and the tunables.
pub open spec fn search_params(
    cov: Coverage,
    prop: Proportion,
    threshold: u32,
    step: u32,
) -> SearchParams {
    let genome = sum_lengths(cov.chr_lengths@);
    SearchParams {
        counts: cov.counts(),
        bw: cov.bin_width,
        genome: genome,
        num: prop.num as int,
        den: prop.den as int,
        threshold: threshold,
        adj: spec_adjusted_step(
            step,
            spec_non_zero_bins(cov.counts()),
            genome / cov.bin_width as int,
        ),
        limit: spec_limit(genome),
    }
}

/// The bin size and satisfaction flag the whole search returns.
pub open spec fn spec_search_outcome(p: SearchParams) -> (int, bool) {
    let (low, high, found) = spec_coarse(p, p.bw as int, p.bw as int);
    if found {
        (spec_binary(p, low, high, 0), true)
    } else {
        (high, false)
    }
}

/// The required-bin count never exceeds the total bin count.
proof fn lemma_required_le_total(num: int, den: int, tb: int)
    requires
        0 <= num <= den,
        1 <= den,
        0 <= tb,
    ensures
        0 <= num * tb / den <= tb,
{
    lemma_mul_inequality(num, den, tb);
    assert(num * tb >= 0) by (nonlinear_arith)
        requires
            num >= 0,
            tb >= 0,
    ;
    lemma_div_is_ordered(num * tb, den * tb, den);
    lemma_div_multiples_vanish(tb, den);
    assert(den * tb == tb * den) by (nonlinear_arith);
    vstd::arithmetic::div_mod::lemma_div_pos_is_pos(num * tb, den);
}

/// Chromosome-length sums are non-negative.
proof fn lemma_sum_lengths_nonneg(lengths: Seq<u32>)
    ensures
        sum_lengths(lengths) >= 0,
    decreases lengths.len(),
{
    if lengths.len() > 0 {
        lemma_sum_lengths_nonneg(lengths.drop_last());
    }
}

/// Two multiples of `w` more than `w` apart are at least `2 * w` apart.
proof fn lemma_multiple_gap(low: int, high: int, w: int)
    requires
        w >= 1,
        low % w == 0,
        high % w == 0,
        high > low + w,
    ensures
        high >= low + 2 * w,
{
    lemma_fundamental_div_mod(low, w);
    lemma_fundamental_div_mod(high, w);
    let ql = low / w;
    let qh = high / w;
    assert(high - low == w * (qh - ql)) by (nonlinear_arith)
        requires
            low == w * ql,
            high == w * qh,
    ;
    assert(qh - ql >= 2) by (nonlinear_arith)
        requires
            w >= 1,
            w * (qh - ql) > w,
    ;
    assert(w * (qh - ql) >= 2 * w) by (nonlinear_arith)
        requires
            w >= 1,
            qh - ql >= 2,
    ;
}

/// The rounded ceiling fits the `u32` range: it is at most the bin width
/// when the ceiling is below it, and below twice the ceiling otherwise.
proof fn lemma_cap_fits(limit: int, w: int)
    requires
        1 <= w <= u32::MAX,
        0 <= limit <= MAX_REASONABLE_BIN,
    ensures
        0 <= spec_round_up(limit, w) <= u32::MAX,
{
    lemma_round_up_bounds(limit, w);
    if limit <= w {
        let q = (limit + w - 1) / w;
        assert(q <= 1) by (nonlinear_arith)
            requires
                w >= 1,
                limit <= w,
                q == (limit + w - 1) / w,
        ;
        assert(q >= 0) by (nonlinear_arith)
            requires
                w >= 1,
                limit >= 0,
                q == (limit + w - 1) / w,
        ;
        assert(q * w <= w) by (nonlinear_arith)
            requires
                w >= 1,
                0 <= q <= 1,
        ;
    }
}

/// Properties of the coarse-scan outcome: the returned bounds stay on
/// bin-width multiples; on success the upper bound satisfies the criterion
/// and the bounds bracket it; on failure the rounded ceiling is returned.
proof fn lemma_coarse_props(p: SearchParams, low: int, high: int)
    requires
        p.bw >= 1,
        p.adj >= 0,
        low % p.bw as int == 0,
        high % p.bw as int == 0,
        p.bw <= low <= high,
    ensures
        ({
            let (lo2, hi2, found) = spec_coarse(p, low, high);
            &&& found ==> {
                &&& spec_satisfies(p, hi2)
                &&& p.bw <= lo2 <= hi2
                &&& lo2 % p.bw as int == 0
                &&& hi2 % p.bw as int == 0
            }
            &&& !found ==> hi2 == spec_round_up(p.limit, p.bw as int)
        }),
    decreases p.limit + p.bw - high,
{
    if spec_satisfies(p, high) {
    } else if high >= p.limit {
    } else {
        lemma_next_candidate_bounds(p, high);
        let next = spec_next_candidate(p, high);
        lemma_round_up_bounds(high + p.adj, p.bw as int);
        lemma_round_up_bounds(p.limit, p.bw as int);
        assert(next % p.bw as int == 0) by {
            if spec_round_up(high + p.adj, p.bw as int) == high {
                vstd::arithmetic::div_mod::lemma_mod_add_multiples_vanish(
                    high,
                    p.bw as int,
                );
                assert((high + p.bw) % p.bw as int == 0);
            }
        }
        lemma_coarse_props(p, high, next);
    }
}

/// Properties of the binary refinement: starting from a satisfying upper
/// bound on bin-width multiples, the result is a satisfying bin-width
/// multiple of at least one bin width.
proof fn lemma_binary_props(p: SearchParams, low: int, high: int, iter: int)
    requires
        p.bw >= 1,
        spec_satisfies(p, high),
        low % p.bw as int == 0,
        high % p.bw as int == 0,
        p.bw <= low <= high,
    ensures
        ({
            let r = spec_binary(p, low, high, iter);
            &&& spec_satisfies(p, r)
            &&& r % p.bw as int == 0
            &&& p.bw <= r
        }),
    decreases 101 - iter,
{
    if high <= low + p.bw {
    } else {
        lemma_multiple_gap(low, high, p.bw as int);
        let mid = spec_round_up(low + (high - low) / 2, p.bw as int);
        lemma_round_up_bounds(low + (high - low) / 2, p.bw as int);
        assert(low + p.bw <= low + (high - low) / 2);
        assert(low + (high - low) / 2 <= high - p.bw);
        let hi2 = if spec_satisfies(p, mid) {
            mid
        } else {
            high
        };
        let lo2 = if spec_satisfies(p, mid) {
            low
        } else {
            mid
        };
        if iter + 1 > MAX_BINARY_ITERATIONS {
        } else {
            lemma_binary_props(p, lo2, hi2, iter + 1);
        }
    }
}

/// Finds the minimal multiple of the base bin width at which at least
/// `prop` of the aggregated bins hold at least `count_threshold` contacts:
/// a coarse upward scan locates a satisfying upper bound, then a capped
/// binary refinement narrows it. When no bin size up to the hard ceiling
/// satisfies the criterion, the rounded ceiling is returned with
/// `satisfied == false` — a reportable, best-effort result, not an error.
pub fn find_resolution(
    coverage: &Coverage,
    prop: Proportion,
    count_threshold: u32,
    step_size: u32,
) -> (r: ResolutionResult)
    requires
        coverage.wf(),
        prop.wf(),
    ensures
        ({
            let p = search_params(*coverage, prop, count_threshold, step_size);
            &&& r.bin_size as int == spec_search_outcome(p).0
            &&& r.satisfied == spec_search_outcome(p).1
            &&& r.satisfied ==> spec_satisfies(p, r.bin_size as int)
            &&& r.satisfied ==> coverage.bin_width <= r.bin_size
            &&& r.bin_size as int % coverage.bin_width as int == 0
            &&& spec_satisfies(p, coverage.bin_width as int) ==> r.bin_size
                == coverage.bin_width && r.satisfied
            &&& r.total_contacts == clip_u64(spec_total_contacts(coverage.counts()))
            &&& r.non_zero_bins == spec_non_zero_bins(coverage.counts())
        }),
{
    let ghost p = search_params(*coverage, prop, count_threshold, step_size);
    let bw = coverage.bin_width;
    let genome_size: u64 = coverage.total_genome_size();
    let total_contacts: u64 = coverage.get_total_contacts();
    let non_zero: u64 = coverage.get_non_zero_bins();
    let total_base_bins: u64 = genome_size / (bw as u64);
    let adjusted: u64 = if (non_zero as u128) * 100 < (total_base_bins as u128) {
        step_size as u64 * 10
    } else {
        step_size as u64
    };
    proof {
        lemma_sum_lengths_nonneg(coverage.chr_lengths@);
        assert(p.genome == genome_size as int);
        assert(p.adj == adjusted as int);
    }
    let g_cap: u64 = if genome_size < 0xffff_ffffu64 {
        genome_size
    } else {
        0xffff_ffffu64
    };
    let g32: u32 = g_cap as u32;
    let limit: u32 = if g32 < MAX_REASONABLE_BIN {
        g32
    } else {
        MAX_REASONABLE_BIN
    };
    proof {
        assert(p.limit == limit as int);
        lemma_cap_fits(limit as int, bw as int);
        lemma_round_up_bounds(limit as int, bw as int);
    }
    let cap64: u64 = round_up_u64(limit as u64, bw as u64);
    let cap: u32 = cap64 as u32;
    proof {
        assert(cap as int == spec_round_up(p.limit, p.bw as int));
        vstd::arithmetic::div_mod::lemma_mod_self_0(bw as int);
    }
    let mut low: u32 = bw;
    let mut high: u32 = bw;
    let mut found = false;
    let mut done = false;
    while !done
        invariant
            low as int % bw as int == 0,
            high as int % bw as int == 0,
            (found || !done) ==> bw <= low <= high,
            high as int <= p.limit + p.bw,
            !done ==> !found,
            !done ==> spec_coarse(p, low as int, high as int) == spec_coarse(
                p,
                p.bw as int,
                p.bw as int,
            ),
            done ==> spec_coarse(p, p.bw as int, p.bw as int) == (
                low as int,
                high as int,
                found,
            ),
            found ==> spec_satisfies(p, high as int),
            high >= 1,
        decreases (if done {
            0int
        } else {
            1int
        }), p.limit + p.bw - high as int,
    {
        let good = coverage.count_good_bins(high, count_threshold);
        let total_bins: u64 = genome_size / (high as u64);
        proof {
            vstd::arithmetic::mul::lemma_mul_upper_bound(
                prop.num as int,
                u32::MAX as int,
                total_bins as int,
                u64::MAX as int,
            );
        }
        let required_w: u128 = (prop.num as u128) * (total_bins as u128) / (prop.den as u128);
        proof {
            lemma_required_le_total(prop.num as int, prop.den as int, total_bins as int);
        }
        let required: u64 = required_w as u64;
        proof {
            assert(required as int == spec_required_bins(p.genome, p.num, p.den, high as int));
            assert((good >= required) == spec_satisfies(p, high as int));
        }
        if good >= required {
            found = true;
            done = true;
        } else if high >= limit {
            high = cap;
            done = true;
        } else {
            let n0: u64 = round_up_u64(high as u64 + adjusted, bw as u64);
            let n1: u64 = if n0 == high as u64 {
                high as u64 + bw as u64
            } else {
                n0
            };
            let next: u32 = if n1 > cap as u64 {
                cap
            } else {
                n1 as u32
            };
            proof {
                lemma_next_candidate_bounds(p, high as int);
                assert(next as int == spec_next_candidate(p, high as int));
                lemma_round_up_bounds(high as int + p.adj, p.bw as int);
                if n0 == high as u64 {
                    vstd::arithmetic::div_mod::lemma_mod_add_multiples_vanish(
                        high as int,
                        bw as int,
                    );
                }
            }
            low = high;
            high = next;
        }
    }
    let ghost lc = low as int;
    let ghost hc = high as int;
    if found {
        let mut iter: u64 = 0;
        let mut bdone = false;
        while !bdone
            invariant
                low as int % bw as int == 0,
                high as int % bw as int == 0,
                bw <= low <= high,
                spec_satisfies(p, high as int),
                0 <= iter <= 101,
                !bdone ==> iter <= 100,
                !bdone ==> spec_binary(p, low as int, high as int, iter as int) == spec_binary(
                    p,
                    lc,
                    hc,
                    0,
                ),
                bdone ==> high as int == spec_binary(p, lc, hc, 0),
            decreases (if bdone {
                0int
            } else {
                1int
            }), high as int - low as int,
        {
            if !((high as u64) > (low as u64) + (bw as u64)) {
                bdone = true;
            } else {
                proof {
                    lemma_multiple_gap(low as int, high as int, bw as int);
                }
                let diff = high - low;
                let mid_raw = low + diff / 2;
                proof {
                    lemma_round_up_bounds(mid_raw as int, bw as int);
                }
                let mid = round_to_bin_multiple(mid_raw, bw);
                proof {
                    assert(low < mid < high);
                }
                let good = coverage.count_good_bins(mid, count_threshold);
                let total_bins: u64 = genome_size / (mid as u64);
                proof {
                    vstd::arithmetic::mul::lemma_mul_upper_bound(
                        prop.num as int,
                        u32::MAX as int,
                        total_bins as int,
                        u64::MAX as int,
                    );
                }
                let required_w: u128 = (prop.num as u128) * (total_bins as u128) / (
                prop.den as u128);
                proof {
                    lemma_required_le_total(prop.num as int, prop.den as int, total_bins as int);
                }
                let required: u64 = required_w as u64;
                proof {
                    assert(required as int == spec_required_bins(
                        p.genome,
                        p.num,
                        p.den,
                        mid as int,
                    ));
                    assert((good >= required) == spec_satisfies(p, mid as int));
                }
                let ghost old_low = low as int;
                let ghost old_high = high as int;
                let ghost old_iter = iter as int;
                if good >= required {
                    high = mid;
                } else {
                    low = mid;
                }
                iter = iter + 1;
                if iter > MAX_BINARY_ITERATIONS {
                    bdone = true;
                }
                proof {
                    assert(spec_binary(p, old_low, old_high, old_iter) == if old_iter + 1 > 100 {
                        high as int
                    } else {
                        spec_binary(p, low as int, high as int, old_iter + 1)
                    });
                }
            }
        }
    }
    let r = ResolutionResult {
        bin_size: high,
        satisfied: found,
        total_contacts,
        non_zero_bins: non_zero,
    };
    proof {
        if spec_satisfies(p, p.bw as int) {
            assert(spec_coarse(p, p.bw as int, p.bw as int) == (p.bw as int, p.bw as int, true));
            assert(spec_binary(p, p.bw as int, p.bw as int, 0) == p.bw as int);
        }
    }
    r
}

} // verus!
