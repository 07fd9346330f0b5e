use hic_resolution::coverage::Coverage;
use hic_resolution::resolution::{find_resolution, round_to_bin_multiple, Proportion};
use hic_resolution::utils::Pair;

#[test]
fn test_round_to_bin_multiple() {
    assert_eq!(round_to_bin_multiple(75, 50), 100);
    assert_eq!(round_to_bin_multiple(100, 50), 100);
    assert_eq!(round_to_bin_multiple(125, 50), 150);
    assert_eq!(round_to_bin_multiple(1, 50), 50);
}

/// A synthetic genome of 2 chromosomes (1000 and 2000 bp) at bin width 50,
/// loaded so that exactly 80% of the 100 bp bins reach 1000 contacts while
/// the only smaller multiple, 50 bp, does not reach the proportion.
fn build_engineered_coverage() -> Coverage {
    let mut cov = Coverage::from_lengths(50, vec![1000, 2000]);
    let mut pairs: Vec<Pair> = Vec::new();
    // Chromosome 1: 100 bp chunks 0..=9 (of 11); chromosome 2: chunks 0..=13
    // (of 21). 24 good chunks of 32; required at 100 bp is
    // floor(0.8 * (3000 / 100)) = 24. At 50 bp only 24 of the required 48
    // base bins are good.
    for j in 0..10u32 {
        for _ in 0..500 {
            pairs.push(Pair { chr1: 1, pos1: j * 100, chr2: 1, pos2: j * 100 });
        }
    }
    for j in 0..14u32 {
        for _ in 0..500 {
            pairs.push(Pair { chr1: 2, pos1: j * 100, chr2: 2, pos2: j * 100 });
        }
    }
    hic_resolution::aggregate::aggregate_pairs_chunk(&pairs, &mut cov, 16000);
    cov
}

fn run_search(cov: &Coverage) -> (u32, bool) {
    let r = find_resolution(cov, Proportion { num: 4, den: 5 }, 1000, 50);
    (r.bin_size, r.satisfied)
}

#[test]
fn end_to_end_resolution_is_100bp_with_any_pool_size() {
    let single = rayon::ThreadPoolBuilder::new().num_threads(1).build().unwrap();
    let (size1, sat1) = single.install(|| {
        let cov = build_engineered_coverage();
        run_search(&cov)
    });
    let eight = rayon::ThreadPoolBuilder::new().num_threads(8).build().unwrap();
    let (size8, sat8) = eight.install(|| {
        let cov = build_engineered_coverage();
        run_search(&cov)
    });
    assert_eq!(size1, 100);
    assert!(sat1);
    assert_eq!(size8, 100);
    assert!(sat8);
    assert_eq!(size1, size8);
}

#[test]
fn base_resolution_is_considered_first() {
    // Every 50 bp bin of a tiny genome holds a contact: the base bin width
    // itself satisfies any proportion at threshold 1.
    let mut cov = Coverage::from_lengths(50, vec![199]);
    for b in 0..4u32 {
        cov.increment(1, b * 50);
    }
    let r = find_resolution(&cov, Proportion { num: 1, den: 1 }, 1, 1000);
    assert_eq!(r.bin_size, 50);
    assert!(r.satisfied);
}

#[test]
fn unreachable_criterion_returns_the_rounded_ceiling() {
    // An empty store never meets a positive threshold on a large genome:
    // the coarse scan must stop at its hard ceiling of 10 Mb and report the
    // result as not satisfying.
    let cov = Coverage::from_lengths(50, vec![30_000_000]);
    let r = find_resolution(&cov, Proportion { num: 4, den: 5 }, 1000, 1_000_000);
    assert!(!r.satisfied);
    assert_eq!(r.bin_size, 10_000_000);
    assert_eq!(r.bin_size % 50, 0);
}

#[test]
fn search_reports_the_reduction_queries() {
    let mut cov = Coverage::from_lengths(50, vec![1000]);
    cov.increment(1, 0);
    cov.increment(1, 0);
    cov.increment(1, 999);
    let r = find_resolution(&cov, Proportion { num: 4, den: 5 }, 1, 50);
    assert_eq!(r.total_contacts, 3);
    assert_eq!(r.non_zero_bins, 2);
}

#[test]
fn sparse_data_widens_the_stride_but_still_converges() {
    // One contact-rich bin in a large genome: sparsity below 1% multiplies
    // the coarse stride by 10; the refinement must still land on the
    // smallest bin-width multiple whose required-bin count drops to the one
    // good bin, here 10050 bp.
    let mut cov = Coverage::from_lengths(50, vec![2_000_000]);
    for _ in 0..1000 {
        cov.increment(1, 0);
    }
    let r = find_resolution(&cov, Proportion { num: 1, den: 100 }, 1000, 1000);
    assert!(r.satisfied);
    assert_eq!(r.bin_size, 10050);
}
