use hic_resolution::aggregate::{aggregate_pairs_chunk, merge_summary};
use hic_resolution::coverage::Coverage;
use hic_resolution::utils::Pair;

fn flat(c: &Coverage) -> Vec<Vec<u32>> {
    c.bins.clone()
}

#[test]
fn single_increment_touches_exactly_one_counter() {
    let mut cov = Coverage::from_lengths(50, vec![1000, 2000]);
    let before = flat(&cov);
    cov.increment(1, 60);
    let after = flat(&cov);
    for c in 0..after.len() {
        for b in 0..after[c].len() {
            if c == 0 && b == 1 {
                assert_eq!(after[c][b], before[c][b] + 1);
            } else {
                assert_eq!(after[c][b], before[c][b]);
            }
        }
    }
}

#[test]
fn increments_count_by_bin_regardless_of_order() {
    // bin_width 50: positions 10 and 15 fall in bin 0, position 60 in bin 1.
    let orders: [[(u8, u32); 3]; 3] = [
        [(1, 10), (1, 60), (1, 15)],
        [(1, 60), (1, 15), (1, 10)],
        [(1, 15), (1, 10), (1, 60)],
    ];
    for order in orders.iter() {
        let mut cov = Coverage::from_lengths(50, vec![1000]);
        for &(chr, pos) in order.iter() {
            cov.increment(chr, pos);
        }
        assert_eq!(cov.bins[0][0], 2);
        assert_eq!(cov.bins[0][1], 1);
        for b in 2..cov.bins[0].len() {
            assert_eq!(cov.bins[0][b], 0);
        }
    }
}

#[test]
fn aggregation_matches_per_record_increments_and_any_partition() {
    let mut pairs: Vec<Pair> = Vec::new();
    for i in 0..200u32 {
        pairs.push(Pair { chr1: 1, pos1: (i * 7) % 1000, chr2: 2, pos2: (i * 13) % 2000 });
    }
    // Per-record path.
    let mut seq_cov = Coverage::from_lengths(50, vec![1000, 2000]);
    for p in pairs.iter() {
        seq_cov.add_pair(p);
    }
    // One batch through the parallel aggregator.
    let mut batch_cov = Coverage::from_lengths(50, vec![1000, 2000]);
    aggregate_pairs_chunk(&pairs, &mut batch_cov, 16000);
    // Two batches, records reordered across the cut.
    let mut rev: Vec<Pair> = pairs.clone();
    rev.reverse();
    let (head, tail) = rev.split_at(37);
    let mut split_cov = Coverage::from_lengths(50, vec![1000, 2000]);
    aggregate_pairs_chunk(head, &mut split_cov, 16000);
    aggregate_pairs_chunk(tail, &mut split_cov, 16000);
    assert_eq!(flat(&seq_cov), flat(&batch_cov));
    assert_eq!(flat(&seq_cov), flat(&split_cov));
}

#[test]
fn out_of_range_endpoints_change_nothing() {
    let mut cov = Coverage::from_lengths(50, vec![1000, 2000]);
    let before = flat(&cov);
    cov.increment(0, 10); // chromosome index below range
    cov.increment(3, 10); // chromosome index above range
    cov.increment(1, 1000); // position at the chromosome length
    cov.increment(2, 40_000); // position far past the length
    cov.add_pair(&Pair { chr1: 0, pos1: 5, chr2: 9, pos2: 5 });
    assert_eq!(flat(&cov), before);
    assert_eq!(cov.get_total_contacts(), 0);
}

#[test]
fn saturating_counters_never_wrap() {
    let mut cov = Coverage::from_lengths(50, vec![100]);
    // Drive bin 0 of chromosome 1 to the ceiling through the merge path,
    // then keep pushing: the counter must pin at u32::MAX, not reset.
    let entries: Vec<(u64, u32)> = vec![(0, u32::MAX - 1)];
    merge_summary(&mut cov, &entries);
    assert_eq!(cov.bins[0][0], u32::MAX - 1);
    merge_summary(&mut cov, &entries);
    assert_eq!(cov.bins[0][0], u32::MAX);
    cov.increment(1, 0);
    assert_eq!(cov.bins[0][0], u32::MAX);
}

#[test]
fn count_good_bins_reaggregates_base_bins() {
    // Base bins [5, 3, 0, 12] at bin_width 10; chunks of 20 bp are
    // [5+3, 0+12] = [8, 12]; with threshold 10 exactly one chunk is good.
    let mut cov = Coverage::from_lengths(10, vec![34]);
    assert_eq!(cov.bins[0].len(), 4);
    for _ in 0..5 {
        cov.increment(1, 0);
    }
    for _ in 0..3 {
        cov.increment(1, 10);
    }
    for _ in 0..12 {
        cov.increment(1, 30);
    }
    assert_eq!(cov.bins[0], vec![5, 3, 0, 12]);
    assert_eq!(cov.get_counts(20), vec![vec![8, 12]]);
    assert_eq!(cov.count_good_bins(20, 10), 1);
}

#[test]
fn count_good_bins_monotone_in_threshold() {
    let mut cov = Coverage::from_lengths(10, vec![34]);
    for _ in 0..5 {
        cov.increment(1, 0);
    }
    for _ in 0..3 {
        cov.increment(1, 10);
    }
    for _ in 0..12 {
        cov.increment(1, 30);
    }
    let thresholds = [0u32, 1, 8, 10, 12, 13, 100];
    let mut prev = cov.count_good_bins(20, thresholds[0]);
    for &t in &thresholds[1..] {
        let cur = cov.count_good_bins(20, t);
        assert!(cur <= prev, "good bins grew from {} to {} at threshold {}", prev, cur, t);
        prev = cur;
    }
    assert_eq!(cov.count_good_bins(20, 8), 2);
    assert_eq!(cov.count_good_bins(20, 13), 0);
}

#[test]
fn reduction_queries_report_the_store() {
    let mut cov = Coverage::from_lengths(50, vec![1000, 2000]);
    assert_eq!(cov.total_genome_size(), 3000);
    assert_eq!(cov.get_total_contacts(), 0);
    assert_eq!(cov.get_non_zero_bins(), 0);
    cov.increment(1, 0);
    cov.increment(1, 10);
    cov.increment(2, 1999);
    assert_eq!(cov.get_total_contacts(), 3);
    assert_eq!(cov.get_non_zero_bins(), 2);
}

#[test]
fn new_without_lengths_uses_the_default_genome() {
    let cov = Coverage::new(1_000_000, None);
    let lengths = hic_resolution::utils::get_default_genome_lengths();
    assert_eq!(cov.chr_lengths, lengths);
    assert_eq!(cov.bins.len(), 24);
    assert_eq!(cov.bins[0].len(), (lengths[0] / 1_000_000 + 1) as usize);
}

#[test]
fn short_chromosomes_still_get_one_bin() {
    let cov = Coverage::from_lengths(50, vec![0, 7]);
    assert_eq!(cov.bins[0].len(), 1);
    assert_eq!(cov.bins[1].len(), 1);
}

#[test]
fn trailing_chunk_may_be_shorter() {
    // 4 base bins cut into chunks of 3: sums [5+3+0, 12] = [8, 12].
    let mut cov = Coverage::from_lengths(10, vec![34]);
    for _ in 0..5 {
        cov.increment(1, 0);
    }
    for _ in 0..3 {
        cov.increment(1, 10);
    }
    for _ in 0..12 {
        cov.increment(1, 30);
    }
    assert_eq!(cov.get_counts(30), vec![vec![8, 12]]);
    assert_eq!(cov.count_good_bins(30, 9), 1);
    assert_eq!(cov.count_good_bins(30, 8), 2);
}

#[test]
fn aggregation_drops_out_of_range_endpoints() {
    let mut cov = Coverage::from_lengths(50, vec![1000]);
    let pairs = vec![
        Pair { chr1: 1, pos1: 10, chr2: 9, pos2: 10 },
        Pair { chr1: 0, pos1: 10, chr2: 1, pos2: 1000 },
        Pair { chr1: 1, pos1: 999, chr2: 1, pos2: 40_000 },
    ];
    aggregate_pairs_chunk(&pairs, &mut cov, 16000);
    // Only (1, 10) and (1, 999) survive.
    assert_eq!(cov.get_total_contacts(), 2);
    assert_eq!(cov.bins[0][0], 1);
    assert_eq!(cov.bins[0][19], 1);
}
