//! Per-chromosome binned contact counters at a fixed base bin width.

use vstd::prelude::*;
use vstd::arithmetic::div_mod::{
    lemma_div_is_ordered, lemma_div_nonincreasing, lemma_fundamental_div_mod,
};
use crate::utils::Pair;
use rayon::iter::{IntoParallelRefIterator, ParallelIterator};

verus! {

/// Saturating addition of a non-negative amount to a `u32` counter:
/// the counter is pinned at `u32::MAX` instead of wrapping.
pub open spec fn sat_add(x: u32, n: int) -> u32 {
    if x + n > u32::MAX { u32::MAX } else { (x + n) as u32 }
}

/// Number of base bins allocated for a chromosome of length `length`:
/// `floor(length / bin_width) + 1`, so even `length < bin_width` yields one bin.
pub open spec fn num_base_bins(length: u32, bin_width: u32) -> int {
    length as int / bin_width as int + 1
}

/// An endpoint `(chr, pos)` contributes a count only when the 1-based
/// chromosome index is in range and the position is inside the chromosome.
pub open spec fn valid_endpoint(lengths: Seq<u32>, chr: u8, pos: u32) -> bool {
    &&& 1 <= chr as int
    &&& chr as int <= lengths.len()
    &&& pos < lengths[chr as int - 1]
}

/// The binned counter arrays after one endpoint increment: a no-op for an
/// out-of-range endpoint, otherwise a saturating `+1` on the one counter
/// the position falls in.
pub open spec fn spec_increment(
    counts: Seq<Seq<u32>>,
    lengths: Seq<u32>,
    bin_width: u32,
    chr: u8,
    pos: u32,
) -> Seq<Seq<u32>> {
    if valid_endpoint(lengths, chr, pos) && counts.len() == lengths.len() {
        let c = chr as int - 1;
        let b = pos as int / bin_width as int;
        counts.update(c, counts[c].update(b, sat_add(counts[c][b], 1)))
    } else {
        counts
    }
}

/// The rows of a `Vec<Vec<u32>>` as a sequence of counter sequences.
pub open spec fn rows(bins: Seq<Vec<u32>>) -> Seq<Seq<u32>> {
    Seq::new(bins.len(), |c: int| bins[c]@)
}

/// Sum of the counters `row[from..to]`.
pub open spec fn range_sum(row: Seq<u32>, from: int, to: int) -> int
    decreases to - from,
{
    if from >= to {
        0
    } else {
        range_sum(row, from, to - 1) + row[to - 1]
    }
}

/// Number of aggregation chunks of `k` consecutive base bins covering a row
/// of `row_len` base bins; the last chunk may be shorter.
pub open spec fn num_chunks(row_len: int, k: int) -> int {
    (row_len + k - 1) / k
}

/// Exclusive end index of chunk `j` in a row of `row_len` base bins.
pub open spec fn chunk_end(row_len: int, k: int, j: int) -> int {
    if (j + 1) * k < row_len {
        (j + 1) * k
    } else {
        row_len
    }
}

/// Sum of the base-bin counters of chunk `j` of a row.
pub open spec fn chunk_sum(row: Seq<u32>, k: int, j: int) -> int {
    range_sum(row, j * k, chunk_end(row.len() as int, k, j))
}

/// Number of chunks among the first `j` chunks of a row whose counter sum
/// reaches `threshold`.
pub open spec fn good_chunks_upto(row: Seq<u32>, k: int, threshold: u32, j: int) -> int
    decreases j,
{
    if j <= 0 {
        0
    } else {
        good_chunks_upto(row, k, threshold, j - 1) + if chunk_sum(row, k, j - 1)
            >= threshold { 1int } else { 0int }
    }
}

/// Number of good chunks in one whole row.
pub open spec fn good_chunks_in_row(row: Seq<u32>, k: int, threshold: u32) -> int {
    good_chunks_upto(row, k, threshold, num_chunks(row.len() as int, k))
}

/// Number of good chunks in the first `c` rows.
pub open spec fn good_bins_upto(counts: Seq<Seq<u32>>, k: int, threshold: u32, c: int) -> int
    decreases c,
{
    if c <= 0 {
        0
    } else {
        good_bins_upto(counts, k, threshold, c - 1) + good_chunks_in_row(
            counts[c - 1],
            k,
            threshold,
        )
    }
}

/// Number of aggregated chunks of `k` consecutive base bins, over the whole
/// genome, whose counter sum reaches `threshold`.
pub open spec fn spec_good_bins(counts: Seq<Seq<u32>>, k: int, threshold: u32) -> int {
    good_bins_upto(counts, k, threshold, counts.len() as int)
}

/// Sum of a sequence of chromosome lengths.
pub open spec fn sum_lengths(lengths: Seq<u32>) -> int
    decreases lengths.len(),
{
    if lengths.len() == 0 {
        0
    } else {
        sum_lengths(lengths.drop_last()) + lengths.last()
    }
}

/// Sum of all counters of the first `c` rows.
pub open spec fn total_upto(counts: Seq<Seq<u32>>, c: int) -> int
    decreases c,
{
    if c <= 0 {
        0
    } else {
        total_upto(counts, c - 1) + range_sum(counts[c - 1], 0, counts[c - 1].len() as int)
    }
}

/// Sum of all counters of the store.
pub open spec fn spec_total_contacts(counts: Seq<Seq<u32>>) -> int {
    total_upto(counts, counts.len() as int)
}

/// Number of non-zero counters in `row[0..to]`.
pub open spec fn non_zero_upto(row: Seq<u32>, to: int) -> int
    decreases to,
{
    if to <= 0 {
        0
    } else {
        non_zero_upto(row, to - 1) + if row[to - 1] > 0 { 1int } else { 0int }
    }
}

/// Number of non-zero counters in the first `c` rows.
pub open spec fn non_zero_rows_upto(counts: Seq<Seq<u32>>, c: int) -> int
    decreases c,
{
    if c <= 0 {
        0
    } else {
        non_zero_rows_upto(counts, c - 1) + non_zero_upto(counts[c - 1], counts[c - 1].len() as int)
    }
}

/// Number of non-zero base-bin counters in the store.
pub open spec fn spec_non_zero_bins(counts: Seq<Seq<u32>>) -> int {
    non_zero_rows_upto(counts, counts.len() as int)
}

/// Point-locality law: one increment of a valid endpoint whose counter is
/// not saturated raises exactly that counter by exactly 1 and changes no
/// other counter.
pub proof fn lemma_increment_point_locality(
    counts: Seq<Seq<u32>>,
    lengths: Seq<u32>,
    bin_width: u32,
    chr: u8,
    pos: u32,
)
    requires
        bin_width > 0,
        counts.len() == lengths.len(),
        valid_endpoint(lengths, chr, pos),
        (pos as int / bin_width as int) < counts[chr as int - 1].len(),
        counts[chr as int - 1][pos as int / bin_width as int] < u32::MAX,
    ensures
        ({
            let after = spec_increment(counts, lengths, bin_width, chr, pos);
            let c = chr as int - 1;
            let b = pos as int / bin_width as int;
            &&& after.len() == counts.len()
            &&& forall|c2: int| 0 <= c2 < counts.len() ==> (#[trigger] after[c2]).len()
                == counts[c2].len()
            &&& after[c][b] == counts[c][b] + 1
            &&& forall|c2: int, b2: int|
                0 <= c2 < counts.len() && 0 <= b2 < counts[c2].len() && !(c2 == c && b2 == b)
                    ==> #[trigger] after[c2][b2] == counts[c2][b2]
        }),
{
}

/// Silent-drop law: an out-of-range endpoint (chromosome index outside the
/// layout, or position at or past the chromosome's length) changes nothing.
pub proof fn lemma_increment_out_of_range(
    counts: Seq<Seq<u32>>,
    lengths: Seq<u32>,
    bin_width: u32,
    chr: u8,
    pos: u32,
)
    requires
        !valid_endpoint(lengths, chr, pos),
    ensures
        spec_increment(counts, lengths, bin_width, chr, pos) == counts,
{
}

/// Saturation law: a saturating counter never wraps. It grows monotonically
/// with the amount added, never exceeds `u32::MAX`, is exact below the
/// ceiling, and stays pinned at the ceiling once reached.
pub proof fn lemma_sat_add_never_wraps(x: u32, n: int)
    requires
        n >= 0,
    ensures
        x <= sat_add(x, n) <= u32::MAX,
        x + n <= u32::MAX ==> sat_add(x, n) == x + n,
        x + n > u32::MAX ==> sat_add(x, n) == u32::MAX,
        x == u32::MAX ==> sat_add(x, n) == u32::MAX,
{
}

/// Threshold-monotonicity law for one row prefix: raising the threshold
/// never lets more chunks qualify.
proof fn lemma_good_chunks_upto_monotone(row: Seq<u32>, k: int, t1: u32, t2: u32, j: int)
    requires
        t1 <= t2,
    ensures
        good_chunks_upto(row, k, t2, j) <= good_chunks_upto(row, k, t1, j),
    decreases j,
{
    if j > 0 {
        lemma_good_chunks_upto_monotone(row, k, t1, t2, j - 1);
    }
}

/// Threshold-monotonicity law: for a fixed aggregation size, the number of
/// good bins is monotone non-increasing in the contact threshold.
pub proof fn lemma_good_bins_threshold_monotone(
    counts: Seq<Seq<u32>>,
    k: int,
    t1: u32,
    t2: u32,
)
    requires
        t1 <= t2,
    ensures
        spec_good_bins(counts, k, t2) <= spec_good_bins(counts, k, t1),
{
    lemma_good_bins_upto_monotone(counts, k, t1, t2, counts.len() as int);
}

/// Threshold monotonicity over a prefix of the rows.
proof fn lemma_good_bins_upto_monotone(counts: Seq<Seq<u32>>, k: int, t1: u32, t2: u32, c: int)
    requires
        t1 <= t2,
    ensures
        good_bins_upto(counts, k, t2, c) <= good_bins_upto(counts, k, t1, c),
    decreases c,
{
    if c > 0 {
        lemma_good_bins_upto_monotone(counts, k, t1, t2, c - 1);
        lemma_good_chunks_upto_monotone(
            counts[c - 1],
            k,
            t1,
            t2,
            num_chunks(counts[c - 1].len() as int, k),
        );
    }
}

/// A non-negative amount clipped to the `u64` range.
pub open spec fn clip_u64(n: int) -> int {
    if n > u64::MAX {
        u64::MAX as int
    } else {
        n
    }
}

/// One row of `get_counts` output: the clipped sum of every chunk of `k`
/// consecutive base bins.
pub open spec fn spec_counts_row(row: Seq<u32>, k: int) -> Seq<u32> {
    Seq::new(
        if num_chunks(row.len() as int, k) >= 0 {
            num_chunks(row.len() as int, k) as nat
        } else {
            0
        },
        |j: int| sat_add(0, chunk_sum(row, k, j)),
    )
}

/// The quotient of `x / d` rounds a value between two consecutive multiples
/// of `d` to the index of the upper one.
proof fn lemma_quotient_between(x: int, d: int, q: int)
    requires
        d >= 1,
        q >= 0,
        q * d <= x,
        x < (q + 1) * d,
    ensures
        x / d == q,
{
    assert(x / d == q) by (nonlinear_arith)
        requires
            d >= 1,
            q >= 0,
            q * d <= x,
            x < (q + 1) * d,
    ;
}

/// When chunk `j` is cut short by the end of the row, it is the last chunk.
proof fn lemma_last_chunk(len: int, k: int, j: int)
    requires
        k >= 1,
        j >= 0,
        j * k < len,
        len <= (j + 1) * k,
    ensures
        num_chunks(len, k) == j + 1,
{
    assert((j + 1) * k <= len + k - 1) by (nonlinear_arith)
        requires
            k >= 1,
            j * k < len,
    ;
    assert(len + k - 1 < (j + 2) * k) by (nonlinear_arith)
        requires
            k >= 1,
            len <= (j + 1) * k,
    ;
    lemma_quotient_between(len + k - 1, k, j + 1);
}

/// Saturating `u64` addition: pinned at `u64::MAX` instead of wrapping.
fn sat_add_u64(a: u64, b: u64) -> (r: u64)
    ensures
        r == clip_u64(a + b),
{
    if a > u64::MAX - b {
        u64::MAX
    } else {
        a + b
    }
}

/// Counts the good chunks of one chromosome row: the row is cut into chunks
/// of `k` consecutive base bins (the last chunk may be shorter) and a chunk
/// is good when its counter sum reaches `threshold`.
fn count_good_bins_row(row: &Vec<u32>, k: usize, threshold: u32) -> (r: u64)
    requires
        k >= 1,
        row@.len() <= 0x1_0000_0000,
    ensures
        r == good_chunks_in_row(row@, k as int, threshold),
{
    let len = row.len();
    let mut i: usize = 0;
    let mut count: u64 = 0;
    let ghost mut j: int = 0int;
    proof {
        if len == 0 {
            lemma_quotient_between(k as int - 1, k as int, 0);
        }
    }
    while i < len
        invariant
            k >= 1,
            len == row@.len(),
            len <= 0x1_0000_0000,
            i <= len,
            0 <= j <= len,
            i < len ==> i == j * (k as int),
            i == len ==> j == num_chunks(len as int, k as int),
            count == good_chunks_upto(row@, k as int, threshold, j),
            0 <= count <= j,
        decreases len - i,
    {
        let start = i;
        proof {
            assert((j + 1) * (k as int) == j * (k as int) + k) by (nonlinear_arith);
            assert(j + 1 <= (j + 1) * (k as int)) by (nonlinear_arith)
                requires
                    j >= 0,
                    k >= 1,
            ;
            assert(j <= j * (k as int)) by (nonlinear_arith)
                requires
                    j >= 0,
                    k >= 1,
            ;
        }
        let end = if len - i < k {
            len
        } else {
            i + k
        };
        assert(end == chunk_end(len as int, k as int, j));
        let mut s: u64 = 0;
        let mut p = start;
        while p < end
            invariant
                start <= p <= end,
                end <= len == row@.len(),
                len <= 0x1_0000_0000,
                s == range_sum(row@, start as int, p as int),
                s <= (p - start) * 0xffff_ffff,
            decreases end - p,
        {
            assert(range_sum(row@, start as int, p as int + 1) == range_sum(
                row@,
                start as int,
                p as int,
            ) + row@[p as int]);
            s = s + row[p] as u64;
            p = p + 1;
        }
        assert(s == chunk_sum(row@, k as int, j));
        assert(good_chunks_upto(row@, k as int, threshold, j + 1) == good_chunks_upto(
            row@,
            k as int,
            threshold,
            j,
        ) + if chunk_sum(row@, k as int, j) >= threshold { 1int } else { 0int });
        if s >= threshold as u64 {
            count = count + 1;
        }
        i = end;
        proof {
            if i == len {
                lemma_last_chunk(len as int, k as int, j);
            }
            j = j + 1;
        }
    }
    count
}

/// Exact sum of all counters of one row; fits `u64` because the row holds at
/// most `2^32` counters of at most `u32::MAX` each.
fn row_total(row: &Vec<u32>) -> (r: u64)
    requires
        row@.len() <= 0x1_0000_0000,
    ensures
        r == range_sum(row@, 0, row@.len() as int),
{
    let len = row.len();
    let mut s: u64 = 0;
    let mut p: usize = 0;
    while p < len
        invariant
            p <= len == row@.len(),
            len <= 0x1_0000_0000,
            s == range_sum(row@, 0, p as int),
            s <= p * 0xffff_ffff,
        decreases len - p,
    {
        assert(range_sum(row@, 0, p as int + 1) == range_sum(row@, 0, p as int) + row@[p as int]);
        s = s + row[p] as u64;
        p = p + 1;
    }
    s
}

/// Number of non-zero counters of one row.
fn non_zero_row(row: &Vec<u32>) -> (r: u64)
    requires
        row@.len() <= 0x1_0000_0000,
    ensures
        r == non_zero_upto(row@, row@.len() as int),
{
    let len = row.len();
    let mut n: u64 = 0;
    let mut p: usize = 0;
    while p < len
        invariant
            p <= len == row@.len(),
            len <= 0x1_0000_0000,
            n == non_zero_upto(row@, p as int),
            n <= p,
        decreases len - p,
    {
        if row[p] > 0 {
            n = n + 1;
        }
        p = p + 1;
    }
    n
}

/// Re-aggregates one row into chunk sums, each clipped to the `u32` range.
fn counts_row(row: &Vec<u32>, k: usize) -> (r: Vec<u32>)
    requires
        k >= 1,
        row@.len() <= 0x1_0000_0000,
    ensures
        r@ == spec_counts_row(row@, k as int),
{
    let len = row.len();
    let mut out: Vec<u32> = Vec::new();
    let mut i: usize = 0;
    let ghost mut j: int = 0int;
    proof {
        if len == 0 {
            lemma_quotient_between(k as int - 1, k as int, 0);
        }
    }
    while i < len
        invariant
            k >= 1,
            len == row@.len(),
            len <= 0x1_0000_0000,
            i <= len,
            0 <= j <= len,
            i < len ==> i == j * (k as int),
            i == len ==> j == num_chunks(len as int, k as int),
            out@.len() == j,
            forall|q: int|
                0 <= q < j ==> out@[q] == sat_add(0, chunk_sum(row@, k as int, q)),
        decreases len - i,
    {
        let start = i;
        proof {
            assert((j + 1) * (k as int) == j * (k as int) + k) by (nonlinear_arith);
            assert(j + 1 <= (j + 1) * (k as int)) by (nonlinear_arith)
                requires
                    j >= 0,
                    k >= 1,
            ;
            assert(j <= j * (k as int)) by (nonlinear_arith)
                requires
                    j >= 0,
                    k >= 1,
            ;
        }
        let end = if len - i < k {
            len
        } else {
            i + k
        };
        assert(end == chunk_end(len as int, k as int, j));
        let mut s: u64 = 0;
        let mut p = start;
        while p < end
            invariant
                start <= p <= end,
                end <= len == row@.len(),
                len <= 0x1_0000_0000,
                s == range_sum(row@, start as int, p as int),
                s <= (p - start) * 0xffff_ffff,
            decreases end - p,
        {
            assert(range_sum(row@, start as int, p as int + 1) == range_sum(
                row@,
                start as int,
                p as int,
            ) + row@[p as int]);
            s = s + row[p] as u64;
            p = p + 1;
        }
        assert(s == chunk_sum(row@, k as int, j));
        let clipped: u32 = if s > u32::MAX as u64 {
            u32::MAX
        } else {
            s as u32
        };
        out.push(clipped);
        i = end;
        proof {
            if i == len {
                lemma_last_chunk(len as int, k as int, j);
            }
            j = j + 1;
        }
    }
    proof {
        assert(out@ =~= spec_counts_row(row@, k as int));
    }
    out
}

/// Relies on rayon's `par_iter().map(...).sum()`: by the `ParallelIterator`
/// documentation it returns the same value as the sequential map-and-sum.
/// The closure only calls the verified `count_good_bins_row`, and the total
/// fits in `u64` because each row yields at most `2^32` and there are fewer
/// than `2^32` rows.
#[verifier::external_body]
fn par_good_bins(bins: &Vec<Vec<u32>>, k: usize, threshold: u32) -> (r: u64)
    requires
        k >= 1,
        bins@.len() <= u32::MAX,
        forall|c: int| 0 <= c < bins@.len() ==> (#[trigger] bins@[c])@.len() <= 0x1_0000_0000,
    ensures
        r == spec_good_bins(rows(bins@), k as int, threshold),
{
    bins.par_iter().map(|row| count_good_bins_row(row, k, threshold)).sum()
}

/// Relies on rayon's `par_iter().map(...).reduce(...)`: reduce with an
/// associative, commutative operation returns the same value under any
/// grouping (rayon's `ParallelIterator::reduce` documentation), and
/// saturating addition of non-negative exact row totals yields the clipped
/// grand total under any grouping. Both closures only call verified
/// functions of this crate.
#[verifier::external_body]
fn par_total_contacts(bins: &Vec<Vec<u32>>) -> (r: u64)
    requires
        forall|c: int| 0 <= c < bins@.len() ==> (#[trigger] bins@[c])@.len() <= 0x1_0000_0000,
    ensures
        r == clip_u64(spec_total_contacts(rows(bins@))),
{
    bins.par_iter().map(|row| row_total(row)).reduce(|| 0u64, |a, b| sat_add_u64(a, b))
}

/// Relies on rayon's `par_iter().map(...).sum()` as in `par_good_bins`; the
/// closure only calls the verified `non_zero_row`, and the total fits `u64`.
#[verifier::external_body]
fn par_non_zero_bins(bins: &Vec<Vec<u32>>) -> (r: u64)
    requires
        bins@.len() <= u32::MAX,
        forall|c: int| 0 <= c < bins@.len() ==> (#[trigger] bins@[c])@.len() <= 0x1_0000_0000,
    ensures
        r == spec_non_zero_bins(rows(bins@)),
{
    bins.par_iter().map(|row| non_zero_row(row)).sum()
}

/// Relies on rayon's `par_iter().map(...).collect()`: collecting an indexed
/// parallel iterator into a `Vec` preserves the input order (rayon's
/// `IndexedParallelIterator` documentation), so the result row for row equals
/// the sequential map. The closure only calls the verified `counts_row`.
#[verifier::external_body]
fn par_counts(bins: &Vec<Vec<u32>>, k: usize) -> (r: Vec<Vec<u32>>)
    requires
        k >= 1,
        forall|c: int| 0 <= c < bins@.len() ==> (#[trigger] bins@[c])@.len() <= 0x1_0000_0000,
    ensures
        r@.len() == bins@.len(),
        forall|c: int|
            0 <= c < bins@.len() ==> (#[trigger] r@[c])@ == spec_counts_row(bins@[c]@, k as int),
{
    bins.par_iter().map(|row| counts_row(row, k)).collect()
}

/// Per-chromosome arrays of saturating contact counters at the base bin
/// width, together with the genome layout they were sized for.
pub struct Coverage {
    /// `bins[c][i]` counts the contact endpoints of chromosome `c + 1`
    /// whose position falls in `[i * bin_width, (i + 1) * bin_width)`.
    pub bins: Vec<Vec<u32>>,
    /// Base bin width in base pairs; always positive.
    pub bin_width: u32,
    /// Ordered chromosome lengths in base pairs.
    pub chr_lengths: Vec<u32>,
}

impl Coverage {
    /// The mathematical value of the store: one counter sequence per chromosome.
    pub open spec fn counts(self) -> Seq<Seq<u32>> {
        rows(self.bins@)
    }

    /// Shape invariant: positive bin width, one counter row per chromosome,
    /// each row sized to `floor(length / bin_width) + 1`.
    pub open spec fn wf(self) -> bool {
        &&& self.bin_width > 0
        &&& self.bins@.len() == self.chr_lengths@.len()
        &&& self.chr_lengths@.len() <= u32::MAX
        &&& forall|c: int|
            0 <= c < self.bins@.len() ==> (#[trigger] self.bins@[c])@.len()
                == num_base_bins(self.chr_lengths@[c], self.bin_width)
    }

    /// Allocates an all-zero store for the given chromosome lengths.
    pub fn from_lengths(bin_width: u32, chr_lengths: Vec<u32>) -> (r: Coverage)
        requires
            bin_width > 0,
            chr_lengths@.len() <= u32::MAX,
            forall|c: int|
                0 <= c < chr_lengths@.len()
                    ==> num_base_bins(#[trigger] chr_lengths@[c], bin_width) <= usize::MAX,
        ensures
            r.wf(),
            r.bin_width == bin_width,
            r.chr_lengths == chr_lengths,
            forall|c: int, b: int|
                0 <= c < r.counts().len() && 0 <= b < r.counts()[c].len()
                    ==> r.counts()[c][b] == 0,
    {
        let mut bins: Vec<Vec<u32>> = Vec::new();
        let n = chr_lengths.len();
        let mut c: usize = 0;
        while c < n
            invariant
                c <= n,
                n == chr_lengths@.len() <= u32::MAX,
                bin_width > 0,
                bins@.len() == c,
                forall|i: int|
                    0 <= i < n ==> num_base_bins(#[trigger] chr_lengths@[i], bin_width)
                        <= usize::MAX,
                forall|i: int|
                    0 <= i < c ==> (#[trigger] bins@[i])@.len()
                        == num_base_bins(chr_lengths@[i], bin_width),
                forall|i: int, b: int|
                    0 <= i < c && 0 <= b < bins@[i]@.len() ==> (#[trigger] bins@[i]@[b]) == 0,
            decreases n - c,
        {
            assert(num_base_bins(chr_lengths@[c as int], bin_width) <= usize::MAX);
            let len = chr_lengths[c];
            let num_bins_wide: u64 = len as u64 / bin_width as u64 + 1;
            let num_bins: usize = num_bins_wide as usize;
            let row: Vec<u32> = vec![0u32; num_bins];
            bins.push(row);
            c = c + 1;
        }
        Coverage { bins, bin_width, chr_lengths }
    }

    /// Allocates an all-zero store: for the given chromosome lengths, or for
    /// the built-in default genome when none are supplied.
    pub fn new(bin_width: u32, chr_lengths: Option<Vec<u32>>) -> (r: Coverage)
        requires
            bin_width > 0,
            chr_lengths matches Some(v) ==> v@.len() <= u32::MAX && forall|c: int|
                0 <= c < v@.len() ==> num_base_bins(#[trigger] v@[c], bin_width) <= usize::MAX,
        ensures
            r.wf(),
            r.bin_width == bin_width,
            r.chr_lengths@ == match chr_lengths {
                Some(v) => v@,
                None => crate::utils::default_genome_lengths(),
            },
            forall|c: int, b: int|
                0 <= c < r.counts().len() && 0 <= b < r.counts()[c].len()
                    ==> r.counts()[c][b] == 0,
    {
        match chr_lengths {
            Some(v) => Self::from_lengths(bin_width, v),
            None => {
                let lengths = crate::utils::get_default_genome_lengths();
                proof {
                    assert forall|c: int|
                        0 <= c < lengths@.len() implies num_base_bins(
                        #[trigger] lengths@[c],
                        bin_width,
                    ) <= usize::MAX by {
                        lemma_div_nonincreasing(lengths@[c] as int, bin_width as int);
                    }
                }
                Self::from_lengths(bin_width, lengths)
            },
        }
    }

    /// Adds one contact endpoint: a silent no-op when the chromosome index is
    /// outside `[1, num_chromosomes]` or the position is at or past the
    /// chromosome's length, otherwise a saturating `+1` on the counter of the
    /// bin the position falls in.
    pub fn increment(&mut self, chr: u8, pos: u32)
        requires
            old(self).wf(),
        ensures
            final(self).wf(),
            final(self).bin_width == old(self).bin_width,
            final(self).chr_lengths == old(self).chr_lengths,
            final(self).counts() == spec_increment(
                old(self).counts(),
                old(self).chr_lengths@,
                old(self).bin_width,
                chr,
                pos,
            ),
    {
        let ghost pre = *self;
        if chr < 1 {
            assert(self.counts() =~~= spec_increment(
                pre.counts(), pre.chr_lengths@, pre.bin_width, chr, pos));
            return;
        }
        let chr_idx: usize = (chr - 1) as usize;
        if chr_idx >= self.chr_lengths.len() {
            assert(self.counts() =~~= spec_increment(
                pre.counts(), pre.chr_lengths@, pre.bin_width, chr, pos));
            return;
        }
        let length = self.chr_lengths[chr_idx];
        if pos >= length {
            assert(self.counts() =~~= spec_increment(
                pre.counts(), pre.chr_lengths@, pre.bin_width, chr, pos));
            return;
        }
        let bin_idx: usize = (pos / self.bin_width) as usize;
        proof {
            lemma_div_is_ordered(pos as int, length as int, self.bin_width as int);
        }
        let row_len = self.bins[chr_idx].len();
        assert(bin_idx < row_len);
        let v = self.bins[chr_idx][bin_idx];
        let nv = if v == u32::MAX { v } else { v + 1 };
        self.bins[chr_idx][bin_idx] = nv;
        assert(self.counts() =~~= spec_increment(
            pre.counts(), pre.chr_lengths@, pre.bin_width, chr, pos));
    }

    /// Adds both endpoints of one record, each validated independently.
    pub fn add_pair(&mut self, pair: &Pair)
        requires
            old(self).wf(),
        ensures
            final(self).wf(),
            final(self).bin_width == old(self).bin_width,
            final(self).chr_lengths == old(self).chr_lengths,
            final(self).counts() == spec_increment(
                spec_increment(
                    old(self).counts(),
                    old(self).chr_lengths@,
                    old(self).bin_width,
                    pair.chr1,
                    pair.pos1,
                ),
                old(self).chr_lengths@,
                old(self).bin_width,
                pair.chr2,
                pair.pos2,
            ),
    {
        self.increment(pair.chr1, pair.pos1);
        self.increment(pair.chr2, pair.pos2);
    }

    /// Every counter row is no longer than `2^32` entries.
    proof fn lemma_rows_bounded(self)
        requires
            self.wf(),
        ensures
            forall|c: int|
                0 <= c < self.bins@.len() ==> (#[trigger] self.bins@[c])@.len() <= 0x1_0000_0000,
    {
        assert forall|c: int|
            0 <= c < self.bins@.len() implies (#[trigger] self.bins@[c])@.len()
            <= 0x1_0000_0000 by {
            lemma_div_nonincreasing(self.chr_lengths@[c] as int, self.bin_width as int);
        }
    }

    /// The number of base bins each aggregated bin spans; at least 1 for a
    /// positive multiple of the bin width.
    proof fn lemma_chunk_factor_pos(self, bin_size: u32)
        requires
            self.wf(),
            bin_size > 0,
            bin_size % self.bin_width == 0,
        ensures
            bin_size as int / self.bin_width as int >= 1,
    {
        lemma_fundamental_div_mod(bin_size as int, self.bin_width as int);
    }

    /// Re-aggregates the base bins into chunks of `bin_size / bin_width`
    /// consecutive base bins (the last chunk of each chromosome may be
    /// shorter), sums each chunk with the sum clipped to the `u32` range,
    /// and returns the per-chromosome chunk sums. `bin_size` must be a
    /// positive multiple of the base bin width.
    pub fn get_counts(&self, bin_size: u32) -> (r: Vec<Vec<u32>>)
        requires
            self.wf(),
            bin_size > 0,
            bin_size % self.bin_width == 0,
        ensures
            r@.len() == self.counts().len(),
            forall|c: int|
                0 <= c < r@.len() ==> (#[trigger] r@[c])@ == spec_counts_row(
                    self.counts()[c],
                    bin_size as int / self.bin_width as int,
                ),
    {
        proof {
            self.lemma_rows_bounded();
            self.lemma_chunk_factor_pos(bin_size);
        }
        let k_u32 = bin_size / self.bin_width;
        let k: usize = k_u32 as usize;
        par_counts(&self.bins, k)
    }

    /// Counts the aggregated chunks of `bin_size / bin_width` consecutive
    /// base bins whose exact counter sum reaches `threshold`, over the whole
    /// genome. `bin_size` must be a positive multiple of the base bin width.
    pub fn count_good_bins(&self, bin_size: u32, threshold: u32) -> (r: u64)
        requires
            self.wf(),
            bin_size > 0,
            bin_size % self.bin_width == 0,
        ensures
            r == spec_good_bins(
                self.counts(),
                bin_size as int / self.bin_width as int,
                threshold,
            ),
    {
        proof {
            self.lemma_rows_bounded();
            self.lemma_chunk_factor_pos(bin_size);
        }
        let k_u32 = bin_size / self.bin_width;
        let k: usize = k_u32 as usize;
        par_good_bins(&self.bins, k, threshold)
    }

    /// Sum of all chromosome lengths in base pairs.
    pub fn total_genome_size(&self) -> (r: u64)
        requires
            self.wf(),
        ensures
            r == sum_lengths(self.chr_lengths@),
    {
        let n = self.chr_lengths.len();
        let mut acc: u64 = 0;
        let mut c: usize = 0;
        while c < n
            invariant
                c <= n == self.chr_lengths@.len(),
                n <= u32::MAX,
                acc == sum_lengths(self.chr_lengths@.take(c as int)),
                acc <= c * 0xffff_ffff,
            decreases n - c,
        {
            proof {
                let taken = self.chr_lengths@.take(c as int + 1);
                assert(taken.drop_last() =~= self.chr_lengths@.take(c as int));
                assert(sum_lengths(taken) == sum_lengths(taken.drop_last()) + taken.last());
            }
            acc = acc + self.chr_lengths[c] as u64;
            c = c + 1;
        }
        proof {
            assert(self.chr_lengths@.take(n as int) =~= self.chr_lengths@);
        }
        acc
    }

    /// Sum of all counters of the store, clipped to the `u64` range.
    pub fn get_total_contacts(&self) -> (r: u64)
        requires
            self.wf(),
        ensures
            r == clip_u64(spec_total_contacts(self.counts())),
    {
        proof {
            self.lemma_rows_bounded();
        }
        par_total_contacts(&self.bins)
    }

    /// Number of base bins holding at least one contact.
    pub fn get_non_zero_bins(&self) -> (r: u64)
        requires
            self.wf(),
        ensures
            r == spec_non_zero_bins(self.counts()),
    {
        proof {
            self.lemma_rows_bounded();
        }
        par_non_zero_bins(&self.bins)
    }
}

} // verus!
