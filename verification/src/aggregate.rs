//! Parallel aggregation of position-pair records into the coverage store.
//!
//! A batch of records is cut into sub-chunks; each sub-chunk independently
//! yields a local summary mapping a packed `(chromosome, bin)` key to the
//! number of surviving endpoints that fall in that bin; the summaries are
//! then merged into the shared store with saturating increments. Any
//! partition of the batch yields the same final counters.

use vstd::prelude::*;
use vstd::arithmetic::div_mod::{
    lemma_fundamental_div_mod_converse_div, lemma_fundamental_div_mod_converse_mod,
};
use crate::coverage::{
    chunk_end, num_chunks, sat_add, spec_increment, valid_endpoint, Coverage,
};
use crate::utils::Pair;
use rayon::iter::{IndexedParallelIterator, ParallelIterator};
use rayon::slice::ParallelSlice;

verus! {

/// The span of bin indices per chromosome: a bin index always fits 32 bits
/// because positions are 32-bit and the bin width is at least 1.
pub open spec fn bin_span() -> int {
    0x1_0000_0000
}

/// Packs a 0-based chromosome index and a bin index into one 64-bit key:
/// chromosome in the high 32 bits, bin in the low 32 bits. Lossless for
/// `0 <= c < 2^32` and `0 <= b < 2^32`.
pub open spec fn pack_key(c: int, b: int) -> int {
    c * bin_span() + b
}

/// A non-negative amount clipped to the `u32` range.
pub open spec fn clip_u32(n: int) -> int {
    if n > u32::MAX {
        u32::MAX as int
    } else {
        n
    }
}

/// One more hit, clipped to the `u32` range.
pub open spec fn inc_clip(t: int) -> int {
    if t >= u32::MAX {
        u32::MAX as int
    } else {
        t + 1
    }
}

/// 1 when endpoint `(chr, pos)` survives validation and falls in bin `b` of
/// 0-based chromosome `c`, else 0.
pub open spec fn end_hit(
    lengths: Seq<u32>,
    bw: u32,
    chr: u8,
    pos: u32,
    c: int,
    b: int,
) -> int {
    if valid_endpoint(lengths, chr, pos) && chr as int - 1 == c && pos as int / bw as int == b {
        1
    } else {
        0
    }
}

/// Number of surviving endpoints of one record that fall in bin `(c, b)`.
pub open spec fn pair_hits(lengths: Seq<u32>, bw: u32, p: Pair, c: int, b: int) -> int {
    end_hit(lengths, bw, p.chr1, p.pos1, c, b) + end_hit(lengths, bw, p.chr2, p.pos2, c, b)
}

/// Number of surviving endpoints over a record sequence that fall in bin
/// `(c, b)`.
pub open spec fn endpoint_count(
    pairs: Seq<Pair>,
    lengths: Seq<u32>,
    bw: u32,
    c: int,
    b: int,
) -> int
    decreases pairs.len(),
{
    if pairs.len() == 0 {
        0
    } else {
        endpoint_count(pairs.drop_last(), lengths, bw, c, b) + pair_hits(
            lengths,
            bw,
            pairs.last(),
            c,
            b,
        )
    }
}

/// No key occurs twice among the summary entries.
pub open spec fn distinct_keys(entries: Seq<(u64, u32)>) -> bool {
    forall|i: int, l: int| 0 <= i < l < entries.len() ==> entries[i].0 != entries[l].0
}

/// Total count recorded for `key` across the summary entries.
pub open spec fn key_total(entries: Seq<(u64, u32)>, key: u64) -> int
    decreases entries.len(),
{
    if entries.len() == 0 {
        0
    } else {
        key_total(entries.drop_last(), key) + if entries.last().0 == key {
            entries.last().1 as int
        } else {
            0int
        }
    }
}

/// A local summary covers a record sequence: its keys are distinct and, for
/// every bin, it records that bin's surviving-endpoint count, clipped to the
/// `u32` range.
pub open spec fn summary_matches(
    entries: Seq<(u64, u32)>,
    pairs: Seq<Pair>,
    lengths: Seq<u32>,
    bw: u32,
) -> bool {
    &&& distinct_keys(entries)
    &&& forall|c: int, b: int|
        0 <= c < bin_span() && 0 <= b < bin_span() ==> key_total(
            entries,
            pack_key(c, b) as u64,
        ) == clip_u32(endpoint_count(pairs, lengths, bw, c, b))
}

/// Sub-chunk `i` of a record sequence cut into pieces of `k` records, the
/// last one possibly shorter.
pub open spec fn subchunk(pairs: Seq<Pair>, k: int, i: int) -> Seq<Pair> {
    pairs.subrange(i * k, chunk_end(pairs.len() as int, k, i))
}

/// Packing is injective on 32-bit chromosome and bin indices: the key
/// decodes back by division and remainder.
proof fn lemma_unpack(c: int, b: int)
    requires
        0 <= c < bin_span(),
        0 <= b < bin_span(),
    ensures
        pack_key(c, b) / bin_span() == c,
        pack_key(c, b) % bin_span() == b,
{
    lemma_fundamental_div_mod_converse_div(pack_key(c, b), bin_span(), c, b);
    lemma_fundamental_div_mod_converse_mod(pack_key(c, b), bin_span(), c, b);
}

/// Appending an entry adds its value to its own key's total and leaves every
/// other key's total unchanged.
proof fn lemma_key_total_push(entries: Seq<(u64, u32)>, e: (u64, u32), key: u64)
    ensures
        key_total(entries.push(e), key) == key_total(entries, key) + if e.0 == key {
            e.1 as int
        } else {
            0int
        },
{
    assert(entries.push(e).drop_last() =~= entries);
}

/// With distinct keys, the total for a present key is that entry's value.
proof fn lemma_key_total_unique(entries: Seq<(u64, u32)>, idx: int, key: u64)
    requires
        distinct_keys(entries),
        0 <= idx < entries.len(),
        entries[idx].0 == key,
    ensures
        key_total(entries, key) == entries[idx].1,
    decreases entries.len(),
{
    if entries.len() > 0 {
        if idx == entries.len() - 1 {
            lemma_key_total_absent(entries.drop_last(), key);
        } else {
            assert(entries.last().0 != key);
            lemma_key_total_unique(entries.drop_last(), idx, key);
        }
    }
}

/// The total for a key that no entry holds is 0.
proof fn lemma_key_total_absent(entries: Seq<(u64, u32)>, key: u64)
    requires
        forall|q: int| 0 <= q < entries.len() ==> (#[trigger] entries[q]).0 != key,
    ensures
        key_total(entries, key) == 0,
    decreases entries.len(),
{
    if entries.len() > 0 {
        lemma_key_total_absent(entries.drop_last(), key);
    }
}

/// Updating one entry in place shifts its own key's total by the value
/// difference and leaves every other key's total unchanged.
proof fn lemma_key_total_update(entries: Seq<(u64, u32)>, idx: int, e: (u64, u32), key: u64)
    requires
        0 <= idx < entries.len(),
        entries[idx].0 == e.0,
    ensures
        key_total(entries.update(idx, e), key) == key_total(entries, key) + if e.0 == key {
            e.1 - entries[idx].1
        } else {
            0int
        },
    decreases entries.len(),
{
    let upd = entries.update(idx, e);
    if idx == entries.len() - 1 {
        assert(upd.drop_last() =~= entries.drop_last());
    } else {
        assert(upd.drop_last() =~= entries.drop_last().update(idx, e));
        lemma_key_total_update(entries.drop_last(), idx, e, key);
    }
}

/// Records one surviving endpoint in a local summary: a no-op for an
/// out-of-range endpoint, otherwise a clipped `+1` on the entry of the
/// endpoint's packed key, appending the entry on first sight of the key.
fn summary_add_endpoint(
    entries: &mut Vec<(u64, u32)>,
    lengths: &Vec<u32>,
    bw: u32,
    chr: u8,
    pos: u32,
)
    requires
        bw > 0,
        lengths@.len() <= u32::MAX,
        distinct_keys(old(entries)@),
    ensures
        distinct_keys(final(entries)@),
        forall|c: int, b: int|
            0 <= c < bin_span() && 0 <= b < bin_span() ==> key_total(
                final(entries)@,
                pack_key(c, b) as u64,
            ) == if end_hit(lengths@, bw, chr, pos, c, b) == 1 {
                inc_clip(key_total(old(entries)@, pack_key(c, b) as u64))
            } else {
                key_total(old(entries)@, pack_key(c, b) as u64)
            },
{
    let ghost pre = entries@;
    if chr < 1 {
        return;
    }
    let ci = (chr - 1) as usize;
    if ci >= lengths.len() {
        return;
    }
    if pos >= lengths[ci] {
        return;
    }
    let bin: u32 = pos / bw;
    let key: u64 = (ci as u64) * 0x1_0000_0000u64 + bin as u64;
    let ghost tc = ci as int;
    let ghost tb = bin as int;
    proof {
        assert(key == pack_key(tc, tb));
        assert forall|c: int, b: int|
            0 <= c < bin_span() && 0 <= b < bin_span() && !(c == tc && b == tb) implies pack_key(
            c,
            b,
        ) != pack_key(tc, tb) by {
            lemma_unpack(c, b);
            lemma_unpack(tc, tb);
        }
    }
    let n = entries.len();
    let mut idx: usize = 0;
    while idx < n
        invariant
            n == entries@.len(),
            idx <= n,
            entries@ == pre,
            forall|q: int| 0 <= q < idx ==> (#[trigger] entries@[q]).0 != key,
        decreases n - idx,
    {
        let (k0, v) = entries[idx];
        if k0 == key {
            let nv = if v == u32::MAX {
                v
            } else {
                v + 1
            };
            entries[idx] = (key, nv);
            proof {
                lemma_key_total_unique(pre, idx as int, key);
                assert forall|c: int, b: int|
                    0 <= c < bin_span() && 0 <= b < bin_span() implies key_total(
                    entries@,
                    pack_key(c, b) as u64,
                ) == if end_hit(lengths@, bw, chr, pos, c, b) == 1 {
                    inc_clip(key_total(pre, pack_key(c, b) as u64))
                } else {
                    key_total(pre, pack_key(c, b) as u64)
                } by {
                    lemma_key_total_update(pre, idx as int, (key, nv), pack_key(c, b) as u64);
                    if c == tc && b == tb {
                        assert(end_hit(lengths@, bw, chr, pos, c, b) == 1);
                    } else {
                        lemma_unpack(c, b);
                        lemma_unpack(tc, tb);
                        assert(end_hit(lengths@, bw, chr, pos, c, b) == 0);
                    }
                }
                assert forall|i: int, l: int|
                    0 <= i < l < entries@.len() implies entries@[i].0 != entries@[l].0 by {
                    assert(pre[i].0 != pre[l].0);
                }
            }
            return;
        }
        idx = idx + 1;
    }
    entries.push((key, 1));
    proof {
        lemma_key_total_absent(pre, key);
        assert forall|c: int, b: int|
            0 <= c < bin_span() && 0 <= b < bin_span() implies key_total(
            entries@,
            pack_key(c, b) as u64,
        ) == if end_hit(lengths@, bw, chr, pos, c, b) == 1 {
            inc_clip(key_total(pre, pack_key(c, b) as u64))
        } else {
            key_total(pre, pack_key(c, b) as u64)
        } by {
            lemma_key_total_push(pre, (key, 1u32), pack_key(c, b) as u64);
            if c == tc && b == tb {
                assert(end_hit(lengths@, bw, chr, pos, c, b) == 1);
            } else {
                lemma_unpack(c, b);
                lemma_unpack(tc, tb);
                assert(end_hit(lengths@, bw, chr, pos, c, b) == 0);
            }
        }
        assert forall|i: int, l: int|
            0 <= i < l < entries@.len() implies entries@[i].0 != entries@[l].0 by {
            if l < entries@.len() - 1 {
                assert(pre[i].0 != pre[l].0);
            } else {
                assert(pre[i].0 != key);
            }
        }
    }
}

/// Computes the local summary of one sub-chunk: both endpoints of every
/// record, each validated independently, accumulated per packed
/// `(chromosome, bin)` key.
pub fn subchunk_summary(chunk: &[Pair], lengths: &Vec<u32>, bin_width: u32) -> (r: Vec<
    (u64, u32),
>)
    requires
        bin_width > 0,
        lengths@.len() <= u32::MAX,
    ensures
        summary_matches(r@, chunk@, lengths@, bin_width),
{
    let n = chunk.len();
    let mut entries: Vec<(u64, u32)> = Vec::new();
    let mut t: usize = 0;
    proof {
        assert forall|c: int, b: int|
            0 <= c < bin_span() && 0 <= b < bin_span() implies key_total(
            entries@,
            pack_key(c, b) as u64,
        ) == clip_u32(endpoint_count(chunk@.take(0), lengths@, bin_width, c, b)) by {
            lemma_key_total_absent(entries@, pack_key(c, b) as u64);
        }
    }
    while t < n
        invariant
            n == chunk@.len(),
            t <= n,
            bin_width > 0,
            lengths@.len() <= u32::MAX,
            distinct_keys(entries@),
            forall|c: int, b: int|
                0 <= c < bin_span() && 0 <= b < bin_span() ==> key_total(
                    entries@,
                    pack_key(c, b) as u64,
                ) == clip_u32(endpoint_count(chunk@.take(t as int), lengths@, bin_width, c, b)),
        decreases n - t,
    {
        let ghost before = entries@;
        let p = &chunk[t];
        summary_add_endpoint(&mut entries, lengths, bin_width, p.chr1, p.pos1);
        let ghost mid = entries@;
        summary_add_endpoint(&mut entries, lengths, bin_width, p.chr2, p.pos2);
        proof {
            let taken = chunk@.take(t as int + 1);
            assert(taken.drop_last() =~= chunk@.take(t as int));
            assert(taken.last() == chunk@[t as int]);
            assert forall|c: int, b: int|
                0 <= c < bin_span() && 0 <= b < bin_span() implies key_total(
                entries@,
                pack_key(c, b) as u64,
            ) == clip_u32(endpoint_count(taken, lengths@, bin_width, c, b)) by {
                let key = pack_key(c, b) as u64;
                let base = endpoint_count(chunk@.take(t as int), lengths@, bin_width, c, b);
                assert(key_total(before, key) == clip_u32(base));
                assert(endpoint_count(taken, lengths@, bin_width, c, b) == base + pair_hits(
                    lengths@,
                    bin_width,
                    chunk@[t as int],
                    c,
                    b,
                ));
            }
        }
        t = t + 1;
    }
    proof {
        assert(chunk@.take(n as int) =~= chunk@);
    }
    entries
}

/// Saturating addition composes: adding `m` and then `n` saturates exactly
/// like adding `m + n` at once.
pub proof fn lemma_sat_add_assoc(x: u32, m: int, n: int)
    requires
        m >= 0,
        n >= 0,
    ensures
        sat_add(sat_add(x, m), n) == sat_add(x, m + n),
{
}

/// Clipping an increment to the `u32` range does not change its saturating
/// effect on a `u32` counter.
pub proof fn lemma_sat_add_clip(x: u32, n: int)
    requires
        n >= 0,
    ensures
        sat_add(x, clip_u32(n)) == sat_add(x, n),
{
}

/// Key totals are sums of `u32` values, hence non-negative.
proof fn lemma_key_total_nonneg(entries: Seq<(u64, u32)>, key: u64)
    ensures
        key_total(entries, key) >= 0,
    decreases entries.len(),
{
    if entries.len() > 0 {
        lemma_key_total_nonneg(entries.drop_last(), key);
    }
}

/// Endpoint counts are sums of hits, hence non-negative.
pub proof fn lemma_endpoint_count_nonneg(
    pairs: Seq<Pair>,
    lengths: Seq<u32>,
    bw: u32,
    c: int,
    b: int,
)
    ensures
        endpoint_count(pairs, lengths, bw, c, b) >= 0,
    decreases pairs.len(),
{
    if pairs.len() > 0 {
        lemma_endpoint_count_nonneg(pairs.drop_last(), lengths, bw, c, b);
    }
}

/// Endpoint counts add up over concatenation of record sequences.
pub proof fn lemma_endpoint_count_concat(
    s1: Seq<Pair>,
    s2: Seq<Pair>,
    lengths: Seq<u32>,
    bw: u32,
    c: int,
    b: int,
)
    ensures
        endpoint_count(s1 + s2, lengths, bw, c, b) == endpoint_count(s1, lengths, bw, c, b)
            + endpoint_count(s2, lengths, bw, c, b),
    decreases s2.len(),
{
    if s2.len() == 0 {
        assert(s1 + s2 =~= s1);
    } else {
        assert((s1 + s2).drop_last() =~= s1 + s2.drop_last());
        assert((s1 + s2).last() == s2.last());
        lemma_endpoint_count_concat(s1, s2.drop_last(), lengths, bw, c, b);
    }
}

/// Removing one record takes exactly its own hits out of the count.
proof fn lemma_endpoint_count_remove(
    s: Seq<Pair>,
    i: int,
    lengths: Seq<u32>,
    bw: u32,
    c: int,
    b: int,
)
    requires
        0 <= i < s.len(),
    ensures
        endpoint_count(s.remove(i), lengths, bw, c, b) == endpoint_count(s, lengths, bw, c, b)
            - pair_hits(lengths, bw, s[i], c, b),
{
    let pre = s.take(i);
    let mid = seq![s[i]];
    let post = s.skip(i + 1);
    assert(s =~= (pre + mid) + post);
    assert(s.remove(i) =~= pre + post);
    lemma_endpoint_count_concat(pre + mid, post, lengths, bw, c, b);
    lemma_endpoint_count_concat(pre, mid, lengths, bw, c, b);
    lemma_endpoint_count_concat(pre, post, lengths, bw, c, b);
    assert(mid.drop_last() =~= Seq::<Pair>::empty());
    assert(mid.last() == s[i]);
    assert(endpoint_count(Seq::<Pair>::empty(), lengths, bw, c, b) == 0);
    assert(endpoint_count(mid, lengths, bw, c, b) == pair_hits(lengths, bw, s[i], c, b));
}

/// Order-independence law: the endpoint count of a bin depends only on the
/// multiset of records, not on their order or on how a stream was cut into
/// batches before counting.
pub proof fn lemma_endpoint_count_permutation(
    s1: Seq<Pair>,
    s2: Seq<Pair>,
    lengths: Seq<u32>,
    bw: u32,
    c: int,
    b: int,
)
    requires
        s1.to_multiset() == s2.to_multiset(),
    ensures
        endpoint_count(s1, lengths, bw, c, b) == endpoint_count(s2, lengths, bw, c, b),
    decreases s1.len(),
{
    broadcast use vstd::seq_lib::group_to_multiset_ensures;

    if s1.len() == 0 {
        assert(s1.to_multiset().len() == 0);
        assert(s2.len() == s2.to_multiset().len());
    } else {
        let x = s1.last();
        assert(s1.contains(x));
        assert(s2.to_multiset().count(x) > 0);
        assert(s2.contains(x));
        let i = choose|i: int| 0 <= i < s2.len() && s2[i] == x;
        assert(s1.drop_last() =~= s1.remove(s1.len() - 1));
        assert(s1.remove(s1.len() - 1).to_multiset() =~= s1.to_multiset().remove(x));
        assert(s2.remove(i).to_multiset() =~= s2.to_multiset().remove(x));
        lemma_endpoint_count_permutation(s1.drop_last(), s2.remove(i), lengths, bw, c, b);
        lemma_endpoint_count_remove(s2, i, lengths, bw, c, b);
    }
}

/// The counter arrays after adding a record sequence endpoint by endpoint,
/// in order, through `spec_increment`.
pub open spec fn spec_add_pairs(
    counts: Seq<Seq<u32>>,
    lengths: Seq<u32>,
    bw: u32,
    pairs: Seq<Pair>,
) -> Seq<Seq<u32>>
    decreases pairs.len(),
{
    if pairs.len() == 0 {
        counts
    } else {
        let prev = spec_add_pairs(counts, lengths, bw, pairs.drop_last());
        let p = pairs.last();
        spec_increment(
            spec_increment(prev, lengths, bw, p.chr1, p.pos1),
            lengths,
            bw,
            p.chr2,
            p.pos2,
        )
    }
}

/// One endpoint increment keeps the shape of the counter arrays.
proof fn lemma_increment_shape(
    counts: Seq<Seq<u32>>,
    lengths: Seq<u32>,
    bw: u32,
    chr: u8,
    pos: u32,
)
    requires
        bw > 0,
        counts.len() == lengths.len(),
        forall|c: int|
            0 <= c < counts.len() ==> (#[trigger] counts[c]).len() == crate::coverage::num_base_bins(
                lengths[c],
                bw,
            ),
    ensures
        ({
            let after = spec_increment(counts, lengths, bw, chr, pos);
            &&& after.len() == counts.len()
            &&& forall|c: int|
                0 <= c < counts.len() ==> (#[trigger] after[c]).len() == counts[c].len()
            &&& forall|c: int, b: int|
                0 <= c < counts.len() && 0 <= b < counts[c].len() ==> #[trigger] after[c][b]
                    == sat_add(counts[c][b], end_hit(lengths, bw, chr, pos, c, b))
        }),
{
    if valid_endpoint(lengths, chr, pos) {
        vstd::arithmetic::div_mod::lemma_div_is_ordered(
            pos as int,
            lengths[chr as int - 1] as int,
            bw as int,
        );
    }
}

/// Strategy-agreement and order-independence law: adding a batch record by
/// record through `spec_increment`, in any order, leaves every counter at
/// the saturating sum of its old value and that bin's endpoint count — the
/// same value `aggregate_pairs_chunk` ensures for its summary-merge path,
/// under any sub-chunk partition.
pub proof fn lemma_add_pairs_agrees_with_counts(
    counts: Seq<Seq<u32>>,
    lengths: Seq<u32>,
    bw: u32,
    pairs: Seq<Pair>,
)
    requires
        bw > 0,
        counts.len() == lengths.len(),
        forall|c: int|
            0 <= c < counts.len() ==> (#[trigger] counts[c]).len() == crate::coverage::num_base_bins(
                lengths[c],
                bw,
            ),
    ensures
        ({
            let after = spec_add_pairs(counts, lengths, bw, pairs);
            &&& after.len() == counts.len()
            &&& forall|c: int|
                0 <= c < counts.len() ==> (#[trigger] after[c]).len() == counts[c].len()
            &&& forall|c: int, b: int|
                0 <= c < counts.len() && 0 <= b < counts[c].len() ==> #[trigger] after[c][b]
                    == sat_add(counts[c][b], endpoint_count(pairs, lengths, bw, c, b))
        }),
    decreases pairs.len(),
{
    if pairs.len() == 0 {
        assert forall|c: int, b: int|
            0 <= c < counts.len() && 0 <= b < counts[c].len() implies #[trigger] spec_add_pairs(
            counts,
            lengths,
            bw,
            pairs,
        )[c][b] == sat_add(counts[c][b], endpoint_count(pairs, lengths, bw, c, b)) by {
            assert(endpoint_count(pairs, lengths, bw, c, b) == 0);
        }
    } else {
        let p = pairs.last();
        let prev = spec_add_pairs(counts, lengths, bw, pairs.drop_last());
        lemma_add_pairs_agrees_with_counts(counts, lengths, bw, pairs.drop_last());
        let mid = spec_increment(prev, lengths, bw, p.chr1, p.pos1);
        lemma_increment_shape(prev, lengths, bw, p.chr1, p.pos1);
        lemma_increment_shape(mid, lengths, bw, p.chr2, p.pos2);
        let after = spec_add_pairs(counts, lengths, bw, pairs);
        assert forall|c: int, b: int|
            0 <= c < counts.len() && 0 <= b < counts[c].len() implies #[trigger] after[c][b]
            == sat_add(counts[c][b], endpoint_count(pairs, lengths, bw, c, b)) by {
            let base = endpoint_count(pairs.drop_last(), lengths, bw, c, b);
            lemma_endpoint_count_nonneg(pairs.drop_last(), lengths, bw, c, b);
            lemma_sat_add_assoc(counts[c][b], base, end_hit(lengths, bw, p.chr1, p.pos1, c, b));
            lemma_sat_add_assoc(
                counts[c][b],
                base + end_hit(lengths, bw, p.chr1, p.pos1, c, b),
                end_hit(lengths, bw, p.chr2, p.pos2, c, b),
            );
        }
    }
}

/// The start of every sub-chunk lies inside the record sequence.
proof fn lemma_chunk_start_in_range(len: int, k: int, j: int)
    requires
        k >= 1,
        0 <= j < num_chunks(len, k),
    ensures
        j * k < len,
{
    assert(j * k < len) by (nonlinear_arith)
        requires
            k >= 1,
            0 <= j,
            j + 1 <= (len + k - 1) / k,
    ;
}

/// Merges one local summary into the store: every recorded key total is
/// added, saturating, to the counter it addresses; keys outside the store's
/// shape are ignored.
pub fn merge_summary(coverage: &mut Coverage, entries: &Vec<(u64, u32)>)
    requires
        old(coverage).wf(),
    ensures
        final(coverage).wf(),
        final(coverage).bin_width == old(coverage).bin_width,
        final(coverage).chr_lengths == old(coverage).chr_lengths,
        final(coverage).counts().len() == old(coverage).counts().len(),
        forall|c: int, b: int|
            0 <= c < old(coverage).counts().len() && 0 <= b < old(coverage).counts()[c].len()
                ==> #[trigger] final(coverage).counts()[c][b] == sat_add(
                old(coverage).counts()[c][b],
                key_total(entries@, pack_key(c, b) as u64),
            ),
{
    let n = entries.len();
    let mut idx: usize = 0;
    while idx < n
        invariant
            idx <= n == entries@.len(),
            coverage.wf(),
            coverage.bin_width == old(coverage).bin_width,
            coverage.chr_lengths == old(coverage).chr_lengths,
            coverage.counts().len() == old(coverage).counts().len(),
            forall|c: int, b: int|
                0 <= c < old(coverage).counts().len() && 0 <= b < old(coverage).counts()[c].len()
                    ==> #[trigger] coverage.counts()[c][b] == sat_add(
                    old(coverage).counts()[c][b],
                    key_total(entries@.take(idx as int), pack_key(c, b) as u64),
                ),
        decreases n - idx,
    {
        let ghost cur_counts = coverage.counts();
        let (key, v) = entries[idx];
        proof {
            vstd::arithmetic::div_mod::lemma_fundamental_div_mod(key as int, bin_span());
            vstd::arithmetic::div_mod::lemma_mod_division_less_than_divisor(
                key as int,
                bin_span(),
            );
        }
        let ci_w = key / 0x1_0000_0000u64;
        let b_w = key % 0x1_0000_0000u64;
        let ci = ci_w as usize;
        let b = b_w as usize;
        let ghost tk1 = entries@.take(idx as int + 1);
        proof {
            assert(tk1.drop_last() =~= entries@.take(idx as int));
            assert(tk1.last() == entries@[idx as int]);
        }
        if ci < coverage.bins.len() && b < coverage.bins[ci].len() {
            let cur = coverage.bins[ci][b];
            let nv = if cur > u32::MAX - v {
                u32::MAX
            } else {
                cur + v
            };
            self_update(coverage, ci, b, nv);
            proof {
                assert(key == pack_key(ci as int, b as int));
                assert forall|c: int, b2: int|
                    0 <= c < old(coverage).counts().len() && 0 <= b2 < old(
                        coverage,
                    ).counts()[c].len() implies #[trigger] coverage.counts()[c][b2] == sat_add(
                    old(coverage).counts()[c][b2],
                    key_total(tk1, pack_key(c, b2) as u64),
                ) by {
                    let kk = pack_key(c, b2) as u64;
                    lemma_key_total_nonneg(entries@.take(idx as int), kk);
                    if c == ci as int && b2 == b as int {
                        lemma_sat_add_assoc(
                            old(coverage).counts()[c][b2],
                            key_total(entries@.take(idx as int), kk),
                            v as int,
                        );
                    } else {
                        lemma_unpack(c, b2);
                        lemma_unpack(ci as int, b as int);
                    }
                }
            }
        } else {
            proof {
                assert forall|c: int, b2: int|
                    0 <= c < old(coverage).counts().len() && 0 <= b2 < old(
                        coverage,
                    ).counts()[c].len() implies #[trigger] coverage.counts()[c][b2] == sat_add(
                    old(coverage).counts()[c][b2],
                    key_total(tk1, pack_key(c, b2) as u64),
                ) by {
                    lemma_unpack(c, b2);
                }
            }
        }
        idx = idx + 1;
    }
    proof {
        assert(entries@.take(n as int) =~= entries@);
    }
}

/// Writes one counter of the store, preserving its shape.
fn self_update(coverage: &mut Coverage, ci: usize, b: usize, nv: u32)
    requires
        old(coverage).wf(),
        ci < old(coverage).bins@.len(),
        b < old(coverage).bins@[ci as int]@.len(),
    ensures
        final(coverage).wf(),
        final(coverage).bin_width == old(coverage).bin_width,
        final(coverage).chr_lengths == old(coverage).chr_lengths,
        final(coverage).counts() == old(coverage).counts().update(
            ci as int,
            old(coverage).counts()[ci as int].update(b as int, nv),
        ),
{
    coverage.bins[ci][b] = nv;
    proof {
        assert(coverage.counts() =~~= old(coverage).counts().update(
            ci as int,
            old(coverage).counts()[ci as int].update(b as int, nv),
        ));
    }
}

/// Relies on rayon's `par_chunks(...).map(...).collect()`: `par_chunks` cuts
/// the slice into consecutive, non-overlapping chunks of `sub` records in
/// order (the last may be shorter), and collecting the indexed parallel
/// iterator into a `Vec` preserves that order (rayon's slice and
/// `IndexedParallelIterator` documentation). The closure only calls the
/// verified `subchunk_summary`.
#[verifier::external_body]
fn par_subchunk_summaries(
    pairs: &[Pair],
    lengths: &Vec<u32>,
    bin_width: u32,
    sub: usize,
) -> (r: Vec<Vec<(u64, u32)>>)
    requires
        sub >= 1,
        bin_width > 0,
        lengths@.len() <= u32::MAX,
    ensures
        r@.len() == num_chunks(pairs@.len() as int, sub as int),
        forall|i: int|
            0 <= i < r@.len() ==> summary_matches(
                (#[trigger] r@[i])@,
                subchunk(pairs@, sub as int, i),
                lengths@,
                bin_width,
            ),
{
    pairs.par_chunks(sub).map(|c| subchunk_summary(c, lengths, bin_width)).collect()
}

/// Aggregates one batch of records into the store. The batch is cut into
/// sub-chunks of at least `subchunk_pairs` records whose local summaries are
/// computed independently (in parallel) and then merged in order; the final
/// counters do not depend on the cut. Every counter ends at the saturating
/// sum of its old value and the number of surviving endpoints of the batch
/// that fall in its bin.
pub fn aggregate_pairs_chunk(pairs: &[Pair], coverage: &mut Coverage, subchunk_pairs: usize)
    requires
        old(coverage).wf(),
    ensures
        final(coverage).wf(),
        final(coverage).bin_width == old(coverage).bin_width,
        final(coverage).chr_lengths == old(coverage).chr_lengths,
        final(coverage).counts().len() == old(coverage).counts().len(),
        forall|c: int, b: int|
            0 <= c < old(coverage).counts().len() && 0 <= b < old(coverage).counts()[c].len()
                ==> #[trigger] final(coverage).counts()[c][b] == sat_add(
                old(coverage).counts()[c][b],
                endpoint_count(pairs@, old(coverage).chr_lengths@, old(coverage).bin_width, c, b),
            ),
{
    let scl: usize = if subchunk_pairs < 16000 {
        16000
    } else {
        subchunk_pairs
    };
    let summaries = par_subchunk_summaries(pairs, &coverage.chr_lengths, coverage.bin_width, scl);
    let m = summaries.len();
    let ghost len = pairs@.len() as int;
    let ghost k = scl as int;
    let mut i: usize = 0;
    let ghost mut lo: int = 0int;
    proof {
        assert(pairs@.take(0) =~= Seq::<Pair>::empty());
    }
    while i < m
        invariant
            i <= m == summaries@.len(),
            m == num_chunks(len, k),
            len == pairs@.len(),
            k == scl as int >= 1,
            lo == if i as int * k < len { i as int * k } else { len },
            0 <= lo <= len,
            coverage.wf(),
            coverage.bin_width == old(coverage).bin_width,
            coverage.chr_lengths == old(coverage).chr_lengths,
            coverage.counts().len() == old(coverage).counts().len(),
            forall|c: int, b: int|
                0 <= c < old(coverage).counts().len() && 0 <= b < old(coverage).counts()[c].len()
                    ==> #[trigger] coverage.counts()[c][b] == sat_add(
                    old(coverage).counts()[c][b],
                    endpoint_count(
                        pairs@.take(lo),
                        old(coverage).chr_lengths@,
                        old(coverage).bin_width,
                        c,
                        b,
                    ),
                ),
        decreases m - i,
    {
        let ghost pre_counts = coverage.counts();
        proof {
            lemma_chunk_start_in_range(len, k, i as int);
            assert(lo == i as int * k);
            assert((i as int + 1) * k == i as int * k + k) by (nonlinear_arith);
        }
        let ghost hi: int = chunk_end(len, k, i as int);
        merge_summary(coverage, &summaries[i]);
        proof {
            let lengths = old(coverage).chr_lengths@;
            let bw = old(coverage).bin_width;
            let piece = subchunk(pairs@, k, i as int);
            assert(lo <= hi <= len);
            assert(pairs@.take(hi) =~= pairs@.take(lo) + piece);
            assert forall|c: int, b: int|
                0 <= c < old(coverage).counts().len() && 0 <= b < old(
                    coverage,
                ).counts()[c].len() implies #[trigger] coverage.counts()[c][b] == sat_add(
                old(coverage).counts()[c][b],
                endpoint_count(pairs@.take(hi), lengths, bw, c, b),
            ) by {
                let kk = pack_key(c, b) as u64;
                let prefix = endpoint_count(pairs@.take(lo), lengths, bw, c, b);
                let piece_cnt = endpoint_count(piece, lengths, bw, c, b);
                lemma_endpoint_count_concat(pairs@.take(lo), piece, lengths, bw, c, b);
                lemma_endpoint_count_nonneg(pairs@.take(lo), lengths, bw, c, b);
                lemma_endpoint_count_nonneg(piece, lengths, bw, c, b);
                assert(key_total(summaries@[i as int]@, kk) == clip_u32(piece_cnt));
                lemma_sat_add_clip(pre_counts[c][b], piece_cnt);
                lemma_sat_add_assoc(old(coverage).counts()[c][b], prefix, piece_cnt);
            }
            lo = hi;
        }
        i = i + 1;
    }
    proof {
        assert(m * k >= len) by (nonlinear_arith)
            requires
                k >= 1,
                m == (len + k - 1) / k,
                len >= 0,
        ;
        assert(lo == len);
        assert(pairs@.take(len) =~= pairs@);
    }
}

} // verus!
