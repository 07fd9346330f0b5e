//! Genomic region parsing and line filtering for merged_nodups streams.

use vstd::prelude::*;
use vstd::utf8::encode_utf8;
use crate::lines::{
    first_index, lemma_first_index_props, spec_tokens, spec_std_parse_u32, std_parse_u32,
    tokenize,
};
use crate::utils::{bytes_eq, parse_u32_wrap, all_digits};
use vstd::slice::slice_subrange;

verus! {

/// A half-open genomic interval on one named chromosome, both endpoints in
/// base pairs and the range treated as inclusive by the filter.
#[derive(Debug, Clone, Copy)]
pub struct Region<'a> {
    pub chrom: &'a str,
    pub start: u32,
    pub end: u32,
}

/// Why a region string was rejected.
#[derive(Debug, Clone, Copy, PartialEq, Eq, Structural)]
pub enum RegionError {
    /// No `START-END` part was given and the region holds no `:`.
    MissingSpan,
    /// The span has none of the separators `-`, `..` or `_`.
    InvalidSpan,
    /// A bound is not an unsigned decimal number in range.
    InvalidNumber,
    /// The span's start lies after its end.
    StartAfterEnd,
}

/// Options of the stream filter: the region to keep and whether to apply the
/// uniqueness pre-filter.
pub struct FilterOptions<'a> {
    pub region: Region<'a>,
    pub require_unique: bool,
}

/// `s` with every comma removed.
pub open spec fn remove_commas(s: Seq<u8>) -> Seq<u8>
    decreases s.len(),
{
    if s.len() == 0 {
        s
    } else if s.last() == 0x2c {
        remove_commas(s.drop_last())
    } else {
        remove_commas(s.drop_last()).push(s.last())
    }
}

/// Position of the first `..` (the string's length when absent).
pub open spec fn first_dotdot(s: Seq<u8>) -> int
    decreases s.len(),
{
    if s.len() < 2 {
        s.len() as int
    } else if s.first() == 0x2e && s[1] == 0x2e {
        0
    } else {
        1 + first_dotdot(s.drop_first())
    }
}

/// The first `..` is in bounds and nothing before it is a `..`.
pub proof fn lemma_first_dotdot_props(s: Seq<u8>)
    ensures
        0 <= first_dotdot(s),
        first_dotdot(s) + 2 <= s.len() ==> s[first_dotdot(s)] == 0x2e && s[first_dotdot(s) + 1]
            == 0x2e,
        first_dotdot(s) + 2 > s.len() ==> first_dotdot(s) >= s.len() - 1,
        forall|q: int|
            0 <= q < first_dotdot(s) && q + 2 <= s.len() ==> !((#[trigger] s[q]) == 0x2e && s[q
                + 1] == 0x2e),
    decreases s.len(),
{
    if s.len() >= 2 && !(s.first() == 0x2e && s[1] == 0x2e) {
        lemma_first_dotdot_props(s.drop_first());
        assert forall|q: int|
            0 <= q < first_dotdot(s) && q + 2 <= s.len() implies !((#[trigger] s[q]) == 0x2e && s[q
            + 1] == 0x2e) by {
            if q > 0 {
                assert(!(s.drop_first()[q - 1] == 0x2e && s.drop_first()[q] == 0x2e));
            }
        }
    }
}

/// Both bounds of a span parsed, commas ignored.
pub open spec fn spec_span_bounds(a: Seq<u8>, b: Seq<u8>) -> Result<(u32, u32), RegionError> {
    match (spec_std_parse_u32(remove_commas(a)), spec_std_parse_u32(remove_commas(b))) {
        (Some(s), Some(e)) => if s > e {
            Err(RegionError::StartAfterEnd)
        } else {
            Ok((s, e))
        },
        _ => Err(RegionError::InvalidNumber),
    }
}

/// A span `START-END` (also `START..END` or `START_END`, commas ignored)
/// parsed into its bounds.
pub open spec fn spec_parse_span(se: Seq<u8>) -> Result<(u32, u32), RegionError> {
    let i1 = first_index(se, 0x2d);
    if i1 < se.len() {
        spec_span_bounds(se.take(i1), se.skip(i1 + 1))
    } else {
        let i2 = first_dotdot(se);
        if i2 + 2 <= se.len() {
            spec_span_bounds(se.take(i2), se.skip(i2 + 2))
        } else {
            let i3 = first_index(se, 0x5f);
            if i3 < se.len() {
                spec_span_bounds(se.take(i3), se.skip(i3 + 1))
            } else {
                Err(RegionError::InvalidSpan)
            }
        }
    }
}

/// Removes every comma from a byte range.
fn strip_commas(s: &[u8], from: usize, to: usize) -> (r: Vec<u8>)
    requires
        from <= to <= s@.len(),
    ensures
        r@ == remove_commas(s@.subrange(from as int, to as int)),
{
    let mut out: Vec<u8> = Vec::new();
    let mut i = from;
    proof {
        assert(s@.subrange(from as int, from as int) =~= Seq::<u8>::empty());
    }
    while i < to
        invariant
            from <= i <= to <= s@.len(),
            out@ == remove_commas(s@.subrange(from as int, i as int)),
        decreases to - i,
    {
        proof {
            let sub = s@.subrange(from as int, i as int + 1);
            assert(sub.drop_last() =~= s@.subrange(from as int, i as int));
            assert(sub.last() == s@[i as int]);
        }
        let byte = s[i];
        if byte != 0x2c {
            out.push(byte);
        }
        i = i + 1;
    }
    out
}

/// Parses both bounds of an already-split span.
fn span_bounds(s: &[u8], a0: usize, a1: usize, b0: usize, b1: usize) -> (r: Result<
    (u32, u32),
    RegionError,
>)
    requires
        a0 <= a1 <= s@.len(),
        b0 <= b1 <= s@.len(),
    ensures
        r == spec_span_bounds(
            s@.subrange(a0 as int, a1 as int),
            s@.subrange(b0 as int, b1 as int),
        ),
{
    let av = strip_commas(s, a0, a1);
    let bv = strip_commas(s, b0, b1);
    match (std_parse_u32(av.as_slice()), std_parse_u32(bv.as_slice())) {
        (Some(start), Some(end)) => if start > end {
            Err(RegionError::StartAfterEnd)
        } else {
            Ok((start, end))
        },
        _ => Err(RegionError::InvalidNumber),
    }
}

/// Parses a span `START-END` (also `START..END` or `START_END`); commas in
/// the numbers are ignored, and the start must not exceed the end.
pub fn parse_span(se: &str) -> (r: Result<(u32, u32), RegionError>)
    ensures
        r == spec_parse_span(encode_utf8(se@)),
{
    let b = se.as_bytes();
    let n = b.len();
    let mut i: usize = 0;
    while i < n && b[i] != 0x2d
        invariant
            i <= n == b@.len(),
            forall|q: int| 0 <= q < i ==> b@[q] != 0x2d,
        decreases n - i,
    {
        i = i + 1;
    }
    proof {
        lemma_first_index_props(b@, 0x2d);
        if first_index(b@, 0x2d) < i {
            assert(b@[first_index(b@, 0x2d)] != 0x2d);
        } else if i < first_index(b@, 0x2d) {
            assert(b@[i as int] != 0x2d);
        }
        assert(first_index(b@, 0x2d) == i as int);
    }
    if i < n {
        return span_bounds(b, 0, i, i + 1, n);
    }
    let mut j: usize = 0;
    while n >= 2 && j <= n - 2 && !(b[j] == 0x2e && b[j + 1] == 0x2e)
        invariant
            j <= n == b@.len(),
            n >= 2 ==> j + 1 <= n,
            forall|q: int|
                0 <= q < j && q + 2 <= n ==> !((#[trigger] b@[q]) == 0x2e && b@[q + 1] == 0x2e),
        decreases n - j,
    {
        j = j + 1;
    }
    proof {
        lemma_first_dotdot_props(b@);
    }
    if n >= 2 && j <= n - 2 {
        proof {
            let fd = first_dotdot(b@);
            if fd < j {
                assert(!(b@[fd] == 0x2e && b@[fd + 1] == 0x2e));
            } else if j < fd {
                assert(!(b@[j as int] == 0x2e && b@[j as int + 1] == 0x2e));
            }
            assert(first_dotdot(b@) == j as int);
        }
        return span_bounds(b, 0, j, j + 2, n);
    }
    proof {
        assert(first_dotdot(b@) + 2 > n);
    }
    let mut k: usize = 0;
    while k < n && b[k] != 0x5f
        invariant
            k <= n == b@.len(),
            forall|q: int| 0 <= q < k ==> b@[q] != 0x5f,
        decreases n - k,
    {
        k = k + 1;
    }
    proof {
        lemma_first_index_props(b@, 0x5f);
        if first_index(b@, 0x5f) < k {
            assert(b@[first_index(b@, 0x5f)] != 0x5f);
        } else if k < first_index(b@, 0x5f) {
            assert(b@[k as int] != 0x5f);
        }
        assert(first_index(b@, 0x5f) == k as int);
    }
    if k < n {
        return span_bounds(b, 0, k, k + 1, n);
    }
    Err(RegionError::InvalidSpan)
}

/// Position of the first `:` in a character string (the length when absent).
pub open spec fn first_colon(s: Seq<char>) -> int
    decreases s.len(),
{
    if s.len() == 0 {
        0
    } else if s.first() == ':' {
        0
    } else {
        1 + first_colon(s.drop_first())
    }
}

/// The first colon is in bounds, is a colon, and nothing before it is one.
pub proof fn lemma_first_colon_props(s: Seq<char>)
    ensures
        0 <= first_colon(s) <= s.len(),
        first_colon(s) < s.len() ==> s[first_colon(s)] == ':',
        forall|q: int| 0 <= q < first_colon(s) ==> s[q] != ':',
    decreases s.len(),
{
    if s.len() > 0 && s.first() != ':' {
        lemma_first_colon_props(s.drop_first());
        assert forall|q: int| 0 <= q < first_colon(s) implies s[q] != ':' by {
            if q > 0 {
                assert(s.drop_first()[q - 1] != ':');
            }
        }
    }
}

/// Relies on `str::split_once(':')`: splits at the first colon, which the
/// first returned piece does not contain; `None` when the string holds no
/// colon.
#[verifier::external_body]
fn split_once_colon<'a>(s: &'a str) -> (r: Option<(&'a str, &'a str)>)
    ensures
        r matches Some(parts) ==> s@ == parts.0@ + seq![':'] + parts.1@ && !parts.0@.contains(
            ':',
        ),
        r is None ==> !s@.contains(':'),
{
    s.split_once(':')
}

impl<'a> Region<'a> {
    /// Parses a region given either as a chromosome plus a separate span, or
    /// as a single `CHR:START-END` string (`..` and `_` also separate the
    /// span's bounds, and commas in the numbers are ignored).
    pub fn parse(region_or_chrom: &'a str, maybe_range: Option<&'a str>) -> (r: Result<
        Region<'a>,
        RegionError,
    >)
        ensures
            match maybe_range {
                Some(span) => match spec_parse_span(encode_utf8(span@)) {
                    Ok(bounds) => r matches Ok(reg) && reg.chrom@ == region_or_chrom@
                        && reg.start == bounds.0 && reg.end == bounds.1,
                    Err(e) => r == Err::<Region<'a>, RegionError>(e),
                },
                None => {
                    let s = region_or_chrom@;
                    if !s.contains(':') {
                        r == Err::<Region<'a>, RegionError>(RegionError::MissingSpan)
                    } else {
                        let i = first_colon(s);
                        match spec_parse_span(encode_utf8(s.skip(i + 1))) {
                            Ok(bounds) => r matches Ok(reg) && reg.chrom@ == s.take(i)
                                && reg.start == bounds.0 && reg.end == bounds.1,
                            Err(e) => r == Err::<Region<'a>, RegionError>(e),
                        }
                    }
                },
            },
    {
        match maybe_range {
            Some(span) => match parse_span(span) {
                Ok(bounds) => Ok(Region { chrom: region_or_chrom, start: bounds.0, end: bounds.1 }),
                Err(e) => Err(e),
            },
            None => match split_once_colon(region_or_chrom) {
                Some(parts) => {
                    proof {
                        let s = region_or_chrom@;
                        let a = parts.0@;
                        let bpart = parts.1@;
                        assert(s[a.len() as int] == ':');
                        assert forall|q: int| 0 <= q < a.len() implies s[q] != ':' by {
                            assert(s[q] == a[q]);
                            assert(!a.contains(':'));
                            assert(a.contains(a[q]) || a[q] != ':') by {
                                if a[q] == ':' {
                                    assert(a.contains(':'));
                                }
                            }
                        }
                        lemma_first_colon_props(s);
                        if first_colon(s) < a.len() {
                            assert(s[first_colon(s)] != ':');
                        }
                        assert(first_colon(s) == a.len());
                        assert(s.contains(':')) by {
                            assert(s[a.len() as int] == ':');
                        }
                        assert(s.take(a.len() as int) =~= a);
                        assert(s.skip(a.len() as int + 1) =~= bpart);
                    }
                    match parse_span(parts.1) {
                        Ok(bounds) => Ok(
                            Region { chrom: parts.0, start: bounds.0, end: bounds.1 },
                        ),
                        Err(e) => Err(e),
                    }
                },
                None => Err(RegionError::MissingSpan),
            },
        }
    }
}

/// What the stream filter keeps: the whitespace-separated fields of a
/// merged_nodups line, with either endpoint's chromosome name equal to the
/// region's and its position inside the region's inclusive range; under the
/// uniqueness pre-filter both mapping qualities must be positive and the two
/// fragments distinct, with missing or malformed numeric fields read as 0.
pub open spec fn spec_line_matches(
    line: Seq<u8>,
    chrom: Seq<u8>,
    start: u32,
    end: u32,
    require_unique: bool,
) -> bool {
    let toks = spec_tokens(line);
    if toks.len() <= 6 {
        false
    } else {
        let unique_ok = if require_unique {
            if toks.len() > 8 {
                let frag1 = loose_u32(toks[3], 0);
                let frag2 = loose_u32(toks[7], 0);
                let mapq1 = loose_u32(toks[8], 0);
                let mapq2 = if toks.len() > 11 {
                    loose_u32(toks[11], 0)
                } else {
                    0
                };
                mapq1 > 0 && mapq2 > 0 && frag1 != frag2
            } else {
                false
            }
        } else {
            true
        };
        if !unique_ok {
            false
        } else {
            let pos1 = loose_u32(toks[2], u32::MAX);
            let pos2 = loose_u32(toks[6], u32::MAX);
            (toks[1] == chrom && start <= pos1 <= end) || (toks[5] == chrom && start <= pos2
                <= end)
        }
    }
}

/// A field parsed by `parse_u32_fast`, with a fallback for malformed fields.
pub open spec fn loose_u32(t: Seq<u8>, fallback: u32) -> u32 {
    if t.len() > 0 && all_digits(t) {
        parse_u32_wrap(t)
    } else {
        fallback
    }
}

/// Reads one field with `parse_u32_fast` semantics and a fallback value.
fn field_u32(line: &[u8], from: usize, to: usize, fallback: u32) -> (r: u32)
    requires
        from <= to <= line@.len(),
    ensures
        r == loose_u32(line@.subrange(from as int, to as int), fallback),
{
    let piece = slice_subrange(line, from, to);
    match crate::utils::parse_u32_fast(piece) {
        Some(v) => v,
        None => fallback,
    }
}

/// Decides whether one merged_nodups line overlaps the region (see
/// `spec_line_matches`).
pub fn line_matches_region(
    line: &str,
    chrom: &str,
    start: u32,
    end: u32,
    require_unique: bool,
) -> (r: bool)
    ensures
        r == spec_line_matches(
            encode_utf8(line@),
            encode_utf8(chrom@),
            start,
            end,
            require_unique,
        ),
{
    let b = line.as_bytes();
    let cb = chrom.as_bytes();
    let toks = tokenize(b);
    if toks.len() <= 6 {
        return false;
    }
    if require_unique {
        let unique_ok = if toks.len() > 8 {
            let (f3s, f3e) = toks[3];
            let (f7s, f7e) = toks[7];
            let (f8s, f8e) = toks[8];
            let frag1 = field_u32(b, f3s, f3e, 0);
            let frag2 = field_u32(b, f7s, f7e, 0);
            let mapq1 = field_u32(b, f8s, f8e, 0);
            let mapq2 = if toks.len() > 11 {
                let (f11s, f11e) = toks[11];
                field_u32(b, f11s, f11e, 0)
            } else {
                0
            };
            mapq1 > 0 && mapq2 > 0 && frag1 != frag2
        } else {
            false
        };
        if !unique_ok {
            return false;
        }
    }
    let (f1s, f1e) = toks[1];
    let (f2s, f2e) = toks[2];
    let (f5s, f5e) = toks[5];
    let (f6s, f6e) = toks[6];
    let pos1 = field_u32(b, f2s, f2e, u32::MAX);
    let pos2 = field_u32(b, f6s, f6e, u32::MAX);
    let chr1_eq = bytes_eq(slice_subrange(b, f1s, f1e), cb);
    let chr2_eq = bytes_eq(slice_subrange(b, f5s, f5e), cb);
    (chr1_eq && pos1 >= start && pos1 <= end) || (chr2_eq && pos2 >= start && pos2 <= end)
}

} // verus!
