//! Record parsers for the juicer merged_nodups and 4DN pairs text formats,
//! and the pairs-header lines a genome layout can be sniffed from.

use vstd::prelude::*;
use vstd::slice::slice_subrange;
use vstd::utf8::{decode_utf8, valid_utf8};
use crate::lines::{
    spec_std_parse_u32, spec_tokens, split_by, split_fields, std_parse_u32, tokenize,
    trim_end_ws,
};
use crate::utils::{chr_map_entries, ChrMap, Pair, parse_chr};

verus! {

/// The code a chromosome map gives a raw name field: `None` when the bytes
/// are not valid UTF-8 or the name is unknown.
pub open spec fn spec_chr_of(m: Map<Seq<char>, u8>, t: Seq<u8>) -> Option<u8> {
    if valid_utf8(t) && m.dom().contains(decode_utf8(t)) {
        Some(m[decode_utf8(t)])
    } else {
        None
    }
}

/// What one juicer merged_nodups line yields: fields are whitespace
/// separated; fields 1 and 5 name the chromosomes, 2 and 6 the positions,
/// 3 and 7 the fragments, 8 and 11 the mapping qualities (quality 0 when
/// field 11 is missing). A record survives only when both qualities are
/// positive and the fragments differ.
pub open spec fn spec_parse_juicer(line: Seq<u8>, m: Map<Seq<char>, u8>) -> Option<Pair> {
    let toks = spec_tokens(line);
    if toks.len() < 9 {
        None
    } else {
        let mq2tok = if toks.len() > 11 {
            toks[11]
        } else {
            seq![0x30u8]
        };
        match (
            spec_chr_of(m, toks[1]),
            spec_std_parse_u32(toks[2]),
            spec_std_parse_u32(toks[3]),
            spec_std_parse_u32(toks[8]),
        ) {
            (Some(chr1), Some(pos1), Some(frag1), Some(mapq1)) => match (
                spec_chr_of(m, toks[5]),
                spec_std_parse_u32(toks[6]),
                spec_std_parse_u32(toks[7]),
                spec_std_parse_u32(mq2tok),
            ) {
                (Some(chr2), Some(pos2), Some(frag2), Some(mapq2)) => if mapq1 > 0 && mapq2 > 0
                    && frag1 != frag2 {
                    Some(Pair { chr1, pos1, chr2, pos2 })
                } else {
                    None
                },
                _ => None,
            },
            _ => None,
        }
    }
}

/// Reads one whitespace-separated field as a chromosome code.
fn field_chr(line: &[u8], from: usize, to: usize, chr_map: &ChrMap) -> (r: Option<u8>)
    requires
        from <= to <= line@.len(),
    ensures
        r == spec_chr_of(chr_map_entries(*chr_map), line@.subrange(from as int, to as int)),
{
    parse_chr(slice_subrange(line, from, to), chr_map)
}

/// Reads one whitespace-separated field as a standard decimal `u32`.
fn field_std_u32(line: &[u8], from: usize, to: usize) -> (r: Option<u32>)
    requires
        from <= to <= line@.len(),
    ensures
        r == spec_std_parse_u32(line@.subrange(from as int, to as int)),
{
    std_parse_u32(slice_subrange(line, from, to))
}

/// Parses one juicer merged_nodups line (see `spec_parse_juicer`); `None`
/// drops the line silently.
pub fn parse_line_juicer(line: &[u8], chr_map: &ChrMap) -> (r: Option<Pair>)
    ensures
        r == spec_parse_juicer(line@, chr_map_entries(*chr_map)),
{
    let toks = tokenize(line);
    if toks.len() < 9 {
        return None;
    }
    let (f1s, f1e) = toks[1];
    let (f2s, f2e) = toks[2];
    let (f3s, f3e) = toks[3];
    let (f5s, f5e) = toks[5];
    let (f6s, f6e) = toks[6];
    let (f7s, f7e) = toks[7];
    let (f8s, f8e) = toks[8];
    let chr1 = match field_chr(line, f1s, f1e, chr_map) {
        Some(v) => v,
        None => {
            return None;
        },
    };
    let pos1 = match field_std_u32(line, f2s, f2e) {
        Some(v) => v,
        None => {
            return None;
        },
    };
    let frag1 = match field_std_u32(line, f3s, f3e) {
        Some(v) => v,
        None => {
            return None;
        },
    };
    let mapq1 = match field_std_u32(line, f8s, f8e) {
        Some(v) => v,
        None => {
            return None;
        },
    };
    let chr2 = match field_chr(line, f5s, f5e, chr_map) {
        Some(v) => v,
        None => {
            return None;
        },
    };
    let pos2 = match field_std_u32(line, f6s, f6e) {
        Some(v) => v,
        None => {
            return None;
        },
    };
    let frag2 = match field_std_u32(line, f7s, f7e) {
        Some(v) => v,
        None => {
            return None;
        },
    };
    let mapq2: u32 = if toks.len() > 11 {
        let (f11s, f11e) = toks[11];
        match field_std_u32(line, f11s, f11e) {
            Some(v) => v,
            None => {
                return None;
            },
        }
    } else {
        proof {
            let zero = seq![0x30u8];
            assert(zero.drop_first() =~= Seq::<u8>::empty());
            assert forall|q: int| 0 <= q < zero.len() implies crate::utils::is_digit(
                #[trigger] zero[q],
            ) by {
                assert(zero[0] == 0x30);
            }
            assert(zero.drop_last() =~= Seq::<u8>::empty());
            assert(crate::utils::digits_value(Seq::<u8>::empty()) == 0);
            assert(zero.last() == 0x30);
            assert(crate::utils::digits_value(zero) == 0);
            assert(spec_std_parse_u32(zero) == Some(0u32));
        }
        0
    };
    if mapq1 > 0 && mapq2 > 0 && frag1 != frag2 {
        Some(Pair { chr1, pos1, chr2, pos2 })
    } else {
        None
    }
}

/// What one 4DN pairs line yields: a comment or blank line is skipped;
/// otherwise the line is cut at tabs, needs at least 8 fields, must carry
/// the pair type `UU`, and fields 1–4 give chromosome and position of each
/// endpoint.
pub open spec fn spec_parse_pairs(line: Seq<u8>, m: Map<Seq<char>, u8>) -> Option<Pair> {
    let t = trim_end_ws(line);
    if t.len() == 0 || t.first() == 0x23 {
        None
    } else {
        let f = split_by(t, 0x09);
        if f.len() < 8 {
            None
        } else if f[7] != seq![0x55u8, 0x55u8] {
            None
        } else {
            match (
                spec_chr_of(m, f[1]),
                spec_std_parse_u32(f[2]),
                spec_chr_of(m, f[3]),
                spec_std_parse_u32(f[4]),
            ) {
                (Some(chr1), Some(pos1), Some(chr2), Some(pos2)) => Some(
                    Pair { chr1, pos1, chr2, pos2 },
                ),
                _ => None,
            }
        }
    }
}

/// Trailing whitespace is exactly what lies at or past the cut position.
proof fn lemma_trim_end_positional(s: Seq<u8>, e: int)
    requires
        0 <= e <= s.len(),
        forall|q: int| e <= q < s.len() ==> crate::lines::is_space(#[trigger] s[q]),
        e == 0 || !crate::lines::is_space(s[e - 1]),
    ensures
        trim_end_ws(s) == s.take(e),
    decreases s.len(),
{
    if s.len() > e {
        lemma_trim_end_positional(s.drop_last(), e);
        assert(s.drop_last().take(e) =~= s.take(e));
    } else {
        assert(s.take(e) =~= s);
    }
}

/// The index just past the last non-whitespace byte.
pub fn trim_end_index(line: &[u8]) -> (r: usize)
    ensures
        r <= line@.len(),
        trim_end_ws(line@) == line@.take(r as int),
{
    let n = line.len();
    let mut e = n;
    while e > 0 && crate::lines::is_space_byte(line[e - 1])
        invariant
            e <= n == line@.len(),
            forall|q: int| e <= q < n ==> crate::lines::is_space(#[trigger] line@[q]),
        decreases e,
    {
        e = e - 1;
    }
    proof {
        lemma_trim_end_positional(line@, e as int);
    }
    e
}

/// Parses one 4DN pairs line (see `spec_parse_pairs`); `None` drops the
/// line silently.
pub fn parse_line_pairs(line: &[u8], chr_map: &ChrMap) -> (r: Option<Pair>)
    ensures
        r == spec_parse_pairs(line@, chr_map_entries(*chr_map)),
{
    let e = trim_end_index(line);
    if e == 0 {
        return None;
    }
    if line[0] == 0x23 {
        proof {
            assert(trim_end_ws(line@).first() == line@[0]);
        }
        return None;
    }
    let t = slice_subrange(line, 0, e);
    proof {
        assert(t@ == trim_end_ws(line@));
    }
    let f = split_fields(t, 0x09);
    if f.len() < 8 {
        return None;
    }
    let (p0, p1) = f[7];
    let ptype = slice_subrange(t, p0, p1);
    let is_uu = ptype.len() == 2 && ptype[0] == 0x55 && ptype[1] == 0x55;
    proof {
        if is_uu {
            assert(ptype@ =~= seq![0x55u8, 0x55u8]);
        } else {
            assert(ptype@ != seq![0x55u8, 0x55u8]) by {
                if ptype@ == seq![0x55u8, 0x55u8] {
                    assert(ptype@.len() == 2);
                    assert(ptype@[0] == 0x55 && ptype@[1] == 0x55);
                }
            }
        }
    }
    if !is_uu {
        return None;
    }
    let (c1s, c1e) = f[1];
    let (p1s, p1e) = f[2];
    let (c2s, c2e) = f[3];
    let (p2s, p2e) = f[4];
    let chr1 = match field_chr(t, c1s, c1e, chr_map) {
        Some(v) => v,
        None => {
            return None;
        },
    };
    let pos1 = match field_std_u32(t, p1s, p1e) {
        Some(v) => v,
        None => {
            return None;
        },
    };
    let chr2 = match field_chr(t, c2s, c2e, chr_map) {
        Some(v) => v,
        None => {
            return None;
        },
    };
    let pos2 = match field_std_u32(t, p2s, p2e) {
        Some(v) => v,
        None => {
            return None;
        },
    };
    Some(Pair { chr1, pos1, chr2, pos2 })
}

} // verus!
