//! Pairs-header lines a genome layout is sniffed from: `#chromsize:` lines
//! and `#samheader:` `@SQ` lines both contribute `(name, length)` entries,
//! collected in order with later lengths for a seen name winning.

use vstd::prelude::*;
use vstd::slice::slice_subrange;
use crate::lines::{spec_std_parse_u32, spec_tokens, tokenize, trim_end_ws};
use crate::utils::bytes_eq;

verus! {

/// `s` starts with the byte string `p`.
pub open spec fn has_prefix(s: Seq<u8>, p: Seq<u8>) -> bool {
    s.len() >= p.len() && s.take(p.len() as int) == p
}

/// The bytes of `#chromsize:`.
pub open spec fn chromsize_prefix() -> Seq<u8> {
    seq![0x23u8, 0x63, 0x68, 0x72, 0x6f, 0x6d, 0x73, 0x69, 0x7a, 0x65, 0x3a]
}

/// The bytes of `#samheader:`.
pub open spec fn samheader_prefix() -> Seq<u8> {
    seq![0x23u8, 0x73, 0x61, 0x6d, 0x68, 0x65, 0x61, 0x64, 0x65, 0x72, 0x3a]
}

/// The bytes of `SN:`.
pub open spec fn sn_prefix() -> Seq<u8> {
    seq![0x53u8, 0x4e, 0x3a]
}

/// The bytes of `LN:`.
pub open spec fn ln_prefix() -> Seq<u8> {
    seq![0x4cu8, 0x4e, 0x3a]
}

/// The name carried by the last `SN:`-prefixed token, if any.
pub open spec fn last_sn(toks: Seq<Seq<u8>>) -> Option<Seq<u8>>
    decreases toks.len(),
{
    if toks.len() == 0 {
        None
    } else if has_prefix(toks.last(), sn_prefix()) {
        Some(toks.last().skip(3))
    } else {
        last_sn(toks.drop_last())
    }
}

/// The length carried by the last `LN:`-prefixed token whose number parses,
/// if any.
pub open spec fn last_ln(toks: Seq<Seq<u8>>) -> Option<u32>
    decreases toks.len(),
{
    if toks.len() == 0 {
        None
    } else if has_prefix(toks.last(), ln_prefix()) && spec_std_parse_u32(toks.last().skip(3))
        is Some {
        spec_std_parse_u32(toks.last().skip(3))
    } else {
        last_ln(toks.drop_last())
    }
}

/// What one header line contributes to the genome layout: from a
/// `#chromsize:` line, its first field as the name and its second as the
/// length; from a `#samheader:` line, the last `SN:` name and the last
/// parseable `LN:` length; nothing otherwise.
pub open spec fn spec_header_entry(line: Seq<u8>) -> Option<(Seq<u8>, u32)> {
    let t = trim_end_ws(line);
    if has_prefix(t, chromsize_prefix()) {
        let toks = spec_tokens(t.skip(11));
        if toks.len() >= 2 && spec_std_parse_u32(toks[1]) is Some {
            Some((toks[0], spec_std_parse_u32(toks[1])->Some_0))
        } else {
            None
        }
    } else if has_prefix(t, samheader_prefix()) {
        let toks = spec_tokens(t.skip(11));
        match (last_sn(toks), last_ln(toks)) {
            (Some(name), Some(len)) => Some((name, len)),
            _ => None,
        }
    } else {
        None
    }
}

/// Whether a byte range starts with an 11-byte prefix.
fn range_has_prefix11(s: &[u8], to: usize, p: &[u8]) -> (r: bool)
    requires
        to <= s@.len(),
        p@.len() == 11,
    ensures
        r == has_prefix(s@.take(to as int), p@),
{
    if to < 11 {
        return false;
    }
    let head = slice_subrange(s, 0, 11);
    let r = bytes_eq(head, p);
    proof {
        assert(s@.take(to as int).take(11) =~= s@.subrange(0, 11));
    }
    r
}

/// Parses one pairs-header line into its layout contribution (see
/// `spec_header_entry`); the name comes back as its raw bytes.
pub fn parse_header_line(line: &[u8]) -> (r: Option<(Vec<u8>, u32)>)
    ensures
        r matches Some(entry) ==> spec_header_entry(line@) == Some((entry.0@, entry.1)),
        r is None ==> spec_header_entry(line@) is None,
{
    let e = crate::parser::trim_end_index(line);
    let t = slice_subrange(line, 0, e);
    proof {
        assert(t@ == trim_end_ws(line@));
        assert(t@.take(t@.len() as int) =~= t@);
    }
    let cs: [u8; 11] = [0x23, 0x63, 0x68, 0x72, 0x6f, 0x6d, 0x73, 0x69, 0x7a, 0x65, 0x3a];
    let sh: [u8; 11] = [0x23, 0x73, 0x61, 0x6d, 0x68, 0x65, 0x61, 0x64, 0x65, 0x72, 0x3a];
    proof {
        assert(cs@ =~= chromsize_prefix());
        assert(sh@ =~= samheader_prefix());
    }
    if range_has_prefix11(t, e, cs.as_slice()) {
        let rest = slice_subrange(t, 11, e);
        proof {
            assert(rest@ =~= t@.skip(11));
        }
        let toks = tokenize(rest);
        if toks.len() < 2 {
            return None;
        }
        let (n0, n1) = toks[0];
        let (l0, l1) = toks[1];
        let len = match crate::lines::std_parse_u32(slice_subrange(rest, l0, l1)) {
            Some(v) => v,
            None => {
                return None;
            },
        };
        let name = vstd::slice::slice_to_vec(slice_subrange(rest, n0, n1));
        return Some((name, len));
    }
    if range_has_prefix11(t, e, sh.as_slice()) {
        let rest = slice_subrange(t, 11, e);
        proof {
            assert(rest@ =~= t@.skip(11));
        }
        let toks = tokenize(rest);
        let ghost tseq = spec_tokens(rest@);
        let n = toks.len();
        let mut name: Option<Vec<u8>> = None;
        let mut length: Option<u32> = None;
        let mut i: usize = 0;
        proof {
            assert(tseq.take(0) =~= Seq::<Seq<u8>>::empty());
        }
        while i < n
            invariant
                i <= n == toks@.len() == tseq.len(),
                forall|q: int|
                    0 <= q < n ==> 0 <= (#[trigger] toks@[q]).0 <= toks@[q].1 <= rest@.len(),
                forall|q: int|
                    0 <= q < n ==> rest@.subrange(
                        (#[trigger] toks@[q]).0 as int,
                        toks@[q].1 as int,
                    ) == tseq[q],
                match name {
                    Some(v) => last_sn(tseq.take(i as int)) == Some(v@),
                    None => last_sn(tseq.take(i as int)) is None,
                },
                length == last_ln(tseq.take(i as int)),
            decreases n - i,
        {
            let (s0, s1) = toks[i];
            let tok = slice_subrange(rest, s0, s1);
            let ghost taken = tseq.take(i as int + 1);
            proof {
                assert(taken.drop_last() =~= tseq.take(i as int));
                assert(taken.last() == tseq[i as int]);
            }
            if tok.len() >= 3 {
                let head = slice_subrange(tok, 0, 3);
                let snp: [u8; 3] = [0x53, 0x4e, 0x3a];
                let lnp: [u8; 3] = [0x4c, 0x4e, 0x3a];
                proof {
                    assert(snp@ =~= sn_prefix());
                    assert(lnp@ =~= ln_prefix());
                    assert(tok@.take(3) =~= tok@.subrange(0, 3));
                }
                if bytes_eq(head, snp.as_slice()) {
                    let val = vstd::slice::slice_to_vec(slice_subrange(tok, 3, tok.len()));
                    proof {
                        assert(val@ =~= tok@.skip(3));
                    }
                    name = Some(val);
                } else if bytes_eq(head, lnp.as_slice()) {
                    let num = slice_subrange(tok, 3, tok.len());
                    proof {
                        assert(num@ =~= tok@.skip(3));
                    }
                    match crate::lines::std_parse_u32(num) {
                        Some(v) => {
                            length = Some(v);
                        },
                        None => {},
                    }
                } else {
                    proof {
                        assert(!has_prefix(taken.last(), sn_prefix()));
                        assert(!has_prefix(taken.last(), ln_prefix()));
                    }
                }
            } else {
                proof {
                    assert(!has_prefix(taken.last(), sn_prefix()));
                    assert(!has_prefix(taken.last(), ln_prefix()));
                }
            }
            i = i + 1;
        }
        proof {
            assert(tseq.take(n as int) =~= tseq);
        }
        return match (name, length) {
            (Some(nm), Some(ln)) => Some((nm, ln)),
            _ => None,
        };
    }
    None
}

/// The views of a list of raw names.
pub open spec fn name_views(names: Seq<Vec<u8>>) -> Seq<Seq<u8>> {
    Seq::new(names.len(), |i: int| names[i]@)
}

/// Index of the first occurrence of a name (the list's length when absent).
pub open spec fn find_name(names: Seq<Seq<u8>>, name: Seq<u8>) -> int
    decreases names.len(),
{
    if names.len() == 0 {
        0
    } else if names.first() == name {
        0
    } else {
        1 + find_name(names.drop_first(), name)
    }
}

/// The first occurrence is in bounds, matches, and nothing before it does.
pub proof fn lemma_find_name_props(names: Seq<Seq<u8>>, name: Seq<u8>)
    ensures
        0 <= find_name(names, name) <= names.len(),
        find_name(names, name) < names.len() ==> names[find_name(names, name)] == name,
        forall|q: int| 0 <= q < find_name(names, name) ==> names[q] != name,
    decreases names.len(),
{
    if names.len() > 0 && names.first() != name {
        lemma_find_name_props(names.drop_first(), name);
        assert forall|q: int| 0 <= q < find_name(names, name) implies names[q] != name by {
            if q > 0 {
                assert(names.drop_first()[q - 1] != name);
            }
        }
    }
}

/// Records one sniffed `(name, length)` entry in the layout under
/// construction: a seen name's length is updated in place, a new name is
/// appended with its length.
pub fn apply_header_entry(
    names: &mut Vec<Vec<u8>>,
    lengths: &mut Vec<u32>,
    name: Vec<u8>,
    len: u32,
)
    requires
        old(names)@.len() == old(lengths)@.len(),
    ensures
        final(names)@.len() == final(lengths)@.len(),
        ({
            let idx = find_name(name_views(old(names)@), name@);
            if idx < old(names)@.len() {
                &&& name_views(final(names)@) == name_views(old(names)@)
                &&& final(lengths)@ == old(lengths)@.update(idx, len)
            } else {
                &&& name_views(final(names)@) == name_views(old(names)@).push(name@)
                &&& final(lengths)@ == old(lengths)@.push(len)
            }
        }),
{
    let n = names.len();
    let ghost views = name_views(names@);
    let mut i: usize = 0;
    while i < n
        invariant
            i <= n == names@.len() == lengths@.len(),
            names@ == old(names)@,
            lengths@ == old(lengths)@,
            views == name_views(names@),
            forall|q: int| 0 <= q < i ==> views[q] != name@,
        decreases n - i,
    {
        if bytes_eq(names[i].as_slice(), name.as_slice()) {
            proof {
                lemma_find_name_props(views, name@);
                if find_name(views, name@) < i {
                    assert(views[find_name(views, name@)] != name@);
                } else if i < find_name(views, name@) {
                    assert(views[i as int] != name@);
                }
                assert(find_name(views, name@) == i as int);
            }
            lengths[i] = len;
            return;
        }
        i = i + 1;
    }
    proof {
        lemma_find_name_props(views, name@);
        if find_name(views, name@) < n {
            assert(views[find_name(views, name@)] != name@);
        }
        assert(find_name(views, name@) == n as int);
    }
    names.push(name);
    lengths.push(len);
    proof {
        assert(name_views(names@) =~= views.push(names@[n as int]@));
    }
}

} // verus!
