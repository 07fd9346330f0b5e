//! Byte-level line scanning: whitespace tokens, separator splitting, and
//! checked decimal parsing, shared by the record and region parsers.

use vstd::prelude::*;
use crate::utils::{all_digits, digits_value, is_digit};

verus! {

/// An ASCII whitespace byte: space, tab, line feed, vertical tab, form
/// feed, or carriage return.
pub open spec fn is_space(b: u8) -> bool {
    b == 0x20 || b == 0x09 || b == 0x0a || b == 0x0b || b == 0x0c || b == 0x0d
}

/// `b` with trailing whitespace removed.
pub open spec fn trim_end_ws(s: Seq<u8>) -> Seq<u8>
    decreases s.len(),
{
    if s.len() > 0 && is_space(s.last()) {
        trim_end_ws(s.drop_last())
    } else {
        s
    }
}

/// `s` with leading whitespace removed.
pub open spec fn skip_spaces(s: Seq<u8>) -> Seq<u8>
    decreases s.len(),
{
    if s.len() > 0 && is_space(s.first()) {
        skip_spaces(s.drop_first())
    } else {
        s
    }
}

/// Length of the maximal non-whitespace prefix of `s`.
pub open spec fn token_len(s: Seq<u8>) -> int
    decreases s.len(),
{
    if s.len() == 0 || is_space(s.first()) {
        0
    } else {
        1 + token_len(s.drop_first())
    }
}

/// Skipping spaces yields a suffix no longer than the input whose first
/// byte, if any, is not whitespace.
pub proof fn lemma_skip_spaces_props(s: Seq<u8>)
    ensures
        skip_spaces(s).len() <= s.len(),
        skip_spaces(s).len() > 0 ==> !is_space(skip_spaces(s).first()),
    decreases s.len(),
{
    if s.len() > 0 && is_space(s.first()) {
        lemma_skip_spaces_props(s.drop_first());
    }
}

/// A token never runs past the end of its string.
pub proof fn lemma_token_len_bounds(s: Seq<u8>)
    ensures
        0 <= token_len(s) <= s.len(),
    decreases s.len(),
{
    if s.len() > 0 && !is_space(s.first()) {
        lemma_token_len_bounds(s.drop_first());
    }
}

/// The token length is the position of the first whitespace byte (or the
/// string's length when there is none).
pub proof fn lemma_token_len_positional(s: Seq<u8>, j: int)
    requires
        0 <= j <= s.len(),
        forall|q: int| 0 <= q < j ==> !is_space(#[trigger] s[q]),
        j == s.len() || is_space(s[j]),
    ensures
        token_len(s) == j,
    decreases j,
{
    if j > 0 {
        lemma_token_len_positional(s.drop_first(), j - 1);
    }
}

/// The whitespace-separated tokens of a byte string, in order.
pub open spec fn spec_tokens(s: Seq<u8>) -> Seq<Seq<u8>>
    decreases s.len(),
        via spec_tokens_decreases
{
    let t = skip_spaces(s);
    if t.len() == 0 {
        Seq::empty()
    } else {
        seq![t.take(token_len(t))] + spec_tokens(t.skip(token_len(t)))
    }
}

#[via_fn]
proof fn spec_tokens_decreases(s: Seq<u8>) {
    lemma_skip_spaces_props(s);
    let t = skip_spaces(s);
    if t.len() > 0 {
        lemma_token_len_bounds(t);
        lemma_token_len_bounds(t.drop_first());
        assert(token_len(t) >= 1);
    }
}

/// A leading whitespace byte does not change the tokens.
pub proof fn lemma_tokens_skip_space(s: Seq<u8>)
    requires
        s.len() > 0,
        is_space(s.first()),
    ensures
        spec_tokens(s) == spec_tokens(s.drop_first()),
{
    assert(skip_spaces(s) == skip_spaces(s.drop_first()));
}

/// Whether a byte is ASCII whitespace.
pub fn is_space_byte(b: u8) -> (r: bool)
    ensures
        r == is_space(b),
{
    b == 0x20 || b == 0x09 || b == 0x0a || b == 0x0b || b == 0x0c || b == 0x0d
}

/// Cuts a line into its whitespace-separated fields, returned as index
/// ranges into the line.
pub fn tokenize(line: &[u8]) -> (r: Vec<(usize, usize)>)
    ensures
        r@.len() == spec_tokens(line@).len(),
        forall|t: int|
            0 <= t < r@.len() ==> {
                &&& 0 <= (#[trigger] r@[t]).0 <= r@[t].1 <= line@.len()
                &&& line@.subrange(r@[t].0 as int, r@[t].1 as int) == spec_tokens(line@)[t]
            },
{
    let n = line.len();
    let mut r: Vec<(usize, usize)> = Vec::new();
    let mut i: usize = 0;
    proof {
        assert(line@.skip(0) =~= line@);
        assert(spec_tokens(line@) =~= Seq::new(
            r@.len(),
            |t: int| line@.subrange(r@[t].0 as int, r@[t].1 as int),
        ) + spec_tokens(line@.skip(0)));
    }
    while i < n
        invariant
            i <= n == line@.len(),
            forall|t: int|
                0 <= t < r@.len() ==> 0 <= (#[trigger] r@[t]).0 <= r@[t].1 <= line@.len(),
            spec_tokens(line@) == Seq::new(
                r@.len(),
                |t: int| line@.subrange(r@[t].0 as int, r@[t].1 as int),
            ) + spec_tokens(line@.skip(i as int)),
        decreases n - i,
    {
        let ghost found = Seq::new(
            r@.len(),
            |t: int| line@.subrange(r@[t].0 as int, r@[t].1 as int),
        );
        if is_space_byte(line[i]) {
            proof {
                lemma_tokens_skip_space(line@.skip(i as int));
                assert(line@.skip(i as int).drop_first() =~= line@.skip(i as int + 1));
            }
            i = i + 1;
        } else {
            let start = i;
            let mut e = i;
            while e < n && !is_space_byte(line[e])
                invariant
                    start <= e <= n == line@.len(),
                    forall|q: int| start <= q < e ==> !is_space(#[trigger] line@[q]),
                decreases n - e,
            {
                e = e + 1;
            }
            proof {
                let rest = line@.skip(start as int);
                lemma_token_len_positional(rest, e - start);
                assert(skip_spaces(rest) == rest);
                assert(rest.take(e - start) =~= line@.subrange(start as int, e as int));
                assert(rest.skip(e - start) =~= line@.skip(e as int));
                assert(spec_tokens(rest) == seq![line@.subrange(start as int, e as int)]
                    + spec_tokens(line@.skip(e as int)));
            }
            r.push((start, e));
            proof {
                assert(Seq::new(
                    r@.len(),
                    |t: int| line@.subrange(r@[t].0 as int, r@[t].1 as int),
                ) =~= found.push(line@.subrange(start as int, e as int)));
                assert(found.push(line@.subrange(start as int, e as int))
                    + spec_tokens(line@.skip(e as int)) =~= found + (seq![
                    line@.subrange(start as int, e as int),
                ] + spec_tokens(line@.skip(e as int))));
            }
            i = e;
        }
    }
    proof {
        assert(line@.skip(n as int) =~= Seq::<u8>::empty());
        assert(skip_spaces(Seq::<u8>::empty()) =~= Seq::<u8>::empty());
        assert(spec_tokens(line@.skip(n as int)) =~= Seq::<Seq<u8>>::empty());
        assert(spec_tokens(line@) =~= Seq::new(
            r@.len(),
            |t: int| line@.subrange(r@[t].0 as int, r@[t].1 as int),
        ));
    }
    r
}

/// Position of the first occurrence of `sep` (the string's length when
/// absent).
pub open spec fn first_index(s: Seq<u8>, sep: u8) -> int
    decreases s.len(),
{
    if s.len() == 0 {
        0
    } else if s.first() == sep {
        0
    } else {
        1 + first_index(s.drop_first(), sep)
    }
}

/// The first occurrence is in bounds, holds the separator, and nothing
/// before it does.
pub proof fn lemma_first_index_props(s: Seq<u8>, sep: u8)
    ensures
        0 <= first_index(s, sep) <= s.len(),
        first_index(s, sep) < s.len() ==> s[first_index(s, sep)] == sep,
        forall|q: int| 0 <= q < first_index(s, sep) ==> s[q] != sep,
    decreases s.len(),
{
    if s.len() > 0 && s.first() != sep {
        lemma_first_index_props(s.drop_first(), sep);
        assert forall|q: int| 0 <= q < first_index(s, sep) implies s[q] != sep by {
            if q > 0 {
                assert(s.drop_first()[q - 1] != sep);
            }
        }
    }
}

/// The fields of a byte string cut at every occurrence of `sep`; empty
/// fields are kept.
pub open spec fn split_by(s: Seq<u8>, sep: u8) -> Seq<Seq<u8>>
    decreases s.len(),
        via split_by_decreases
{
    let i = first_index(s, sep);
    if i >= s.len() {
        seq![s]
    } else {
        seq![s.take(i)] + split_by(s.skip(i + 1), sep)
    }
}

#[via_fn]
proof fn split_by_decreases(s: Seq<u8>, sep: u8) {
    lemma_first_index_props(s, sep);
}

/// Cuts a line into fields at every occurrence of `sep`, returned as index
/// ranges into the line; empty fields are kept.
pub fn split_fields(line: &[u8], sep: u8) -> (r: Vec<(usize, usize)>)
    ensures
        r@.len() == split_by(line@, sep).len(),
        forall|t: int|
            0 <= t < r@.len() ==> {
                &&& 0 <= (#[trigger] r@[t]).0 <= r@[t].1 <= line@.len()
                &&& line@.subrange(r@[t].0 as int, r@[t].1 as int) == split_by(line@, sep)[t]
            },
{
    let n = line.len();
    let mut r: Vec<(usize, usize)> = Vec::new();
    let mut i: usize = 0;
    let mut done = false;
    proof {
        assert(line@.skip(0) =~= line@);
        assert(split_by(line@, sep) =~= Seq::new(
            r@.len(),
            |t: int| line@.subrange(r@[t].0 as int, r@[t].1 as int),
        ) + split_by(line@.skip(0), sep));
    }
    while !done
        invariant
            i <= n == line@.len(),
            forall|t: int|
                0 <= t < r@.len() ==> 0 <= (#[trigger] r@[t]).0 <= r@[t].1 <= line@.len(),
            !done ==> split_by(line@, sep) == Seq::new(
                r@.len(),
                |t: int| line@.subrange(r@[t].0 as int, r@[t].1 as int),
            ) + split_by(line@.skip(i as int), sep),
            done ==> split_by(line@, sep) == Seq::new(
                r@.len(),
                |t: int| line@.subrange(r@[t].0 as int, r@[t].1 as int),
            ),
        decreases (if done {
            0int
        } else {
            1int
        }), n - i,
    {
        let ghost found = Seq::new(
            r@.len(),
            |t: int| line@.subrange(r@[t].0 as int, r@[t].1 as int),
        );
        let start = i;
        let mut e = i;
        while e < n && line[e] != sep
            invariant
                start <= e <= n == line@.len(),
                forall|q: int| start <= q < e ==> line@[q] != sep,
            decreases n - e,
        {
            e = e + 1;
        }
        let ghost rest = line@.skip(start as int);
        proof {
            lemma_first_index_props(rest, sep);
            assert forall|q: int| 0 <= q < e - start implies rest[q] != sep by {
                assert(line@[start + q] != sep);
            }
            if e < n {
                assert(rest[e - start] == sep);
            }
            assert(first_index(rest, sep) == e - start) by {
                lemma_first_index_props(rest, sep);
                if first_index(rest, sep) < e - start {
                    assert(rest[first_index(rest, sep)] != sep);
                } else if first_index(rest, sep) > e - start {
                    assert(e - start < rest.len());
                    assert(rest[e - start] != sep);
                }
            }
            assert(rest.take(e - start) =~= line@.subrange(start as int, e as int));
        }
        r.push((start, e));
        proof {
            assert(Seq::new(
                r@.len(),
                |t: int| line@.subrange(r@[t].0 as int, r@[t].1 as int),
            ) =~= found.push(line@.subrange(start as int, e as int)));
        }
        if e < n {
            proof {
                assert(rest.skip(e - start + 1) =~= line@.skip(e as int + 1));
                assert(split_by(rest, sep) == seq![line@.subrange(start as int, e as int)]
                    + split_by(line@.skip(e as int + 1), sep));
                assert(found.push(line@.subrange(start as int, e as int)) + split_by(
                    line@.skip(e as int + 1),
                    sep,
                ) =~= found + (seq![line@.subrange(start as int, e as int)] + split_by(
                    line@.skip(e as int + 1),
                    sep,
                )));
            }
            i = e + 1;
        } else {
            proof {
                assert(rest =~= line@.subrange(start as int, e as int));
                assert(split_by(rest, sep) == seq![line@.subrange(start as int, e as int)]);
                assert(found.push(line@.subrange(start as int, e as int)) =~= found + seq![
                    line@.subrange(start as int, e as int),
                ]);
            }
            done = true;
        }
    }
    r
}

/// Longer digit strings never denote smaller values.
proof fn lemma_digits_value_prefix(s: Seq<u8>, j: int)
    requires
        all_digits(s),
        0 <= j <= s.len(),
    ensures
        digits_value(s.take(j)) <= digits_value(s),
    decreases s.len() - j,
{
    if j < s.len() {
        assert(all_digits(s.take(j + 1)));
        crate::utils::lemma_digits_value_nonneg(s.take(j));
        assert(s.take(j + 1).drop_last() =~= s.take(j));
        assert(digits_value(s.take(j + 1)) == digits_value(s.take(j)) * 10 + (s[j] - 0x30));
        assert(digits_value(s.take(j)) * 10 >= digits_value(s.take(j))) by (nonlinear_arith)
            requires
                digits_value(s.take(j)) >= 0,
        ;
        lemma_digits_value_prefix(s, j + 1);
        assert(s.take(s.len() as int) =~= s);
    } else {
        assert(s.take(j) =~= s);
    }
}

/// The value `str::parse::<u32>` gives a field: an optional leading plus
/// sign, then at least one digit, with the value fitting `u32`.
pub open spec fn spec_std_parse_u32(s: Seq<u8>) -> Option<u32> {
    let d = if s.len() > 0 && s.first() == 0x2b {
        s.drop_first()
    } else {
        s
    };
    if d.len() > 0 && all_digits(d) && digits_value(d) <= u32::MAX {
        Some(digits_value(d) as u32)
    } else {
        None
    }
}

/// Checked decimal `u32` parsing with the standard library's grammar: an
/// optional leading `+`, then one or more digits; overflow is rejected.
pub fn std_parse_u32(s: &[u8]) -> (r: Option<u32>)
    ensures
        r == spec_std_parse_u32(s@),
{
    let n = s.len();
    let mut i: usize = 0;
    if n > 0 && s[0] == 0x2b {
        i = 1;
    }
    let ghost d = if s@.len() > 0 && s@.first() == 0x2b {
        s@.drop_first()
    } else {
        s@
    };
    proof {
        assert(d =~= s@.skip(i as int));
    }
    if i >= n {
        return None;
    }
    let start = i;
    let mut value: u32 = 0;
    while i < n
        invariant
            start <= i <= n == s@.len(),
            d == s@.skip(start as int),
            d.len() == n - start,
            all_digits(d.take(i - start)),
            value == digits_value(d.take(i - start)),
        decreases n - i,
    {
        let byte = s[i];
        if byte < 0x30 || byte > 0x39 {
            proof {
                assert(d[i - start] == s@[i as int]);
                assert(!is_digit(d[i - start]));
            }
            return None;
        }
        let digit = (byte - 0x30) as u32;
        let ghost taken = d.take(i - start + 1);
        proof {
            assert(taken.drop_last() =~= d.take(i - start));
            assert(taken.last() == s@[i as int]);
        }
        if value > (u32::MAX - digit) / 10 {
            proof {
                crate::utils::lemma_digits_value_nonneg(taken);
                assert(digits_value(taken) == value * 10 + digit);
                assert(digits_value(taken) > u32::MAX) by (nonlinear_arith)
                    requires
                        digits_value(taken) == value * 10 + digit,
                        value > (0xffff_ffff - digit) / 10,
                        value >= 0,
                        0 <= digit <= 9,
                ;
                assert(all_digits(d) ==> digits_value(d) > u32::MAX) by {
                    if all_digits(d) {
                        lemma_digits_value_prefix(d, i - start + 1);
                    }
                }
            }
            return None;
        }
        value = value * 10 + digit;
        i = i + 1;
    }
    proof {
        assert(d.take(n - start) =~= d);
    }
    Some(value)
}

} // verus!
