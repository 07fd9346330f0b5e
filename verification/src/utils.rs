//! Plain record types, fast number parsing, and chromosome-name lookup.

use vstd::prelude::*;
use vstd::arithmetic::div_mod::lemma_add_mod_noop;
use vstd::utf8::{decode_utf8, encode_utf8, valid_utf8};

verus! {

/// One paired contact observation: two endpoints, each a 1-based chromosome
/// index and a 0-based position in base pairs.
#[derive(Debug, Clone, Copy, PartialEq, Eq, Structural)]
pub struct Pair {
    pub chr1: u8,
    pub pos1: u32,
    pub chr2: u8,
    pub pos2: u32,
}

/// An ASCII decimal digit.
pub open spec fn is_digit(b: u8) -> bool {
    0x30 <= b <= 0x39
}

/// Every byte is an ASCII decimal digit.
pub open spec fn all_digits(s: Seq<u8>) -> bool {
    forall|i: int| 0 <= i < s.len() ==> is_digit(#[trigger] s[i])
}

/// The value of a digit string read left to right, each step wrapping
/// modulo `2^32`.
pub open spec fn parse_u32_wrap(s: Seq<u8>) -> u32
    decreases s.len(),
{
    if s.len() == 0 {
        0u32
    } else {
        ((parse_u32_wrap(s.drop_last()) as int * 10 + (s.last() - 0x30)) % 0x1_0000_0000) as u32
    }
}

/// On digit strings whose value fits `u32`, the wrapping parse is the exact
/// decimal value.
pub proof fn lemma_parse_u32_exact(s: Seq<u8>, value: int)
    requires
        all_digits(s),
        0 <= value <= u32::MAX,
        value == digits_value(s),
    ensures
        parse_u32_wrap(s) == value,
    decreases s.len(),
{
    if s.len() > 0 {
        let prefix = digits_value(s.drop_last());
        lemma_digits_value_nonneg(s.drop_last());
        lemma_parse_u32_exact(s.drop_last(), prefix);
        vstd::arithmetic::div_mod::lemma_small_mod(value as nat, 0x1_0000_0000nat);
    }
}

/// The exact mathematical value of a digit string.
pub open spec fn digits_value(s: Seq<u8>) -> int
    decreases s.len(),
{
    if s.len() == 0 {
        0
    } else {
        digits_value(s.drop_last()) * 10 + (s.last() - 0x30)
    }
}

/// Digit strings denote non-negative values.
pub proof fn lemma_digits_value_nonneg(s: Seq<u8>)
    requires
        all_digits(s),
    ensures
        digits_value(s) >= 0,
    decreases s.len(),
{
    if s.len() > 0 {
        assert(all_digits(s.drop_last()));
        lemma_digits_value_nonneg(s.drop_last());
    }
}

/// Parses an unsigned decimal integer from raw bytes: `None` on an empty
/// string or any non-digit byte; otherwise the digits' value, accumulated
/// with arithmetic that wraps modulo `2^32`.
pub fn parse_u32_fast(s: &[u8]) -> (r: Option<u32>)
    ensures
        r == if s@.len() > 0 && all_digits(s@) {
            Some(parse_u32_wrap(s@))
        } else {
            None::<u32>
        },
{
    let n = s.len();
    if n == 0 {
        return None;
    }
    let mut result: u32 = 0;
    let mut i: usize = 0;
    while i < n
        invariant
            i <= n == s@.len(),
            all_digits(s@.take(i as int)),
            result == parse_u32_wrap(s@.take(i as int)),
        decreases n - i,
    {
        let byte = s[i];
        if byte >= 0x30 && byte <= 0x39 {
            let ghost taken = s@.take(i as int + 1);
            proof {
                assert(taken.drop_last() =~= s@.take(i as int));
                assert(taken.last() == s@[i as int]);
                lemma_add_mod_noop(
                    result as int * 10,
                    (byte - 0x30) as int,
                    0x1_0000_0000,
                );
                vstd::arithmetic::div_mod::lemma_small_mod(
                    (byte - 0x30) as nat,
                    0x1_0000_0000nat,
                );
            }
            result = result.wrapping_mul(10).wrapping_add((byte - 0x30) as u32);
            i = i + 1;
        } else {
            return None;
        }
    }
    proof {
        assert(s@.take(n as int) =~= s@);
    }
    Some(result)
}

/// The built-in hg19 chromosome lengths (chr1–chr22, X, Y), in order.
pub open spec fn default_genome_lengths() -> Seq<u32> {
    seq![
        249250621u32,
        243199373u32,
        198022430u32,
        191154276u32,
        180915260u32,
        171115067u32,
        159138663u32,
        146364022u32,
        141213431u32,
        135534747u32,
        135006516u32,
        133851895u32,
        115169878u32,
        107349540u32,
        102531392u32,
        90354753u32,
        81195210u32,
        78077248u32,
        59128983u32,
        63025520u32,
        48129895u32,
        51304566u32,
        155270560u32,
        59373566u32,
    ]
}

/// The built-in hg19 chromosome lengths as a vector.
pub fn get_default_genome_lengths() -> (r: Vec<u32>)
    ensures
        r@ == default_genome_lengths(),
{
    let mut v: Vec<u32> = Vec::new();
    v.push(249250621);
    v.push(243199373);
    v.push(198022430);
    v.push(191154276);
    v.push(180915260);
    v.push(171115067);
    v.push(159138663);
    v.push(146364022);
    v.push(141213431);
    v.push(135534747);
    v.push(135006516);
    v.push(133851895);
    v.push(115169878);
    v.push(107349540);
    v.push(102531392);
    v.push(90354753);
    v.push(81195210);
    v.push(78077248);
    v.push(59128983);
    v.push(63025520);
    v.push(48129895);
    v.push(51304566);
    v.push(155270560);
    v.push(59373566);
    proof {
        assert(v@ =~= default_genome_lengths());
    }
    v
}

/// Byte-slice equality.
pub fn bytes_eq(a: &[u8], b: &[u8]) -> (r: bool)
    ensures
        r == (a@ == b@),
{
    let n = a.len();
    if n != b.len() {
        proof {
            assert(a@.len() != b@.len());
        }
        return false;
    }
    let mut i: usize = 0;
    while i < n
        invariant
            i <= n == a@.len() == b@.len(),
            forall|q: int| 0 <= q < i ==> a@[q] == b@[q],
        decreases n - i,
    {
        if a[i] != b[i] {
            return false;
        }
        i = i + 1;
    }
    proof {
        assert(a@ =~= b@);
    }
    true
}

/// First matching entry of a name table, scanning in insertion order and
/// comparing the names' UTF-8 bytes.
pub open spec fn assoc_lookup(entries: Seq<(Seq<char>, u8)>, key: Seq<u8>) -> Option<u8>
    decreases entries.len(),
{
    if entries.len() == 0 {
        None
    } else if encode_utf8(entries.first().0) == key {
        Some(entries.first().1)
    } else {
        assoc_lookup(entries.drop_first(), key)
    }
}

/// A compact chromosome-name-to-code table built once from parallel name and
/// code lists; zero-allocation lookups by name bytes, first entry wins.
#[derive(Debug, Clone)]
pub struct FastChrMap {
    names: Vec<String>,
    codes: Vec<u8>,
}

impl FastChrMap {
    /// One name and one code per entry.
    pub closed spec fn wf(self) -> bool {
        self.names@.len() == self.codes@.len()
    }

    /// The table's entries, in insertion order.
    pub closed spec fn entries(self) -> Seq<(Seq<char>, u8)> {
        Seq::new(self.names@.len(), |i: int| (self.names@[i]@, self.codes@[i]))
    }

    /// Builds the table from parallel name and code lists.
    pub fn from_names_codes(names: Vec<String>, codes: Vec<u8>) -> (r: FastChrMap)
        requires
            names@.len() == codes@.len(),
        ensures
            r.wf(),
            r.entries() == Seq::new(names@.len(), |i: int| (names@[i]@, codes@[i])),
    {
        let r = FastChrMap { names, codes };
        proof {
            assert(r.entries() =~= Seq::new(
                r.names@.len(),
                |i: int| (r.names@[i]@, r.codes@[i]),
            ));
        }
        r
    }

    /// Looks a name up by its UTF-8 bytes.
    pub fn get_bytes(&self, key: &[u8]) -> (r: Option<u8>)
        requires
            self.wf(),
        ensures
            r == assoc_lookup(self.entries(), key@),
    {
        let n = self.names.len();
        let mut i: usize = 0;
        proof {
            assert(self.entries().skip(0) =~= self.entries());
        }
        while i < n
            invariant
                i <= n == self.names@.len(),
                self.wf(),
                assoc_lookup(self.entries(), key@) == assoc_lookup(
                    self.entries().skip(i as int),
                    key@,
                ),
            decreases n - i,
        {
            let name: &String = &self.names[i];
            if bytes_eq(name.as_str().as_bytes(), key) {
                proof {
                    let tail = self.entries().skip(i as int);
                    assert(tail.first() == self.entries()[i as int]);
                }
                return Some(self.codes[i]);
            }
            proof {
                let tail = self.entries().skip(i as int);
                assert(tail.first() == self.entries()[i as int]);
                assert(tail.drop_first() =~= self.entries().skip(i as int + 1));
            }
            i = i + 1;
        }
        proof {
            assert(self.entries().skip(n as int) =~= Seq::<(Seq<char>, u8)>::empty());
        }
        None
    }

    /// Looks a name up.
    pub fn get(&self, key: &str) -> (r: Option<u8>)
        requires
            self.wf(),
        ensures
            r == assoc_lookup(self.entries(), encode_utf8(key@)),
    {
        self.get_bytes(key.as_bytes())
    }
}


/// The view of parallel name and code lists as a table.
pub open spec fn zip_entries(names: Seq<String>, codes: Seq<u8>) -> Seq<(Seq<char>, u8)> {
    Seq::new(names.len(), |i: int| (names[i]@, codes[i]))
}

/// The built-in human chromosome table: names 1–22 with codes 1–22, X and Y
/// with codes 23 and 24, the numeric aliases 23 and 24, and every name again
/// with a `chr` prefix.
pub open spec fn default_chr_entries() -> Seq<(Seq<char>, u8)> {
    seq![
        ("1"@, 1u8),
        ("chr1"@, 1u8),
        ("2"@, 2u8),
        ("chr2"@, 2u8),
        ("3"@, 3u8),
        ("chr3"@, 3u8),
        ("4"@, 4u8),
        ("chr4"@, 4u8),
        ("5"@, 5u8),
        ("chr5"@, 5u8),
        ("6"@, 6u8),
        ("chr6"@, 6u8),
        ("7"@, 7u8),
        ("chr7"@, 7u8),
        ("8"@, 8u8),
        ("chr8"@, 8u8),
        ("9"@, 9u8),
        ("chr9"@, 9u8),
        ("10"@, 10u8),
        ("chr10"@, 10u8),
        ("11"@, 11u8),
        ("chr11"@, 11u8),
        ("12"@, 12u8),
        ("chr12"@, 12u8),
        ("13"@, 13u8),
        ("chr13"@, 13u8),
        ("14"@, 14u8),
        ("chr14"@, 14u8),
        ("15"@, 15u8),
        ("chr15"@, 15u8),
        ("16"@, 16u8),
        ("chr16"@, 16u8),
        ("17"@, 17u8),
        ("chr17"@, 17u8),
        ("18"@, 18u8),
        ("chr18"@, 18u8),
        ("19"@, 19u8),
        ("chr19"@, 19u8),
        ("20"@, 20u8),
        ("chr20"@, 20u8),
        ("21"@, 21u8),
        ("chr21"@, 21u8),
        ("22"@, 22u8),
        ("chr22"@, 22u8),
        ("X"@, 23u8),
        ("chrX"@, 23u8),
        ("Y"@, 24u8),
        ("chrY"@, 24u8),
        ("23"@, 23u8),
        ("chr23"@, 23u8),
        ("24"@, 24u8),
        ("chr24"@, 24u8),
    ]
}

/// A name table folded into a map, later entries winning.
pub open spec fn map_of_entries(entries: Seq<(Seq<char>, u8)>) -> Map<Seq<char>, u8>
    decreases entries.len(),
{
    if entries.len() == 0 {
        Map::empty()
    } else {
        map_of_entries(entries.drop_last()).insert(entries.last().0, entries.last().1)
    }
}

/// The built-in table as parallel name and code lists.
fn default_names_codes() -> (r: (Vec<String>, Vec<u8>))
    ensures
        r.0@.len() == r.1@.len(),
        zip_entries(r.0@, r.1@) == default_chr_entries(),
{
    let mut names: Vec<String> = Vec::new();
    let mut codes: Vec<u8> = Vec::new();
    names.push("1".to_owned());
    codes.push(1);
    names.push("chr1".to_owned());
    codes.push(1);
    names.push("2".to_owned());
    codes.push(2);
    names.push("chr2".to_owned());
    codes.push(2);
    names.push("3".to_owned());
    codes.push(3);
    names.push("chr3".to_owned());
    codes.push(3);
    names.push("4".to_owned());
    codes.push(4);
    names.push("chr4".to_owned());
    codes.push(4);
    names.push("5".to_owned());
    codes.push(5);
    names.push("chr5".to_owned());
    codes.push(5);
    names.push("6".to_owned());
    codes.push(6);
    names.push("chr6".to_owned());
    codes.push(6);
    names.push("7".to_owned());
    codes.push(7);
    names.push("chr7".to_owned());
    codes.push(7);
    names.push("8".to_owned());
    codes.push(8);
    names.push("chr8".to_owned());
    codes.push(8);
    names.push("9".to_owned());
    codes.push(9);
    names.push("chr9".to_owned());
    codes.push(9);
    names.push("10".to_owned());
    codes.push(10);
    names.push("chr10".to_owned());
    codes.push(10);
    names.push("11".to_owned());
    codes.push(11);
    names.push("chr11".to_owned());
    codes.push(11);
    names.push("12".to_owned());
    codes.push(12);
    names.push("chr12".to_owned());
    codes.push(12);
    names.push("13".to_owned());
    codes.push(13);
    names.push("chr13".to_owned());
    codes.push(13);
    names.push("14".to_owned());
    codes.push(14);
    names.push("chr14".to_owned());
    codes.push(14);
    names.push("15".to_owned());
    codes.push(15);
    names.push("chr15".to_owned());
    codes.push(15);
    names.push("16".to_owned());
    codes.push(16);
    names.push("chr16".to_owned());
    codes.push(16);
    names.push("17".to_owned());
    codes.push(17);
    names.push("chr17".to_owned());
    codes.push(17);
    names.push("18".to_owned());
    codes.push(18);
    names.push("chr18".to_owned());
    codes.push(18);
    names.push("19".to_owned());
    codes.push(19);
    names.push("chr19".to_owned());
    codes.push(19);
    names.push("20".to_owned());
    codes.push(20);
    names.push("chr20".to_owned());
    codes.push(20);
    names.push("21".to_owned());
    codes.push(21);
    names.push("chr21".to_owned());
    codes.push(21);
    names.push("22".to_owned());
    codes.push(22);
    names.push("chr22".to_owned());
    codes.push(22);
    names.push("X".to_owned());
    codes.push(23);
    names.push("chrX".to_owned());
    codes.push(23);
    names.push("Y".to_owned());
    codes.push(24);
    names.push("chrY".to_owned());
    codes.push(24);
    names.push("23".to_owned());
    codes.push(23);
    names.push("chr23".to_owned());
    codes.push(23);
    names.push("24".to_owned());
    codes.push(24);
    names.push("chr24".to_owned());
    codes.push(24);
    proof {
        assert(zip_entries(names@, codes@) =~~= default_chr_entries());
    }
    (names, codes)
}

/// The built-in human chromosome lookup table.
pub fn fast_map_from_default() -> (r: FastChrMap)
    ensures
        r.wf(),
        r.entries() == default_chr_entries(),
{
    let (names, codes) = default_names_codes();
    let ghost ns = names@;
    let ghost cs = codes@;
    let r = FastChrMap::from_names_codes(names, codes);
    proof {
        assert(r.entries() =~~= zip_entries(ns, cs));
    }
    r
}

/// Chromosome-name-to-code map backed by `rustc_hash::FxHashMap`, a
/// `std::collections::HashMap` with a fast deterministic hasher.
#[verifier::external_body]
pub struct ChrMap {
    table: rustc_hash::FxHashMap<String, u8>,
}

/// What the map holds: its name-to-code associations.
pub uninterp spec fn chr_map_entries(m: ChrMap) -> Map<Seq<char>, u8>;

/// The empty name-to-code association.
pub open spec fn empty_chr_entries() -> Map<Seq<char>, u8> {
    Map::empty()
}

/// Relies on `FxHashMap::default` (a `HashMap` constructor): the new map is
/// empty.
#[verifier::external_body]
pub fn chr_map_new() -> (r: ChrMap)
    ensures
        chr_map_entries(r) == empty_chr_entries(),
{
    ChrMap { table: rustc_hash::FxHashMap::default() }
}

/// Relies on `HashMap::insert`: afterwards the map associates `code` with
/// `name` and is otherwise unchanged.
#[verifier::external_body]
pub fn chr_map_insert(m: &mut ChrMap, name: String, code: u8)
    ensures
        chr_map_entries(*final(m)) == chr_map_entries(*old(m)).insert(name@, code),
{
    m.table.insert(name, code);
}

/// Relies on `HashMap::get`: returns the code associated with the name, if
/// any.
#[verifier::external_body]
pub fn chr_map_get(m: &ChrMap, name: &str) -> (r: Option<u8>)
    ensures
        r == if chr_map_entries(*m).dom().contains(name@) {
            Some(chr_map_entries(*m)[name@])
        } else {
            None::<u8>
        },
{
    m.table.get(name).copied()
}

/// The built-in human chromosome map.
pub fn create_default_chr_map() -> (r: ChrMap)
    ensures
        chr_map_entries(r) == map_of_entries(default_chr_entries()),
{
    let (names, codes) = default_names_codes();
    let mut m = chr_map_new();
    let n = names.len();
    let mut i: usize = 0;
    while i < n
        invariant
            i <= n == names@.len() == codes@.len(),
            zip_entries(names@, codes@) == default_chr_entries(),
            chr_map_entries(m) == map_of_entries(default_chr_entries().take(i as int)),
        decreases n - i,
    {
        let ghost taken = default_chr_entries().take(i as int + 1);
        proof {
            assert(taken.drop_last() =~= default_chr_entries().take(i as int));
            assert(taken.last() == zip_entries(names@, codes@)[i as int]);
        }
        let name: String = names[i].as_str().to_owned();
        chr_map_insert(&mut m, name, codes[i]);
        i = i + 1;
    }
    proof {
        assert(default_chr_entries().take(n as int) =~= default_chr_entries());
    }
    m
}

/// Relies on `std::str::from_utf8`: succeeds exactly on valid UTF-8 and
/// returns the string whose characters decode those bytes.
#[verifier::external_body]
pub(crate) fn bytes_to_str(s: &[u8]) -> (r: Option<&str>)
    ensures
        r is Some <==> valid_utf8(s@),
        r is Some ==> r->Some_0@ == decode_utf8(s@),
{
    std::str::from_utf8(s).ok()
}

/// Looks raw name bytes up in a chromosome map: `None` when the bytes are
/// not valid UTF-8 or the name is absent.
pub fn parse_chr(s: &[u8], chr_map: &ChrMap) -> (r: Option<u8>)
    ensures
        r == if valid_utf8(s@) && chr_map_entries(*chr_map).dom().contains(decode_utf8(s@)) {
            Some(chr_map_entries(*chr_map)[decode_utf8(s@)])
        } else {
            None::<u8>
        },
{
    match bytes_to_str(s) {
        Some(name) => chr_map_get(chr_map, name),
        None => None,
    }
}

} // verus!
