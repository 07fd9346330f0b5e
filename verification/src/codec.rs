//! Little-endian integer and C-string decoding for the binary
//! contact-matrix file format.

use vstd::prelude::*;
use vstd::slice::slice_subrange;
use vstd::utf8::{decode_utf8, valid_utf8};
use crate::lines::{first_index, lemma_first_index_props};

verus! {

/// The unsigned value of a little-endian byte string.
pub open spec fn le_value(s: Seq<u8>) -> int
    decreases s.len(),
{
    if s.len() == 0 {
        0
    } else {
        s.first() + 256 * le_value(s.drop_first())
    }
}

/// A 16-bit unsigned value reinterpreted as two's-complement.
pub open spec fn signed16(v: int) -> int {
    if v < 0x8000 {
        v
    } else {
        v - 0x1_0000
    }
}

/// A 32-bit unsigned value reinterpreted as two's-complement.
pub open spec fn signed32(v: int) -> int {
    if v < 0x8000_0000 {
        v
    } else {
        v - 0x1_0000_0000
    }
}

/// A 64-bit unsigned value reinterpreted as two's-complement.
pub open spec fn signed64(v: int) -> int {
    if v < 0x8000_0000_0000_0000 {
        v
    } else {
        v - 0x1_0000_0000_0000_0000
    }
}

/// Reads the byte at the front of a buffer.
pub fn read_u8(b: &[u8]) -> (r: u8)
    requires
        b@.len() >= 1,
    ensures
        r == b@[0],
{
    b[0]
}

/// `256^n`, the number of values `n` bytes can take.
pub open spec fn pow256(n: int) -> int
    decreases n,
{
    if n <= 0 {
        1
    } else {
        256 * pow256(n - 1)
    }
}

/// `pow256` grows with its argument.
proof fn lemma_pow256_le(m: int, n: int)
    requires
        0 <= m <= n,
    ensures
        1 <= pow256(m) <= pow256(n),
    decreases n,
{
    if n > 0 {
        if m == n {
            lemma_pow256_le(0, n - 1);
        } else {
            lemma_pow256_le(m, n - 1);
        }
    }
}

/// A little-endian value is non-negative and below `256^len`.
proof fn lemma_le_value_bound(s: Seq<u8>)
    ensures
        0 <= le_value(s) < pow256(s.len() as int),
    decreases s.len(),
{
    if s.len() > 0 {
        lemma_le_value_bound(s.drop_first());
    }
}

/// Accumulates the little-endian value of the first `width` bytes.
fn le_acc(b: &[u8], width: usize) -> (r: u64)
    requires
        1 <= width <= 8,
        b@.len() >= width,
    ensures
        r == le_value(b@.take(width as int)),
{
    let mut r: u64 = 0;
    let mut i = width;
    proof {
        assert(b@.take(width as int).skip(width as int) =~= Seq::<u8>::empty());
        assert(pow256(0) == 1);
        assert(pow256(1) == 256);
        assert(pow256(2) == 0x1_0000);
        assert(pow256(3) == 0x100_0000);
        assert(pow256(4) == 0x1_0000_0000);
        assert(pow256(5) == 0x100_0000_0000);
        assert(pow256(6) == 0x1_0000_0000_0000);
        assert(pow256(7) == 0x100_0000_0000_0000);
        assert(pow256(8) == 0x1_0000_0000_0000_0000);
    }
    while i > 0
        invariant
            i <= width <= 8,
            b@.len() >= width,
            r == le_value(b@.take(width as int).skip(i as int)),
            r < pow256(width - i),
            pow256(8) == 0x1_0000_0000_0000_0000,
        decreases i,
    {
        proof {
            let tail = b@.take(width as int).skip(i as int - 1);
            assert(tail.first() == b@[i as int - 1]);
            assert(tail.drop_first() =~= b@.take(width as int).skip(i as int));
            lemma_pow256_le(width - i, 7);
            lemma_pow256_le(width - i + 1, 8);
            assert(pow256(width - i + 1) == 256 * pow256(width - i));
        }
        r = r * 256 + b[i - 1] as u64;
        i = i - 1;
    }
    proof {
        assert(b@.take(width as int).skip(0) =~= b@.take(width as int));
    }
    r
}

/// Reads a little-endian signed 16-bit integer from the front of a buffer.
pub fn read_i16(b: &[u8]) -> (r: i16)
    requires
        b@.len() >= 2,
    ensures
        r == signed16(le_value(b@.take(2))),
{
    proof {
        lemma_le_value_bound(b@.take(2));
        assert(pow256(2) == 0x1_0000) by {
            assert(pow256(0) == 1);
            assert(pow256(1) == 256);
        }
    }
    let v: u64 = le_acc(b, 2);
    if v < 0x8000 {
        v as i16
    } else {
        (v - 0x8000) as i16 + i16::MIN
    }
}

/// Reads a little-endian signed 32-bit integer from the front of a buffer.
pub fn read_i32(b: &[u8]) -> (r: i32)
    requires
        b@.len() >= 4,
    ensures
        r == signed32(le_value(b@.take(4))),
{
    proof {
        lemma_le_value_bound(b@.take(4));
        assert(pow256(4) == 0x1_0000_0000) by {
            assert(pow256(0) == 1);
            assert(pow256(1) == 256);
            assert(pow256(2) == 0x1_0000);
            assert(pow256(3) == 0x100_0000);
        }
    }
    let v: u64 = le_acc(b, 4);
    if v < 0x8000_0000 {
        v as i32
    } else {
        (v - 0x8000_0000) as i32 + i32::MIN
    }
}

/// Reads a little-endian signed 64-bit integer from the front of a buffer.
pub fn read_i64(b: &[u8]) -> (r: i64)
    requires
        b@.len() >= 8,
    ensures
        r == signed64(le_value(b@.take(8))),
{
    let v: u64 = le_acc(b, 8);
    if v < 0x8000_0000_0000_0000 {
        v as i64
    } else {
        (v - 0x8000_0000_0000_0000) as i64 + i64::MIN
    }
}

/// Reads a NUL-terminated string from the front of a buffer: the characters
/// decoding the bytes before the first NUL (an empty string when they are
/// not valid UTF-8, mirroring a lossy decode's fallback), and the number of
/// bytes consumed including the NUL. `None` when the buffer holds no NUL.
pub fn read_cstring(b: &[u8]) -> (r: Option<(String, usize)>)
    ensures
        ({
            let i = first_index(b@, 0);
            &&& r is Some <==> i < b@.len()
            &&& r matches Some(out) ==> {
                &&& out.1 == i + 1
                &&& out.0@ == if valid_utf8(b@.take(i)) {
                    decode_utf8(b@.take(i))
                } else {
                    Seq::<char>::empty()
                }
            }
        }),
{
    let n = b.len();
    let mut i: usize = 0;
    while i < n && b[i] != 0
        invariant
            i <= n == b@.len(),
            forall|q: int| 0 <= q < i ==> b@[q] != 0,
        decreases n - i,
    {
        i = i + 1;
    }
    proof {
        lemma_first_index_props(b@, 0);
        if first_index(b@, 0) < i {
            assert(b@[first_index(b@, 0)] != 0);
        } else if i < first_index(b@, 0) && i < n {
            assert(b@[i as int] != 0);
        }
        assert(first_index(b@, 0) == i as int || (i == n && first_index(b@, 0) >= n));
    }
    if i >= n {
        return None;
    }
    let prefix = slice_subrange(b, 0, i);
    proof {
        assert(prefix@ =~= b@.take(i as int));
    }
    let s: String = match crate::utils::bytes_to_str(prefix) {
        Some(p) => p.to_owned(),
        None => String::new(),
    };
    Some((s, i + 1))
}

/// Whether a decoded file tag begins with the characters `HIC`.
pub open spec fn spec_is_hic_magic(s: Seq<char>) -> bool {
    s.len() >= 3 && s[0] == 'H' && s[1] == 'I' && s[2] == 'C'
}

/// Reads the NUL-terminated magic tag from the front of a file buffer and
/// checks that it begins with `HIC`; returns the verdict and the bytes
/// consumed.
pub fn read_magic(b: &[u8]) -> (r: Option<(bool, usize)>)
    ensures
        ({
            let i = first_index(b@, 0);
            let tag = if valid_utf8(b@.take(i)) {
                decode_utf8(b@.take(i))
            } else {
                Seq::<char>::empty()
            };
            &&& r is Some <==> i < b@.len()
            &&& r matches Some(out) ==> out.0 == spec_is_hic_magic(tag) && out.1 == i + 1
        }),
{
    match read_cstring(b) {
        Some(out) => {
            let (s, used) = out;
            let tag = s.as_str();
            let ok = if tag.unicode_len() >= 3 {
                let c0 = tag.get_char(0);
                let c1 = tag.get_char(1);
                let c2 = tag.get_char(2);
                c0 == 'H' && c1 == 'I' && c2 == 'C'
            } else {
                false
            };
            Some((ok, used))
        },
        None => None,
    }
}

} // verus!
