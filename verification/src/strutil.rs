//! Small helpers shared across the crate: ASCII string construction and
//! big-endian 32-bit integer framing.

use vstd::prelude::*;
use vstd::string::{StrSliceExecFns, StringSliceAdditionalSpecFns};

verus! {

/// All bytes of the sequence are ASCII.
pub open spec fn ascii_bytes(s: Seq<u8>) -> bool {
    forall|i: int| 0 <= i < s.len() ==> s[i] < 128
}

/// The character sequence obtained by reading each byte as one character.
pub open spec fn chars_of_bytes(s: Seq<u8>) -> Seq<char> {
    s.map_values(|b: u8| b as char)
}

/// The byte sequence obtained by reading each character as one byte
/// (meaningful for ASCII strings only).
pub open spec fn bytes_of_chars(s: Seq<char>) -> Seq<u8> {
    s.map_values(|c: char| c as u8)
}

/// An ASCII-only string: every character is below 128.
pub open spec fn ascii_str(s: Seq<char>) -> bool {
    vstd::utf8::is_ascii_chars(s)
}

/// Relies on String::from_utf8: a buffer of ASCII bytes decodes to the
/// string whose characters are exactly those bytes.
#[verifier::external_body]
pub fn string_from_ascii(bytes: &Vec<u8>) -> (r: String)
    requires
        ascii_bytes(bytes@),
    ensures
        r@ == chars_of_bytes(bytes@),
        r.is_ascii(),
{
    String::from_utf8(bytes.clone()).unwrap_or_default()
}

/// The value of four bytes read as a big-endian 32-bit integer.
pub open spec fn be32(b0: u8, b1: u8, b2: u8, b3: u8) -> u32 {
    (b0 as u32 * 0x1000000 + b1 as u32 * 0x10000 + b2 as u32 * 0x100 + b3 as u32) as u32
}

/// The four big-endian bytes of a 32-bit integer, most significant first.
pub open spec fn be_bytes_of_u32(x: u32) -> Seq<u8> {
    seq![
        (x >> 24) as u8,
        ((x >> 16) & 0xff) as u8,
        ((x >> 8) & 0xff) as u8,
        (x & 0xff) as u8,
    ]
}

pub proof fn lemma_be32_of_bytes(x: u32)
    ensures
        be32(
            be_bytes_of_u32(x)[0],
            be_bytes_of_u32(x)[1],
            be_bytes_of_u32(x)[2],
            be_bytes_of_u32(x)[3],
        ) == x,
{
    assert((x >> 24) as u8 as u32 * 0x1000000 + ((x >> 16) & 0xff) as u8 as u32 * 0x10000 + ((x
        >> 8) & 0xff) as u8 as u32 * 0x100 + (x & 0xff) as u8 as u32 == x) by (bit_vector);
}

/// Reads four big-endian bytes as a 32-bit integer.
pub fn u32_from_be(b0: u8, b1: u8, b2: u8, b3: u8) -> (r: u32)
    ensures
        r == be32(b0, b1, b2, b3),
{
    b0 as u32 * 0x1000000 + b1 as u32 * 0x10000 + b2 as u32 * 0x100 + b3 as u32
}

/// Appends the four big-endian bytes of a 32-bit integer to a buffer.
pub fn push_u32_be(buf: &mut Vec<u8>, x: u32)
    ensures
        final(buf)@ == old(buf)@ + be_bytes_of_u32(x),
{
    buf.push((x >> 24) as u8);
    buf.push(((x >> 16) & 0xff) as u8);
    buf.push(((x >> 8) & 0xff) as u8);
    buf.push((x & 0xff) as u8);
    assert(buf@ =~= old(buf)@ + be_bytes_of_u32(x));
}


/// The big-endian bytes of a value below 256 are three zeros and the value.
pub proof fn lemma_be_small(x: u32)
    requires
        x < 256,
    ensures
        be_bytes_of_u32(x) == seq![0u8, 0u8, 0u8, x as u8],
{
    assert(x < 256 ==> (x >> 24) == 0 && ((x >> 16) & 0xff) == 0 && ((x >> 8) & 0xff) == 0 && (x
        & 0xff) == x) by (bit_vector);
    assert(be_bytes_of_u32(x) =~= seq![0u8, 0u8, 0u8, x as u8]);
}



/// For an ASCII byte sequence, reading the bytes as characters and back
/// gives the bytes again, and the characters are ASCII.
pub proof fn lemma_bytes_chars_roundtrip(bytes: Seq<u8>)
    requires
        ascii_bytes(bytes),
    ensures
        bytes_of_chars(chars_of_bytes(bytes)) == bytes,
        ascii_str(chars_of_bytes(bytes)),
{
    assert(bytes_of_chars(chars_of_bytes(bytes)) =~= bytes);
    assert forall|i: int| 0 <= i < chars_of_bytes(bytes).len() implies '\0'
        <= #[trigger] chars_of_bytes(bytes)[i] <= '\u{7f}' by {
        assert(chars_of_bytes(bytes)[i] == bytes[i] as char);
    }
}

/// For an ASCII character sequence, reading the characters as bytes and
/// back gives the characters again, and the bytes are ASCII.
pub proof fn lemma_chars_bytes_roundtrip(chars: Seq<char>)
    requires
        ascii_str(chars),
    ensures
        ascii_bytes(bytes_of_chars(chars)),
        chars_of_bytes(bytes_of_chars(chars)) == chars,
{
    assert forall|i: int| 0 <= i < bytes_of_chars(chars).len() implies #[trigger] bytes_of_chars(
        chars,
    )[i] < 128 by {
        assert('\0' <= chars[i] <= '\u{7f}');
        assert(bytes_of_chars(chars)[i] == chars[i] as u8);
    }
    assert(chars_of_bytes(bytes_of_chars(chars)) =~= chars) by {
        assert forall|i: int| 0 <= i < chars.len() implies chars_of_bytes(bytes_of_chars(chars))[i]
            == chars[i] by {
            assert('\0' <= chars[i] <= '\u{7f}');
            assert(bytes_of_chars(chars)[i] == chars[i] as u8);
        }
    }
}



/// Whether two buffers hold the same bytes.
pub fn eq_bytes(a: &Vec<u8>, b: &Vec<u8>) -> (r: bool)
    ensures
        r == (a@ == b@),
{
    if a.len() != b.len() {
        proof {
            assert(a@ != b@);
        }
        return false;
    }
    let mut k: usize = 0;
    while k < a.len()
        invariant
            k <= a@.len(),
            a@.len() == b@.len(),
            forall|i: int| 0 <= i < k ==> a@[i] == b@[i],
        decreases a@.len() - k,
    {
        if a[k] != b[k] {
            proof {
                assert(a@ != b@);
            }
            return false;
        }
        k += 1;
    }
    proof {
        assert(a@ =~= b@);
    }
    true
}

/// Whether two strings hold the same characters.
pub fn str_eq(a: &str, b: &str) -> (r: bool)
    ensures
        r == (a@ == b@),
{
    let av = a.as_bytes_vec();
    let bv = b.as_bytes_vec();
    let e = eq_bytes(&av, &bv);
    proof {
        broadcast use vstd::utf8::encode_utf8_decode_utf8;

        if e {
            assert(vstd::utf8::encode_utf8(a@) == vstd::utf8::encode_utf8(b@));
            assert(vstd::utf8::decode_utf8(vstd::utf8::encode_utf8(a@)) == a@);
            assert(vstd::utf8::decode_utf8(vstd::utf8::encode_utf8(b@)) == b@);
        }
    }
    e
}



/// Copies a byte range out of a buffer.
pub fn copy_bytes_range(s: &Vec<u8>, from: usize, to: usize) -> (r: Vec<u8>)
    requires
        from <= to <= s@.len(),
    ensures
        r@ == s@.subrange(from as int, to as int),
{
    let mut out: Vec<u8> = Vec::new();
    let mut k: usize = from;
    while k < to
        invariant
            from <= k <= to <= s@.len(),
            out@ == s@.subrange(from as int, k as int),
        decreases to - k,
    {
        out.push(s[k]);
        assert(out@ =~= s@.subrange(from as int, k as int + 1));
        k += 1;
    }
    out
}



/// For ASCII text the UTF-8 encoding is the characters read as bytes.
pub proof fn lemma_ascii_encode(chars: Seq<char>)
    requires
        ascii_str(chars),
    ensures
        vstd::utf8::encode_utf8(chars) == bytes_of_chars(chars),
{
    broadcast use vstd::utf8::is_ascii_chars_encode_utf8;

    assert(vstd::utf8::encode_utf8(chars) =~= bytes_of_chars(chars));
}


} // verus!
