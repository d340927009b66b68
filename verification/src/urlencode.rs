//! URL-encoding of raw bytes: unreserved characters pass through, every
//! other byte becomes a percent sign and two lowercase hex digits.

use vstd::prelude::*;

use crate::bencode::DecodingError;
use crate::strutil::{ascii_bytes, chars_of_bytes, string_from_ascii};

verus! {

/// Bytes that pass through unencoded: letters, digits, and `-_.,~`.
pub open spec fn url_unreserved(b: u8) -> bool {
    (65 <= b <= 90) || (97 <= b <= 122) || (48 <= b <= 57) || b == 45 || b == 95 || b == 46 || b
        == 44 || b == 126
}

/// The lowercase hex digit for a value below 16.
pub open spec fn hex_digit(n: int) -> u8 {
    if n < 10 {
        (48 + n) as u8
    } else {
        (87 + n) as u8
    }
}

/// The URL-encoding of one byte.
pub open spec fn urlencode_byte(b: u8) -> Seq<u8> {
    if url_unreserved(b) {
        seq![b]
    } else {
        seq![37u8, hex_digit(b as int / 16), hex_digit(b as int % 16)]
    }
}

/// The URL-encoding of a byte sequence, byte by byte in order.
pub open spec fn urlencode_bytes(s: Seq<u8>) -> Seq<u8>
    decreases s.len(),
{
    if s.len() == 0 {
        Seq::empty()
    } else {
        urlencode_bytes(s.drop_last()) + urlencode_byte(s.last())
    }
}

pub struct URLEncoder;

impl URLEncoder {
    /// URL-encodes raw bytes: unreserved characters stay, every other
    /// byte becomes `%` and two lowercase hex digits.
    pub fn urlencode(&self, string: Vec<u8>) -> (r: Result<String, DecodingError>)
        ensures
            r is Ok,
            r->Ok_0@ == chars_of_bytes(urlencode_bytes(string@)),
    {
        let mut out: Vec<u8> = Vec::new();
        let mut k: usize = 0;
        while k < string.len()
            invariant
                k <= string@.len(),
                out@ == urlencode_bytes(string@.take(k as int)),
                ascii_bytes(out@),
            decreases string@.len() - k,
        {
            let b = string[k];
            let ghost pre = out@;
            if (65 <= b && b <= 90) || (97 <= b && b <= 122) || (48 <= b && b <= 57) || b == 45
                || b == 95 || b == 46 || b == 44 || b == 126 {
                out.push(b);
            } else {
                out.push(37);
                let hi = b / 16;
                let lo = b % 16;
                out.push(
                    if hi < 10 {
                        48 + hi
                    } else {
                        87 + hi
                    },
                );
                out.push(
                    if lo < 10 {
                        48 + lo
                    } else {
                        87 + lo
                    },
                );
            }
            proof {
                let t1 = string@.take(k as int + 1);
                assert(t1.drop_last() =~= string@.take(k as int));
                assert(t1.last() == b);
                assert(out@ =~= pre + urlencode_byte(b));
            }
            k += 1;
        }
        proof {
            assert(string@.take(string@.len() as int) =~= string@);
        }
        Ok(string_from_ascii(&out))
    }
}


/// URL-encoded text is ASCII: unreserved bytes are ASCII and escapes use
/// the percent sign and hex digits.
pub proof fn lemma_urlencode_ascii(s: Seq<u8>)
    ensures
        ascii_bytes(urlencode_bytes(s)),
    decreases s.len(),
{
    if s.len() > 0 {
        lemma_urlencode_ascii(s.drop_last());
        let whole = urlencode_bytes(s);
        let pre = urlencode_bytes(s.drop_last());
        let enc = urlencode_byte(s.last());
        assert forall|i: int| 0 <= i < whole.len() implies #[trigger] whole[i] < 128 by {
            if i < pre.len() {
                assert(whole[i] == pre[i]);
            } else {
                assert(whole[i] == enc[i - pre.len()]);
            }
        }
    }
}


} // verus!
