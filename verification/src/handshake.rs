//! The 68-byte session preamble: protocol byte, the literal protocol name,
//! eight reserved zero bytes, the 20-byte info-hash and the 20-byte peer id.

use vstd::prelude::*;

use crate::messages::PeerProtocolError;
use crate::strutil::{ascii_bytes, ascii_str, bytes_of_chars, chars_of_bytes, string_from_ascii};
use vstd::string::{StrSliceExecFns, StringSliceAdditionalSpecFns};

verus! {

/// The handshake fields.
#[derive(Debug)]
pub struct Handshake {
    pub len: u8,
    pub pstr: String,
    pub reserved: Vec<u8>,
    pub info_hash: Vec<u8>,
    pub peer_id: String,
}

/// A handshake in the shape the wire requires: a 19-character ASCII
/// protocol name, 8 reserved bytes, a 20-byte info-hash and a 20-character
/// ASCII peer id.
pub open spec fn hs_wf(h: Handshake) -> bool {
    &&& ascii_str(h.pstr@)
    &&& h.pstr@.len() == 19
    &&& h.reserved@.len() == 8
    &&& h.info_hash@.len() == 20
    &&& ascii_str(h.peer_id@)
    &&& h.peer_id@.len() == 20
}

/// The 68 bytes of a handshake.
pub open spec fn handshake_bytes(h: Handshake) -> Seq<u8> {
    seq![h.len] + bytes_of_chars(h.pstr@) + h.reserved@ + h.info_hash@ + bytes_of_chars(h.peer_id@)
}

impl Handshake {
    /// A handshake for the given info-hash and peer id: the protocol name
    /// length, the literal protocol name, and zeroed reserved bytes.
    pub fn new(info_hash: Vec<u8>, peer_id: String) -> (r: Handshake)
        ensures
            r.len == 19,
            r.pstr@ == "BitTorrent protocol"@,
            r.reserved@ == Seq::new(8, |i: int| 0u8),
            r.info_hash@ == info_hash@,
            r.peer_id@ == peer_id@,
    {
        let reserved = vec![0u8; 8];
        assert(reserved@ =~= Seq::new(8, |i: int| 0u8));
        Handshake {
            len: 19,
            pstr: String::from_str("BitTorrent protocol"),
            reserved,
            info_hash,
            peer_id,
        }
    }

    /// The handshake as the 68 wire bytes.
    pub fn as_bytes(&self) -> (r: Vec<u8>)
        requires
            ascii_str(self.pstr@),
            ascii_str(self.peer_id@),
        ensures
            r@ == handshake_bytes(*self),
    {
        let pstr_str = self.pstr.as_str();
        let id_str = self.peer_id.as_str();
        proof {
            broadcast use vstd::string::is_ascii_spec_bytes;

            assert(pstr_str.is_ascii());
            assert(id_str.is_ascii());
        }
        let mut vec: Vec<u8> = vec![self.len];
        let mut pstr_bytes = pstr_str.as_bytes_vec();
        assert(pstr_bytes@ =~= bytes_of_chars(self.pstr@));
        vec.append(&mut pstr_bytes);
        let mut reserved = self.reserved.clone();
        vec.append(&mut reserved);
        let mut hash = self.info_hash.clone();
        vec.append(&mut hash);
        let mut id_bytes = id_str.as_bytes_vec();
        assert(id_bytes@ =~= bytes_of_chars(self.peer_id@));
        vec.append(&mut id_bytes);
        assert(vec@ =~= handshake_bytes(*self));
        vec
    }

    /// Reads a handshake back from its 68 wire bytes. A protocol name
    /// that is not ASCII text is rejected; non-ASCII bytes of the peer id
    /// are replaced, as the id is informational only.
    #[verifier::loop_isolation(false)]
    pub fn from_bytes(message: Vec<u8>) -> (r: Result<Handshake, PeerProtocolError>)
        requires
            message@.len() == 68,
        ensures
            match r {
                Ok(h) => {
                    &&& ascii_bytes(message@.subrange(1, 20))
                    &&& h.len == message@[0]
                    &&& h.pstr@ == chars_of_bytes(message@.subrange(1, 20))
                    &&& h.reserved@ == message@.subrange(20, 28)
                    &&& h.info_hash@ == message@.subrange(28, 48)
                    &&& ascii_bytes(message@.subrange(48, 68)) ==> h.peer_id@ == chars_of_bytes(
                        message@.subrange(48, 68),
                    )
                    &&& h.peer_id@.len() == 20
                    &&& ascii_str(h.peer_id@)
                    &&& ascii_str(h.pstr@)
                },
                Err(e) => !ascii_bytes(message@.subrange(1, 20)) && e
                    == PeerProtocolError::HandshakeInvalidUTF8CharError,
            },
    {
        let len = message[0];
        let pstr_bytes = copy_out(&message, 1, 20);
        let mut k: usize = 0;
        while k < pstr_bytes.len()
            invariant
                k <= pstr_bytes@.len(),
                forall|i: int| 0 <= i < k ==> pstr_bytes@[i] < 128,
            decreases pstr_bytes@.len() - k,
        {
            if pstr_bytes[k] >= 128 {
                assert(!ascii_bytes(message@.subrange(1, 20))) by {
                    assert(message@.subrange(1, 20)[k as int] >= 128);
                }
                return Err(PeerProtocolError::HandshakeInvalidUTF8CharError);
            }
            k += 1;
        }
        assert(ascii_bytes(pstr_bytes@));
        let pstr = string_from_ascii(&pstr_bytes);
        let reserved = copy_out(&message, 20, 28);
        let info_hash = copy_out(&message, 28, 48);
        let raw_id = copy_out(&message, 48, 68);
        let mut id_bytes: Vec<u8> = Vec::new();
        let mut k2: usize = 0;
        while k2 < raw_id.len()
            invariant
                k2 <= raw_id@.len(),
                id_bytes@.len() == k2,
                forall|i: int|
                    0 <= i < k2 ==> #[trigger] id_bytes@[i] == (if raw_id@[i] < 128 {
                        raw_id@[i]
                    } else {
                        63u8
                    }),
            decreases raw_id@.len() - k2,
        {
            let b = raw_id[k2];
            id_bytes.push(
                if b < 128 {
                    b
                } else {
                    63
                },
            );
            k2 += 1;
        }
        assert(ascii_bytes(id_bytes@));
        let peer_id = string_from_ascii(&id_bytes);
        proof {
            if ascii_bytes(message@.subrange(48, 68)) {
                assert(id_bytes@ =~= raw_id@);
            }
        }
        Ok(Handshake { len, pstr, reserved, info_hash, peer_id })
    }
}

/// Copies a byte range out of a vector.
fn copy_out(s: &Vec<u8>, from: usize, to: usize) -> (r: Vec<u8>)
    requires
        from <= to <= s@.len(),
    ensures
        r@ == s@.subrange(from as int, to as int),
{
    let mut out: Vec<u8> = Vec::new();
    let mut k: usize = from;
    while k < to
        invariant
            from <= k <= to <= s@.len(),
            out@ == s@.subrange(from as int, k as int),
        decreases to - k,
    {
        out.push(s[k]);
        assert(out@ =~= s@.subrange(from as int, k as int + 1));
        k += 1;
    }
    out
}

/// Law (handshake framing): a well-formed handshake frames to exactly 68
/// bytes whose fields stand at their fixed offsets, so reading the bytes
/// back restores every field; in particular the info-hash compared on
/// connect is bytes 28 to 47.
pub proof fn lemma_handshake_roundtrip(h: Handshake)
    requires
        hs_wf(h),
    ensures
        ({
            let b = handshake_bytes(h);
            &&& b.len() == 68
            &&& b[0] == h.len
            &&& b.subrange(1, 20) == bytes_of_chars(h.pstr@)
            &&& b.subrange(20, 28) == h.reserved@
            &&& b.subrange(28, 48) == h.info_hash@
            &&& b.subrange(48, 68) == bytes_of_chars(h.peer_id@)
            &&& ascii_bytes(b.subrange(1, 20))
            &&& ascii_bytes(b.subrange(48, 68))
            &&& chars_of_bytes(b.subrange(1, 20)) == h.pstr@
            &&& chars_of_bytes(b.subrange(48, 68)) == h.peer_id@
        }),
{
    let b = handshake_bytes(h);
    assert(b.subrange(1, 20) =~= bytes_of_chars(h.pstr@));
    assert(b.subrange(20, 28) =~= h.reserved@);
    assert(b.subrange(28, 48) =~= h.info_hash@);
    assert(b.subrange(48, 68) =~= bytes_of_chars(h.peer_id@));
    crate::strutil::lemma_chars_bytes_roundtrip(h.pstr@);
    crate::strutil::lemma_chars_bytes_roundtrip(h.peer_id@);
}

} // verus!
