//! Peer wire codec: length-prefixed, typed messages. A frame is a 4-byte
//! big-endian length followed by that many payload bytes; a zero length is
//! a keep-alive, otherwise the first payload byte is the type tag.

use vstd::prelude::*;

use crate::strutil::{be32, be_bytes_of_u32, lemma_be32_of_bytes, lemma_be_small, push_u32_be, u32_from_be};

verus! {

#[derive(Debug, PartialEq, Eq, Structural)]
pub enum PeerProtocolError {
    HandshakeInvalidUTF8CharError,
    InvalidMessageFormatError,
    FailToConvertError,
}

impl PeerProtocolError {
    /// Human-readable description of the error.
    pub fn message(&self) -> (r: String)
        ensures
            self is HandshakeInvalidUTF8CharError ==> r@
                == "El byte no puede ser convertido a un caracter UTF-8 valido"@,
            self is InvalidMessageFormatError ==> r@ == "El formato del mensaje no es valido"@,
            self is FailToConvertError ==> r@
                == "Fallo al intentar convertir un numero desde un string"@,
    {
        match self {
            PeerProtocolError::HandshakeInvalidUTF8CharError => String::from_str(
                "El byte no puede ser convertido a un caracter UTF-8 valido",
            ),
            PeerProtocolError::InvalidMessageFormatError => String::from_str(
                "El formato del mensaje no es valido",
            ),
            PeerProtocolError::FailToConvertError => String::from_str(
                "Fallo al intentar convertir un numero desde un string",
            ),
        }
    }
}

/// A wire message: its payload length and its decoded body.
#[derive(Debug, PartialEq)]
pub struct Message {
    pub len: u32,
    pub id: MessageId,
}

/// The decoded body of a wire message.
#[derive(Debug, PartialEq)]
pub enum MessageId {
    KeepAlive,
    Choke,
    Unchoke,
    Interested,
    NotInterested,
    Have(u32),
    Bitfield(Vec<u8>),
    Request(u32, u32, u32),
    Piece(u32, u32, Vec<u8>),
    Cancel(u32, u32, u32),
}

/// The mathematical model of a message body.
pub enum MsgModel {
    KeepAlive,
    Choke,
    Unchoke,
    Interested,
    NotInterested,
    Have(u32),
    Bitfield(Seq<u8>),
    Request(u32, u32, u32),
    Piece(u32, u32, Seq<u8>),
    Cancel(u32, u32, u32),
}

/// The model of a decoded message body.
pub open spec fn mview(id: MessageId) -> MsgModel {
    match id {
        MessageId::KeepAlive => MsgModel::KeepAlive,
        MessageId::Choke => MsgModel::Choke,
        MessageId::Unchoke => MsgModel::Unchoke,
        MessageId::Interested => MsgModel::Interested,
        MessageId::NotInterested => MsgModel::NotInterested,
        MessageId::Have(p) => MsgModel::Have(p),
        MessageId::Bitfield(b) => MsgModel::Bitfield(b@),
        MessageId::Request(i, b, l) => MsgModel::Request(i, b, l),
        MessageId::Piece(i, b, d) => MsgModel::Piece(i, b, d@),
        MessageId::Cancel(i, b, l) => MsgModel::Cancel(i, b, l),
    }
}

/// A model whose variable-length fields fit in a frame: the payload
/// length must fit in 32 bits.
pub open spec fn msg_wf(m: MsgModel) -> bool {
    match m {
        MsgModel::Bitfield(b) => b.len() + 1 <= u32::MAX,
        MsgModel::Piece(i, o, d) => d.len() + 9 <= u32::MAX,
        _ => true,
    }
}

/// The payload length a message body is framed with.
pub open spec fn payload_len(m: MsgModel) -> int {
    match m {
        MsgModel::KeepAlive => 0,
        MsgModel::Choke => 1,
        MsgModel::Unchoke => 1,
        MsgModel::Interested => 1,
        MsgModel::NotInterested => 1,
        MsgModel::Have(p) => 5,
        MsgModel::Bitfield(b) => b.len() as int + 1,
        MsgModel::Request(i, b, l) => 13,
        MsgModel::Piece(i, b, d) => d.len() as int + 9,
        MsgModel::Cancel(i, b, l) => 13,
    }
}

/// The payload of a message: tag byte, then the body fields, multi-byte
/// integers big-endian.
pub open spec fn payload_of(m: MsgModel) -> Seq<u8> {
    match m {
        MsgModel::KeepAlive => seq![],
        MsgModel::Choke => seq![0u8],
        MsgModel::Unchoke => seq![1u8],
        MsgModel::Interested => seq![2u8],
        MsgModel::NotInterested => seq![3u8],
        MsgModel::Have(p) => seq![4u8] + be_bytes_of_u32(p),
        MsgModel::Bitfield(b) => seq![5u8] + b,
        MsgModel::Request(i, b, l) => seq![6u8] + be_bytes_of_u32(i) + be_bytes_of_u32(b)
            + be_bytes_of_u32(l),
        MsgModel::Piece(i, b, d) => seq![7u8] + be_bytes_of_u32(i) + be_bytes_of_u32(b) + d,
        MsgModel::Cancel(i, b, l) => seq![8u8] + be_bytes_of_u32(i) + be_bytes_of_u32(b)
            + be_bytes_of_u32(l),
    }
}

/// The whole frame of a message: 4-byte big-endian payload length, then
/// the payload.
pub open spec fn frame_of(m: MsgModel) -> Seq<u8> {
    be_bytes_of_u32(payload_len(m) as u32) + payload_of(m)
}

/// What a payload of a given length decodes to, or nothing for an unknown
/// tag or a body too short for its tag.
pub open spec fn parse_msg(len: u32, p: Seq<u8>) -> Option<MsgModel> {
    if len == 0 {
        Some(MsgModel::KeepAlive)
    } else if p.len() == 0 {
        None
    } else if p[0] == 0 {
        Some(MsgModel::Choke)
    } else if p[0] == 1 {
        Some(MsgModel::Unchoke)
    } else if p[0] == 2 {
        Some(MsgModel::Interested)
    } else if p[0] == 3 {
        Some(MsgModel::NotInterested)
    } else if p[0] == 4 {
        if p.len() >= 5 {
            Some(MsgModel::Have(be32(p[1], p[2], p[3], p[4])))
        } else {
            None
        }
    } else if p[0] == 5 {
        Some(MsgModel::Bitfield(p.subrange(1, p.len() as int)))
    } else if p[0] == 6 {
        if p.len() >= 13 {
            Some(
                MsgModel::Request(
                    be32(p[1], p[2], p[3], p[4]),
                    be32(p[5], p[6], p[7], p[8]),
                    be32(p[9], p[10], p[11], p[12]),
                ),
            )
        } else {
            None
        }
    } else if p[0] == 7 {
        if p.len() >= 9 {
            Some(
                MsgModel::Piece(
                    be32(p[1], p[2], p[3], p[4]),
                    be32(p[5], p[6], p[7], p[8]),
                    p.subrange(9, p.len() as int),
                ),
            )
        } else {
            None
        }
    } else if p[0] == 8 {
        if p.len() >= 13 {
            Some(
                MsgModel::Cancel(
                    be32(p[1], p[2], p[3], p[4]),
                    be32(p[5], p[6], p[7], p[8]),
                    be32(p[9], p[10], p[11], p[12]),
                ),
            )
        } else {
            None
        }
    } else {
        None
    }
}

/// The `len` field the decoder records for a parsed body.
pub open spec fn recorded_len(m: MsgModel, len: u32) -> int {
    match m {
        MsgModel::KeepAlive => 0,
        MsgModel::Choke => 1,
        MsgModel::Unchoke => 1,
        MsgModel::Interested => 1,
        MsgModel::NotInterested => 1,
        MsgModel::Have(p) => 5,
        MsgModel::Bitfield(b) => len as int,
        MsgModel::Request(i, b, l) => 13,
        MsgModel::Piece(i, b, d) => len as int,
        MsgModel::Cancel(i, b, l) => 13,
    }
}

impl Message {
    /// Decodes a message from its payload length and payload bytes.
    /// Unknown tags are rejected as an invalid message format.
    pub fn new(len: u32, bytes: Vec<u8>) -> (r: Result<Message, PeerProtocolError>)
        requires
            bytes@.len() == len as int,
            len > 0 && bytes@[0] == 4 ==> len >= 5,
            len > 0 && (bytes@[0] == 6 || bytes@[0] == 8) ==> len >= 13,
            len > 0 && bytes@[0] == 7 ==> len >= 9,
        ensures
            match r {
                Ok(m) => parse_msg(len, bytes@) == Some(mview(m.id)) && m.len as int
                    == recorded_len(mview(m.id), len),
                Err(e) => parse_msg(len, bytes@) is None && e
                    == PeerProtocolError::InvalidMessageFormatError,
            },
    {
        if len == 0 {
            return Ok(Self::generate_keep_alive());
        }
        match bytes[0] {
            0 => Ok(Self::generate_choke()),
            1 => Ok(Self::generate_unchoke()),
            2 => Ok(Self::generate_interested()),
            3 => Ok(Self::generate_not_interested()),
            4 => Ok(Self::generate_have(bytes)),
            5 => Self::generate_bitfield(len, bytes),
            6 => Ok(Self::generate_request(bytes)),
            7 => Self::generate_piece(len, bytes),
            8 => Ok(Self::generate_cancel(bytes)),
            _ => Err(PeerProtocolError::InvalidMessageFormatError),
        }
    }

    /// The keep-alive message, payload length zero.
    pub fn generate_keep_alive() -> (r: Message)
        ensures
            r.len == 0,
            r.id is KeepAlive,
    {
        Message { len: 0, id: MessageId::KeepAlive }
    }

    /// The choke message.
    pub fn generate_choke() -> (r: Message)
        ensures
            r.len == 1,
            r.id is Choke,
    {
        Message { len: 1, id: MessageId::Choke }
    }

    /// The unchoke message.
    pub fn generate_unchoke() -> (r: Message)
        ensures
            r.len == 1,
            r.id is Unchoke,
    {
        Message { len: 1, id: MessageId::Unchoke }
    }

    /// The interested message.
    pub fn generate_interested() -> (r: Message)
        ensures
            r.len == 1,
            r.id is Interested,
    {
        Message { len: 1, id: MessageId::Interested }
    }

    /// The not-interested message.
    pub fn generate_not_interested() -> (r: Message)
        ensures
            r.len == 1,
            r.id is NotInterested,
    {
        Message { len: 1, id: MessageId::NotInterested }
    }

    /// Reads the first four bytes of a slice as a big-endian 32-bit
    /// integer.
    pub fn convert_to_u32(bytes: &[u8]) -> (r: u32)
        requires
            bytes@.len() >= 4,
        ensures
            r == be32(bytes@[0], bytes@[1], bytes@[2], bytes@[3]),
    {
        u32_from_be(bytes[0], bytes[1], bytes[2], bytes[3])
    }

    /// Decodes a have message: tag 4, then the piece index.
    pub fn generate_have(bytes: Vec<u8>) -> (r: Message)
        requires
            bytes@.len() >= 5,
            bytes@[0] == 4,
        ensures
            r.len == 5,
            r.id is Have,
            r.id->Have_0 == be32(bytes@[1], bytes@[2], bytes@[3], bytes@[4]),
    {
        let index = u32_from_be(bytes[1], bytes[2], bytes[3], bytes[4]);
        Message { len: 5, id: MessageId::Have(index) }
    }

    /// Decodes a bitfield message: tag 5, then the packed bits.
    pub fn generate_bitfield(len: u32, bytes: Vec<u8>) -> (r: Result<Message, PeerProtocolError>)
        requires
            bytes@.len() == len as int,
            len >= 1,
        ensures
            r is Ok,
            r->Ok_0.len == len,
            r->Ok_0.id is Bitfield,
            r->Ok_0.id->Bitfield_0@ == bytes@.subrange(1, len as int),
    {
        let mut bits: Vec<u8> = Vec::new();
        let mut k: usize = 1;
        while k < bytes.len()
            invariant
                1 <= k <= bytes@.len(),
                bits@ == bytes@.subrange(1, k as int),
            decreases bytes@.len() - k,
        {
            bits.push(bytes[k]);
            assert(bits@ =~= bytes@.subrange(1, k as int + 1));
            k += 1;
        }
        Ok(Message { len, id: MessageId::Bitfield(bits) })
    }

    /// Decodes a request message: tag 6, then index, begin and length.
    pub fn generate_request(bytes: Vec<u8>) -> (r: Message)
        requires
            bytes@.len() >= 13,
            bytes@[0] == 6,
        ensures
            r.len == 13,
            r.id is Request,
            r.id->Request_0 == be32(bytes@[1], bytes@[2], bytes@[3], bytes@[4]),
            r.id->Request_1 == be32(bytes@[5], bytes@[6], bytes@[7], bytes@[8]),
            r.id->Request_2 == be32(bytes@[9], bytes@[10], bytes@[11], bytes@[12]),
    {
        let index = u32_from_be(bytes[1], bytes[2], bytes[3], bytes[4]);
        let begin = u32_from_be(bytes[5], bytes[6], bytes[7], bytes[8]);
        let length = u32_from_be(bytes[9], bytes[10], bytes[11], bytes[12]);
        Message { len: 13, id: MessageId::Request(index, begin, length) }
    }

    /// Decodes a piece message: tag 7, then index, begin, and the block.
    pub fn generate_piece(len: u32, bytes: Vec<u8>) -> (r: Result<Message, PeerProtocolError>)
        requires
            bytes@.len() == len as int,
            len >= 9,
            bytes@[0] == 7,
        ensures
            r is Ok,
            r->Ok_0.len == len,
            r->Ok_0.id is Piece,
            r->Ok_0.id->Piece_0 == be32(bytes@[1], bytes@[2], bytes@[3], bytes@[4]),
            r->Ok_0.id->Piece_1 == be32(bytes@[5], bytes@[6], bytes@[7], bytes@[8]),
            r->Ok_0.id->Piece_2@ == bytes@.subrange(9, len as int),
    {
        let index = u32_from_be(bytes[1], bytes[2], bytes[3], bytes[4]);
        let begin = u32_from_be(bytes[5], bytes[6], bytes[7], bytes[8]);
        let mut block: Vec<u8> = Vec::new();
        let mut k: usize = 9;
        while k < bytes.len()
            invariant
                9 <= k <= bytes@.len(),
                block@ == bytes@.subrange(9, k as int),
            decreases bytes@.len() - k,
        {
            block.push(bytes[k]);
            assert(block@ =~= bytes@.subrange(9, k as int + 1));
            k += 1;
        }
        Ok(Message { len, id: MessageId::Piece(index, begin, block) })
    }

    /// Decodes a cancel message: tag 8, then index, begin and length.
    pub fn generate_cancel(bytes: Vec<u8>) -> (r: Message)
        requires
            bytes@.len() >= 13,
            bytes@[0] == 8,
        ensures
            r.len == 13,
            r.id is Cancel,
            r.id->Cancel_0 == be32(bytes@[1], bytes@[2], bytes@[3], bytes@[4]),
            r.id->Cancel_1 == be32(bytes@[5], bytes@[6], bytes@[7], bytes@[8]),
            r.id->Cancel_2 == be32(bytes@[9], bytes@[10], bytes@[11], bytes@[12]),
    {
        let index = u32_from_be(bytes[1], bytes[2], bytes[3], bytes[4]);
        let begin = u32_from_be(bytes[5], bytes[6], bytes[7], bytes[8]);
        let block = u32_from_be(bytes[9], bytes[10], bytes[11], bytes[12]);
        Message { len: 13, id: MessageId::Cancel(index, begin, block) }
    }

    /// Whether two messages have the same length and the same body.
    pub fn equals(&self, message: Message) -> (r: bool)
        ensures
            r == (self.len == message.len && mview(self.id) == mview(message.id)),
    {
        if self.len != message.len {
            return false;
        }
        proof {
            broadcast use vstd::laws_eq::group_laws_eq;
            broadcast use vstd::std_specs::vec::lemma_vec_obeys_view_eq;

            reveal(vstd::laws_eq::obeys_view_eq);
            assert(vstd::laws_eq::obeys_view_eq::<Vec<u8>>());
        }
        match (&self.id, &message.id) {
            (MessageId::KeepAlive, MessageId::KeepAlive) => true,
            (MessageId::Choke, MessageId::Choke) => true,
            (MessageId::Unchoke, MessageId::Unchoke) => true,
            (MessageId::Interested, MessageId::Interested) => true,
            (MessageId::NotInterested, MessageId::NotInterested) => true,
            (MessageId::Have(a), MessageId::Have(b)) => a == b,
            (MessageId::Bitfield(a), MessageId::Bitfield(b)) => {
                let eq = a == b;
                proof {
                    assert(eq == (a@ == b@));
                }
                eq
            },
            (MessageId::Request(a1, a2, a3), MessageId::Request(b1, b2, b3)) => {
                a1 == b1 && a2 == b2 && a3 == b3
            },
            (MessageId::Piece(a1, a2, ad), MessageId::Piece(b1, b2, bd)) => {
                let eq = ad == bd;
                proof {
                    assert(eq == (ad@ == bd@));
                }
                a1 == b1 && a2 == b2 && eq
            },
            (MessageId::Cancel(a1, a2, a3), MessageId::Cancel(b1, b2, b3)) => {
                a1 == b1 && a2 == b2 && a3 == b3
            },
            _ => false,
        }
    }

    /// The keep-alive frame.
    pub fn send_keep_alive() -> (r: Vec<u8>)
        ensures
            r@ == frame_of(MsgModel::KeepAlive),
    {
        let r = vec![0, 0, 0, 0];
        proof {
            lemma_be_small(0);
            assert(r@ =~= frame_of(MsgModel::KeepAlive));
        }
        r
    }

    /// The choke frame.
    pub fn send_choke() -> (r: Vec<u8>)
        ensures
            r@ == frame_of(MsgModel::Choke),
    {
        Self::send_fixed(0)
    }

    /// The unchoke frame.
    pub fn send_unchoke() -> (r: Vec<u8>)
        ensures
            r@ == frame_of(MsgModel::Unchoke),
    {
        Self::send_fixed(1)
    }

    /// The interested frame.
    pub fn send_interested() -> (r: Vec<u8>)
        ensures
            r@ == frame_of(MsgModel::Interested),
    {
        Self::send_fixed(2)
    }

    /// The not-interested frame.
    pub fn send_not_interested() -> (r: Vec<u8>)
        ensures
            r@ == frame_of(MsgModel::NotInterested),
    {
        Self::send_fixed(3)
    }

    /// A frame with a one-byte payload holding only a tag.
    fn send_fixed(tag: u8) -> (r: Vec<u8>)
        requires
            tag <= 3,
        ensures
            tag == 0 ==> r@ == frame_of(MsgModel::Choke),
            tag == 1 ==> r@ == frame_of(MsgModel::Unchoke),
            tag == 2 ==> r@ == frame_of(MsgModel::Interested),
            tag == 3 ==> r@ == frame_of(MsgModel::NotInterested),
    {
        let r = vec![0, 0, 0, 1, tag];
        proof {
            lemma_be_small(1);
            if tag == 0 {
                assert(r@ =~= frame_of(MsgModel::Choke));
            } else if tag == 1 {
                assert(r@ =~= frame_of(MsgModel::Unchoke));
            } else if tag == 2 {
                assert(r@ =~= frame_of(MsgModel::Interested));
            } else {
                assert(r@ =~= frame_of(MsgModel::NotInterested));
            }
        }
        r
    }

    /// The have frame for a piece index.
    pub fn send_have(piece: u32) -> (r: Vec<u8>)
        ensures
            r@ == frame_of(MsgModel::Have(piece)),
    {
        let mut vec: Vec<u8> = vec![0, 0, 0, 5, 4];
        push_u32_be(&mut vec, piece);
        proof {
            lemma_be_small(5);
            assert(vec@ =~= frame_of(MsgModel::Have(piece)));
        }
        vec
    }

    /// The bitfield frame; the packed bits are drained into the frame.
    pub fn send_bitfield(bitfield: &mut Vec<u8>) -> (r: Result<Vec<u8>, PeerProtocolError>)
        requires
            old(bitfield)@.len() + 1 <= u32::MAX,
        ensures
            r is Ok,
            r->Ok_0@ == frame_of(MsgModel::Bitfield(old(bitfield)@)),
            final(bitfield)@.len() == 0,
    {
        let len: u32 = (bitfield.len() + 1) as u32;
        let mut vec: Vec<u8> = Vec::new();
        push_u32_be(&mut vec, len);
        vec.push(5);
        vec.append(bitfield);
        proof {
            assert(vec@ =~= frame_of(MsgModel::Bitfield(old(bitfield)@)));
        }
        Ok(vec)
    }

    /// The piece frame for a block; the block bytes are drained into the
    /// frame.
    pub fn send_piece(index: u32, begin: u32, block: &mut Vec<u8>) -> (r: Result<
        Vec<u8>,
        PeerProtocolError,
    >)
        requires
            old(block)@.len() + 9 <= u32::MAX,
        ensures
            r is Ok,
            r->Ok_0@ == frame_of(MsgModel::Piece(index, begin, old(block)@)),
            final(block)@.len() == 0,
    {
        let len: u32 = (block.len() + 9) as u32;
        let mut vec: Vec<u8> = Vec::new();
        push_u32_be(&mut vec, len);
        vec.push(7);
        push_u32_be(&mut vec, index);
        push_u32_be(&mut vec, begin);
        vec.append(block);
        proof {
            assert(vec@ =~= frame_of(MsgModel::Piece(index, begin, old(block)@)));
        }
        Ok(vec)
    }

    /// The request frame for a block: index, begin and length.
    pub fn send_request(index: u32, begin: u32, length: u32) -> (r: Vec<u8>)
        ensures
            r@ == frame_of(MsgModel::Request(index, begin, length)),
    {
        let mut vec: Vec<u8> = vec![0, 0, 0, 13, 6];
        push_u32_be(&mut vec, index);
        push_u32_be(&mut vec, begin);
        push_u32_be(&mut vec, length);
        proof {
            lemma_be_small(13);
            assert(vec@ =~= frame_of(MsgModel::Request(index, begin, length)));
        }
        vec
    }

    /// The cancel frame for a block: index, begin and length.
    pub fn send_cancel(index: u32, begin: u32, block: u32) -> (r: Vec<u8>)
        ensures
            r@ == frame_of(MsgModel::Cancel(index, begin, block)),
    {
        let mut vec: Vec<u8> = vec![0, 0, 0, 13, 8];
        push_u32_be(&mut vec, index);
        push_u32_be(&mut vec, begin);
        push_u32_be(&mut vec, block);
        proof {
            lemma_be_small(13);
            assert(vec@ =~= frame_of(MsgModel::Cancel(index, begin, block)));
        }
        vec
    }
}

/// Law (wire framing round trip): for every message, the frame the
/// encoder emits carries its payload length in the first four bytes, and
/// parsing the payload back yields the same message.
pub proof fn lemma_wire_roundtrip(m: MsgModel)
    requires
        msg_wf(m),
    ensures
        ({
            let f = frame_of(m);
            let plen = payload_len(m) as u32;
            &&& f.len() == 4 + payload_len(m)
            &&& be32(f[0], f[1], f[2], f[3]) == plen
            &&& parse_msg(plen, f.subrange(4, f.len() as int)) == Some(m)
        }),
{
    let f = frame_of(m);
    let plen = payload_len(m) as u32;
    lemma_be32_of_bytes(plen);
    assert(f[0] == be_bytes_of_u32(plen)[0]);
    assert(f[1] == be_bytes_of_u32(plen)[1]);
    assert(f[2] == be_bytes_of_u32(plen)[2]);
    assert(f[3] == be_bytes_of_u32(plen)[3]);
    let p = f.subrange(4, f.len() as int);
    assert(p =~= payload_of(m));
    match m {
        MsgModel::KeepAlive => {},
        MsgModel::Choke => {},
        MsgModel::Unchoke => {},
        MsgModel::Interested => {},
        MsgModel::NotInterested => {},
        MsgModel::Have(x) => {
            lemma_be32_of_bytes(x);
            assert(parse_msg(plen, p) == Some(m));
        },
        MsgModel::Bitfield(b) => {
            assert(p.subrange(1, p.len() as int) =~= b);
        },
        MsgModel::Request(i, b, l) => {
            lemma_be32_of_bytes(i);
            lemma_be32_of_bytes(b);
            lemma_be32_of_bytes(l);
            assert(parse_msg(plen, p) == Some(m));
        },
        MsgModel::Piece(i, b, d) => {
            lemma_be32_of_bytes(i);
            lemma_be32_of_bytes(b);
            assert(p.subrange(9, p.len() as int) =~= d);
            assert(parse_msg(plen, p) == Some(m));
        },
        MsgModel::Cancel(i, b, l) => {
            lemma_be32_of_bytes(i);
            lemma_be32_of_bytes(b);
            lemma_be32_of_bytes(l);
            assert(parse_msg(plen, p) == Some(m));
        },
    }
}

} // verus!
