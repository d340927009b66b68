//! Peer session state machines. The decisions of both roles live here as
//! functions from the received message to the action to perform; the
//! surrounding loop owns the socket, performs the action and hands the
//! next message back.
//!
//! Leech role: after the handshake the session waits for a bitfield, sends
//! interest, and on unchoke pipelines request/piece rounds until the
//! remote has nothing more to give. Seed role: it answers interest with
//! unchoke and requests with piece payloads, and choking ends the session.

use vstd::prelude::*;

use crate::handshake::Handshake;
use crate::messages::{Message, MessageId};

verus! {

#[derive(Debug, PartialEq, Eq, Structural)]
pub enum ConnectionError {
    FailToConnectError,
    BadPeerResponseError,
    WriteConnectionError,
    ReadConnectionError,
    InvalidUTF8HandshakeError,
    UsizeFromU32Error,
    InvalidMessageError,
    MutexLockError,
    StorageError,
    UploadError,
}

impl ConnectionError {
    /// Human-readable description of the error.
    pub fn message(&self) -> (r: String)
        ensures
            self is FailToConnectError ==> r@ == "No se pudo establecer la conexion"@,
            self is BadPeerResponseError ==> r@ == "La respuesta del peer no fue la esperada"@,
            self is InvalidMessageError ==> r@ == "Se recibio un mensaje invalido"@,
            self is ReadConnectionError ==> r@ == "No se pudo leer en la conexion"@,
            self is WriteConnectionError ==> r@ == "No se pudo escribir en la conexion"@,
    {
        match self {
            ConnectionError::FailToConnectError => String::from_str(
                "No se pudo establecer la conexion",
            ),
            ConnectionError::BadPeerResponseError => String::from_str(
                "La respuesta del peer no fue la esperada",
            ),
            ConnectionError::WriteConnectionError => String::from_str(
                "No se pudo escribir en la conexion",
            ),
            ConnectionError::ReadConnectionError => String::from_str(
                "No se pudo leer en la conexion",
            ),
            ConnectionError::InvalidUTF8HandshakeError => String::from_str(
                "Fallo al parsear el Handshake response",
            ),
            ConnectionError::UsizeFromU32Error => String::from_str(
                "Fallo al intentar convertir un u32 en un usize",
            ),
            ConnectionError::InvalidMessageError => String::from_str(
                "Se recibio un mensaje invalido",
            ),
            ConnectionError::MutexLockError => String::from_str(
                "Fallo al tratar de obtener el lock",
            ),
            ConnectionError::StorageError => String::from_str("Fallo de almacenar un bloque"),
            ConnectionError::UploadError => String::from_str("Fallo al querer uploadear una pieza"),
        }
    }
}

/// What the leech loop must do after one received message.
#[derive(Debug, PartialEq)]
pub enum LeechAction {
    /// Keep-alive: nothing to do.
    Idle,
    /// A bitfield arrived: install it on the remote record and send
    /// interested.
    InstallBitfield(Vec<u8>),
    /// A have arrived: when no bitfield was ever received first assume
    /// the remote has everything, mark the piece, and send interested.
    MarkHave(u32, bool),
    /// Unchoked: when no bitfield was ever received first assume the
    /// remote has everything, record the unchoke, and request the next
    /// needed block under one lock acquisition.
    RequestNext(bool),
    /// A block arrived: store it; on piece completion the session ends,
    /// otherwise request the next block.
    StoreBlock(u32, u32, Vec<u8>),
    /// Choked: record it and end the session.
    ChokedStop,
    /// Any other message is a protocol error.
    Invalid,
}

/// The decision of the leech role for one received message, given whether
/// a bitfield message was seen before. A piece message carries the block
/// index, its byte offset divided by the block size.
pub fn leech_reaction(bitfield_seen: bool, message: Message, block_size: u32) -> (r: LeechAction)
    requires
        block_size > 0,
    ensures
        match message.id {
            MessageId::KeepAlive => r == LeechAction::Idle,
            MessageId::Bitfield(b) => r == LeechAction::InstallBitfield(b),
            MessageId::Have(i) => r == LeechAction::MarkHave(i, !bitfield_seen),
            MessageId::Unchoke => r == LeechAction::RequestNext(!bitfield_seen),
            MessageId::Piece(i, offset, data) => r == LeechAction::StoreBlock(
                i,
                (offset as int / block_size as int) as u32,
                data,
            ),
            MessageId::Choke => r == LeechAction::ChokedStop,
            _ => r == LeechAction::Invalid,
        },
{
    match message.id {
        MessageId::KeepAlive => LeechAction::Idle,
        MessageId::Bitfield(bytes) => LeechAction::InstallBitfield(bytes),
        MessageId::Have(index) => LeechAction::MarkHave(index, !bitfield_seen),
        MessageId::Unchoke => LeechAction::RequestNext(!bitfield_seen),
        MessageId::Piece(piece_index, offset, data) => {
            let block_index = offset / block_size;
            LeechAction::StoreBlock(piece_index, block_index, data)
        },
        MessageId::Choke => LeechAction::ChokedStop,
        _ => LeechAction::Invalid,
    }
}

/// What the seed loop must do after one received message; the second
/// component says whether the session ends afterwards.
#[derive(Debug, PartialEq)]
pub enum SeedAction {
    /// Keep-alive: nothing to do.
    Idle,
    /// A bitfield arrived: install it on the remote record and send a
    /// have for the first piece we own.
    InstallAndHave(Vec<u8>),
    /// Interested: answer with unchoke.
    SendUnchoke,
    /// A block request: read the requested range and answer with a piece.
    Upload(u32, u32, u32),
    /// Unchoke, cancel or not-interested: answer with choke and end.
    ChokeAndStop,
    /// Choked by the remote: end without replying.
    Stop,
    /// Any other message is a protocol error.
    Invalid,
}

/// The decision of the seed role for one received message.
pub fn seed_reaction(message: Message) -> (r: SeedAction)
    ensures
        match message.id {
            MessageId::KeepAlive => r == SeedAction::Idle,
            MessageId::Bitfield(b) => r == SeedAction::InstallAndHave(b),
            MessageId::Interested => r == SeedAction::SendUnchoke,
            MessageId::Request(i, b, l) => r == SeedAction::Upload(i, b, l),
            MessageId::Unchoke => r == SeedAction::ChokeAndStop,
            MessageId::Cancel(i, b, l) => r == SeedAction::ChokeAndStop,
            MessageId::NotInterested => r == SeedAction::ChokeAndStop,
            MessageId::Choke => r == SeedAction::Stop,
            _ => r == SeedAction::Invalid,
        },
{
    match message.id {
        MessageId::KeepAlive => SeedAction::Idle,
        MessageId::Bitfield(bytes) => SeedAction::InstallAndHave(bytes),
        MessageId::Interested => SeedAction::SendUnchoke,
        MessageId::Request(piece_index, begin, length) => SeedAction::Upload(
            piece_index,
            begin,
            length,
        ),
        MessageId::Unchoke => SeedAction::ChokeAndStop,
        MessageId::Cancel(i, b, l) => SeedAction::ChokeAndStop,
        MessageId::NotInterested => SeedAction::ChokeAndStop,
        MessageId::Choke => SeedAction::Stop,
        _ => SeedAction::Invalid,
    }
}

/// Whether a received handshake answers for the torrent we asked about:
/// valid if and only if its info-hash equals ours. The remote peer id is
/// informational and never compared.
pub fn handshake_matches(expected_info_hash: &Vec<u8>, response: &Handshake) -> (r: bool)
    ensures
        r == (response.info_hash@ == expected_info_hash@),
{
    if response.info_hash.len() != expected_info_hash.len() {
        proof {
            assert(response.info_hash@ != expected_info_hash@);
        }
        return false;
    }
    let mut k: usize = 0;
    while k < expected_info_hash.len()
        invariant
            k <= expected_info_hash@.len(),
            response.info_hash@.len() == expected_info_hash@.len(),
            forall|i: int| 0 <= i < k ==> response.info_hash@[i] == expected_info_hash@[i],
        decreases expected_info_hash@.len() - k,
    {
        if response.info_hash[k] != expected_info_hash[k] {
            proof {
                assert(response.info_hash@ != expected_info_hash@);
            }
            return false;
        }
        k += 1;
    }
    proof {
        assert(response.info_hash@ =~= expected_info_hash@);
    }
    true
}

/// The absolute file offset of a block request: the piece's start plus
/// the offset inside the piece.
pub fn upload_offset(piece_index: u32, piece_length: u32, begin: u32) -> (r: u64)
    ensures
        r == piece_index * piece_length + begin,
{
    proof {
        assert((piece_index as u64) * (piece_length as u64) + (begin as u64) <= u64::MAX)
            by (nonlinear_arith)
            requires
                piece_index <= u32::MAX,
                piece_length <= u32::MAX,
                begin <= u32::MAX,
        ;
    }
    (piece_index as u64) * (piece_length as u64) + (begin as u64)
}

/// Index of the first piece marked owned in a boolean bitfield; 0 when
/// none is owned, as the original advertises piece 0 then.
pub fn return_have(bitfield: &Vec<bool>) -> (r: usize)
    ensures
        first_owned(bitfield@, 0) >= 0 ==> r as int == first_owned(bitfield@, 0),
        first_owned(bitfield@, 0) < 0 ==> r == 0,
{
    let mut k: usize = 0;
    while k < bitfield.len()
        invariant
            k <= bitfield@.len(),
            first_owned(bitfield@, 0) == first_owned(bitfield@, k as int),
        decreases bitfield@.len() - k,
    {
        if bitfield[k] {
            return k;
        }
        k += 1;
    }
    0
}

/// Index of the first true entry at or after `from`, or -1.
pub open spec fn first_owned(bf: Seq<bool>, from: int) -> int
    decreases bf.len() - from,
{
    if from < 0 || from >= bf.len() {
        -1
    } else if bf[from] {
        from
    } else {
        first_owned(bf, from + 1)
    }
}

} // verus!
