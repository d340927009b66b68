//! Swarm coordinator core: the client's piece store and the block
//! assignment discipline that keeps two sessions from fetching the same
//! block. Picking a block and marking it requested happen in one call, so
//! under one lock acquisition; a block once assigned is never assigned
//! again until its piece is cleared after a hash failure.

use vstd::prelude::*;

use crate::errors::DownloaderError;
use crate::strutil::ascii_str;
use crate::metainfo::{MetaInfo, MetaInfoError};
use crate::peer::Peer;
use crate::piece::{first_needed, Block, Piece, PiecesError, StoreOutcome};

verus! {

/// The sub-piece transfer unit: 16 KiB.
pub const BLOCK_SIZE: u32 = 16384;

#[derive(Debug)]
pub enum ClientError {
    ReadFileError,
    OpenFileError,
    DecodingError(MetaInfoError),
    BadPeerResponseError,
    InvalidUTF8HandshakeError,
    InvalidBitfieldPositionError,
    InvalidMessageError,
    StorageError(PiecesError),
    CreateDownloaderError(DownloaderError),
    WriteLogError,
    FailToJoinThreadError,
    MutexLockError,
    TpcBindAsServerError,
    PeerConectionAsServerError,
    WriteConnectionAsServerError,
    UploadError,
    InvalidServerMessageError,
}

impl ClientError {
    /// Human-readable description of the error.
    pub fn message(&self) -> (r: String)
        ensures
            self is ReadFileError ==> r@ == "No se pudo leer el archivo"@,
            self is OpenFileError ==> r@ == "No se pudo abrir el archivo"@,
            self is BadPeerResponseError ==> r@ == "La respuesta del peer no fue la esperada"@,
            self is InvalidMessageError ==> r@ == "No pudo identificarse el mensaje"@,
    {
        match self {
            ClientError::ReadFileError => String::from_str("No se pudo leer el archivo"),
            ClientError::OpenFileError => String::from_str("No se pudo abrir el archivo"),
            ClientError::BadPeerResponseError => String::from_str(
                "La respuesta del peer no fue la esperada",
            ),
            ClientError::DecodingError(inner) => inner.message(),
            ClientError::StorageError(inner) => inner.message(),
            ClientError::CreateDownloaderError(inner) => inner.message(),
            ClientError::InvalidUTF8HandshakeError => String::from_str(
                "Fallo al parsear el Handshake response",
            ),
            ClientError::InvalidBitfieldPositionError => String::from_str(
                "Se intento accede a una posicion incorrecta del bitfield",
            ),
            ClientError::InvalidMessageError => String::from_str(
                "No pudo identificarse el mensaje",
            ),
            ClientError::WriteLogError => String::from_str(
                "Fallo al escribir en el archivo de log",
            ),
            ClientError::FailToJoinThreadError => String::from_str(
                "Fallo al realizar el join de un thread",
            ),
            ClientError::MutexLockError => String::from_str(
                "Fallo al realizar el Lock a un client",
            ),
            ClientError::TpcBindAsServerError => String::from_str("Fallo al realizar la conexion"),
            ClientError::PeerConectionAsServerError => String::from_str(
                "Fallo al realizar la conexion con el peer",
            ),
            ClientError::WriteConnectionAsServerError => String::from_str(
                "Fallo al realizar la escritura en la conexion",
            ),
            ClientError::UploadError => String::from_str(
                "Fallo al intentar uploadear una pieza",
            ),
            ClientError::InvalidServerMessageError => String::from_str(
                "El servidor recibio un mensaje que no corresponde",
            ),
        }
    }
}

/// Index of the first piece at or after `from` that the remote has and
/// that still has a block to fetch; -1 when none.
pub open spec fn first_wanted(pieces: Seq<Piece>, bf: Seq<bool>, from: int) -> int
    decreases pieces.len() - from,
{
    if from < 0 || from >= pieces.len() {
        -1
    } else if from < bf.len() && bf[from] && !pieces[from].is_complete && first_needed(
        pieces[from].blocks@,
        0,
    ) >= 0 {
        from
    } else {
        first_wanted(pieces, bf, from + 1)
    }
}

/// What the coordinator assigns for a remote bitfield: the first wanted
/// piece and its first needed block, or nothing.
pub open spec fn picked(pieces: Seq<Piece>, bf: Seq<bool>) -> Option<(int, int)> {
    let p = first_wanted(pieces, bf, 0);
    if p < 0 {
        None
    } else {
        Some((p, first_needed(pieces[p].blocks@, 0)))
    }
}

/// The swarm state one client owns: the metafile, its identity as a peer,
/// the piece store, and the port its inbound server listens on.
#[derive(Debug)]
pub struct BitClient {
    pub metainfo: MetaInfo,
    pub log_path: String,
    pub port_to_peers: String,
    pub peer_id: String,
    pub peer: Peer,
    pub pieces: Vec<Piece>,
}

impl BitClient {
    /// Builds the client state from a loaded metafile, its own peer
    /// identity and its configuration values.
    pub fn new(
        metainfo: MetaInfo,
        peer_id: String,
        port_to_peers: String,
        log_path: String,
    ) -> (r: BitClient)
        requires
            metainfo.info.piece_length > 0,
            metainfo.info.length <= u32::MAX,
            metainfo.info.pieces@.len() <= u32::MAX,
        ensures
            r.metainfo == metainfo,
            r.peer_id@ == peer_id@,
            r.port_to_peers@ == port_to_peers@,
            r.log_path@ == log_path@,
            r.peer.bitfield@ == Seq::new(metainfo.info.num_pieces as nat, |i: int| false),
            r.pieces@.len() == metainfo.info.pieces@.len(),
            forall|i: int|
                0 <= i < r.pieces@.len() ==> {
                    &&& (#[trigger] r.pieces@[i]).index == i
                    &&& r.pieces@[i].piece_length == metainfo.info.piece_length
                    &&& r.pieces@[i].hash@ == metainfo.info.pieces@[i]@
                    &&& !r.pieces@[i].is_complete
                    &&& r.pieces@[i].length == piece_len_at(
                        i,
                        r.pieces@.len() as int,
                        metainfo.info.piece_length as int,
                        metainfo.info.length as int,
                    )
                },
    {
        let pieces = Self::generate_pieces(&metainfo);
        let mut peer = Peer::new(clone_string(&peer_id), String::new(), clone_string(&port_to_peers));
        let falses = vec![false; metainfo.info.num_pieces];
        proof {
            assert(falses@ =~= Seq::new(metainfo.info.num_pieces as nat, |i: int| false));
        }
        peer.bitfield = falses;
        BitClient { metainfo, log_path, port_to_peers, peer_id, peer, pieces }
    }

    /// One piece record per hash in the metafile; every piece has the
    /// regular length except a shorter last one when the file length is
    /// not a multiple of it.
    #[verifier::loop_isolation(false)]
    pub fn generate_pieces(metainfo: &MetaInfo) -> (r: Vec<Piece>)
        requires
            metainfo.info.piece_length > 0,
            metainfo.info.length <= u32::MAX,
            metainfo.info.pieces@.len() <= u32::MAX,
        ensures
            r@.len() == metainfo.info.pieces@.len(),
            forall|i: int|
                0 <= i < r@.len() ==> {
                    &&& (#[trigger] r@[i]).index == i
                    &&& r@[i].piece_length == metainfo.info.piece_length
                    &&& r@[i].hash@ == metainfo.info.pieces@[i]@
                    &&& !r@[i].is_complete
                    &&& r@[i].length == piece_len_at(
                        i,
                        r@.len() as int,
                        metainfo.info.piece_length as int,
                        metainfo.info.length as int,
                    )
                },
    {
        let piece_length = metainfo.info.piece_length;
        let size: u32 = metainfo.info.length as u32;
        let mut pieces: Vec<Piece> = Vec::new();
        let n = metainfo.info.pieces.len();
        let last_piece_dont_fix = size % piece_length != 0;
        let mut i: usize = 0;
        while i < n
            invariant
                n == metainfo.info.pieces@.len(),
                piece_length == metainfo.info.piece_length,
                piece_length > 0,
                size == metainfo.info.length,
                last_piece_dont_fix == (size % piece_length != 0),
                i <= n,
                pieces@.len() == i,
                forall|k: int|
                    0 <= k < i ==> {
                        &&& (#[trigger] pieces@[k]).index == k
                        &&& pieces@[k].piece_length == piece_length
                        &&& pieces@[k].hash@ == metainfo.info.pieces@[k]@
                        &&& !pieces@[k].is_complete
                        &&& pieces@[k].length == piece_len_at(
                            k,
                            n as int,
                            piece_length as int,
                            size as int,
                        )
                    },
            decreases n - i,
        {
            let length: u32 = if i == n - 1 && last_piece_dont_fix {
                size % piece_length
            } else {
                piece_length
            };
            let hash = clone_bytes(&metainfo.info.pieces[i]);
            let piece = Piece::new(length, i as u32, piece_length, hash, BLOCK_SIZE);
            pieces.push(piece);
            i += 1;
        }
        pieces
    }

    /// A freshly drawn 20-character peer identity.
    pub fn generate_id() -> (r: String)
        ensures
            r@.len() == 20,
            ascii_str(r@),
    {
        random_alphanumeric_id()
    }

    /// Whether every piece has completed.
    #[verifier::loop_isolation(false)]
    pub fn is_complete(&self) -> (r: bool)
        ensures
            r == forall|i: int| 0 <= i < self.pieces@.len() ==> (#[trigger] self.pieces@[i]).is_complete,
    {
        let mut k: usize = 0;
        while k < self.pieces.len()
            invariant
                k <= self.pieces@.len(),
                forall|i: int| 0 <= i < k ==> (#[trigger] self.pieces@[i]).is_complete,
            decreases self.pieces@.len() - k,
        {
            if !self.pieces[k].is_complete {
                return false;
            }
            k += 1;
        }
        true
    }

    /// The first block to fetch from a peer with the given piece
    /// bitfield: the first piece it has that still needs a block, with
    /// that block's index and length.
    #[verifier::loop_isolation(false)]
    pub fn next_block_to_request(&self, peer_bitfield: &[bool]) -> (r: Option<(u32, u32, u32)>)
        requires
            client_wf(*self),
            peer_bitfield@.len() >= self.pieces@.len(),
        ensures
            match r {
                Some(t) => {
                    &&& picked(self.pieces@, peer_bitfield@) == Some((t.0 as int, t.1 as int))
                    &&& t.2 == self.pieces@[t.0 as int].blocks@[t.1 as int].length
                },
                None => picked(self.pieces@, peer_bitfield@) is None,
            },
    {
        let mut k: usize = 0;
        while k < self.pieces.len()
            invariant
                k <= self.pieces@.len(),
                first_wanted(self.pieces@, peer_bitfield@, 0) == first_wanted(
                    self.pieces@,
                    peer_bitfield@,
                    k as int,
                ),
            decreases self.pieces@.len() - k,
        {
            let piece = &self.pieces[k];
            if peer_bitfield[k] && !piece.is_complete {
                match piece.next_block_to_request() {
                    Some(block) => {
                        proof {
                            assert(self.pieces@[k as int].index == k as int);
                            let blks = self.pieces@[k as int].blocks@;
                            let fnd = first_needed(blks, 0);
                            lemma_first_needed_props(blks, 0);
                            assert(blks[fnd].index == fnd);
                            assert(first_wanted(self.pieces@, peer_bitfield@, k as int)
                                == k as int);
                        }
                        return Some((piece.index, block.index, block.length));
                    },
                    None => {},
                }
            }
            k += 1;
        }
        None
    }

    /// Marks a block of a piece as requested.
    pub fn mark_as_requested(&mut self, piece_index: u32, block_index: u32)
        requires
            (piece_index as int) < old(self).pieces@.len(),
            (block_index as int) < old(self).pieces@[piece_index as int].blocks@.len(),
        ensures
            final(self).pieces@.len() == old(self).pieces@.len(),
            forall|i: int|
                0 <= i < old(self).pieces@.len() && i != piece_index
                    ==> #[trigger] final(self).pieces@[i] == old(self).pieces@[i],
            piece_marked(
                old(self).pieces@[piece_index as int],
                final(self).pieces@[piece_index as int],
                block_index as int,
            ),
            final(self).metainfo == old(self).metainfo,
            final(self).peer == old(self).peer,
            final(self).peer_id == old(self).peer_id,
    {
        let mut piece = self.pieces.remove(piece_index as usize);
        piece.mark_as_requested(block_index);
        self.pieces.insert(piece_index as usize, piece);
        proof {
            assert(self.pieces@.len() == old(self).pieces@.len());
            assert forall|i: int|
                0 <= i < old(self).pieces@.len() && i != piece_index implies #[trigger] self.pieces@[i]
                == old(self).pieces@[i] by {
            }
        }
    }

    /// Picks the next block to fetch from the peer and marks it requested
    /// before returning, all in one step, so that no two sessions are ever
    /// assigned the same block.
    pub fn assign_next_block(&mut self, peer_bitfield: &[bool]) -> (r: Option<(u32, u32, u32)>)
        requires
            client_wf(*old(self)),
            peer_bitfield@.len() >= old(self).pieces@.len(),
        ensures
            client_wf(*final(self)),
            final(self).pieces@.len() == old(self).pieces@.len(),
            match r {
                Some(t) => {
                    &&& picked(old(self).pieces@, peer_bitfield@) == Some(
                        (t.0 as int, t.1 as int),
                    )
                    &&& !old(self).pieces@[t.0 as int].blocks@[t.1 as int].requested
                    &&& old(self).pieces@[t.0 as int].blocks@[t.1 as int].data@.len() == 0
                    &&& final(self).pieces@[t.0 as int].blocks@[t.1 as int].requested
                    &&& t.2 == old(self).pieces@[t.0 as int].blocks@[t.1 as int].length
                    &&& forall|i: int|
                        0 <= i < old(self).pieces@.len() && i != t.0
                            ==> #[trigger] final(self).pieces@[i] == old(self).pieces@[i]
                    &&& piece_marked(
                        old(self).pieces@[t.0 as int],
                        final(self).pieces@[t.0 as int],
                        t.1 as int,
                    )
                },
                None => picked(old(self).pieces@, peer_bitfield@) is None && *final(self) == *old(
                    self,
                ),
            },
    {
        match self.next_block_to_request(peer_bitfield) {
            Some((piece_index, block_index, block_length)) => {
                proof {
                    let p = piece_index as int;
                    lemma_first_wanted_props(self.pieces@, peer_bitfield@, 0);
                    lemma_first_needed_props(self.pieces@[p].blocks@, 0);
                }
                self.mark_as_requested(piece_index, block_index);
                proof {
                    lemma_client_wf_preserved(
                        *old(self),
                        *self,
                        piece_index as int,
                        block_index as int,
                    );
                }
                Some((piece_index, block_index, block_length))
            },
            None => None,
        }
    }

    /// Stores a received block and reports the outcome together with
    /// whether the whole torrent is now complete.
    pub fn store(&mut self, piece_index: u32, block_index: u32, data: Vec<u8>) -> (r: Result<
        (StoreOutcome, bool),
        ClientError,
    >)
        requires
            (piece_index as int) < old(self).pieces@.len(),
            (block_index as int) < old(self).pieces@[piece_index as int].blocks@.len(),
            data@.len() > 0,
        ensures
            r is Ok,
            final(self).pieces@.len() == old(self).pieces@.len(),
            forall|i: int|
                0 <= i < old(self).pieces@.len() && i != piece_index
                    ==> #[trigger] final(self).pieces@[i] == old(self).pieces@[i],
            crate::piece::store_rel(
                old(self).pieces@[piece_index as int],
                final(self).pieces@[piece_index as int],
                block_index as int,
                data,
                r->Ok_0.0,
            ),
            r->Ok_0.1 == (forall|i: int|
                0 <= i < final(self).pieces@.len()
                    ==> (#[trigger] final(self).pieces@[i]).is_complete),
    {
        let mut piece = self.pieces.remove(piece_index as usize);
        let outcome = match piece.store(block_index, data) {
            Ok(o) => o,
            Err(e) => {
                // the store itself never fails; keep the piece in place
                self.pieces.insert(piece_index as usize, piece);
                return Err(ClientError::StorageError(PiecesError::DownloadingError));
            },
        };
        self.pieces.insert(piece_index as usize, piece);
        proof {
            assert forall|i: int|
                0 <= i < old(self).pieces@.len() && i != piece_index implies #[trigger] self.pieces@[i]
                == old(self).pieces@[i] by {
            }
        }
        let complete = self.is_complete();
        Ok((outcome, complete))
    }
}

/// A client whose pieces and blocks are indexed by their positions.
pub open spec fn client_wf(c: BitClient) -> bool {
    forall|i: int|
        0 <= i < c.pieces@.len() ==> (#[trigger] c.pieces@[i]).index == i && forall|j: int|
            0 <= j < c.pieces@[i].blocks@.len() ==> (#[trigger] c.pieces@[i].blocks@[j]).index
                == j
}

/// The length of piece `i` out of `n`: the regular piece length, except a
/// remainder for the last piece when the file does not divide evenly.
pub open spec fn piece_len_at(i: int, n: int, piece_length: int, size: int) -> int {
    if i == n - 1 && size % piece_length != 0 {
        size % piece_length
    } else {
        piece_length
    }
}

/// The second piece is the first with one block marked requested and
/// everything else unchanged.
pub open spec fn piece_marked(before: Piece, after: Piece, b: int) -> bool {
    &&& after.blocks@.len() == before.blocks@.len()
    &&& after.blocks@[b].index == before.blocks@[b].index
    &&& after.blocks@[b].length == before.blocks@[b].length
    &&& after.blocks@[b].data@ == before.blocks@[b].data@
    &&& after.blocks@[b].requested
    &&& forall|i: int|
        0 <= i < before.blocks@.len() && i != b ==> #[trigger] after.blocks@[i]
            == before.blocks@[i]
    &&& after.length == before.length
    &&& after.piece_length == before.piece_length
    &&& after.index == before.index
    &&& after.hash@ == before.hash@
    &&& after.is_complete == before.is_complete
}

/// The piece found by the scan is in range, wanted, incomplete and has a
/// needed block.
pub proof fn lemma_first_wanted_props(pieces: Seq<Piece>, bf: Seq<bool>, from: int)
    requires
        0 <= from,
    ensures
        first_wanted(pieces, bf, from) >= 0 ==> {
            let p = first_wanted(pieces, bf, from);
            &&& from <= p < pieces.len()
            &&& p < bf.len() && bf[p]
            &&& !pieces[p].is_complete
            &&& first_needed(pieces[p].blocks@, 0) >= 0
        },
    decreases pieces.len() - from,
{
    if 0 <= from < pieces.len() {
        lemma_first_wanted_props(pieces, bf, from + 1);
    }
}

/// The block found by the scan is in range, empty and unrequested.
pub proof fn lemma_first_needed_props(blocks: Seq<Block>, from: int)
    requires
        0 <= from,
    ensures
        first_needed(blocks, from) >= 0 ==> {
            let b = first_needed(blocks, from);
            &&& from <= b < blocks.len()
            &&& blocks[b].data@.len() == 0
            &&& !blocks[b].requested
        },
    decreases blocks.len() - from,
{
    if 0 <= from < blocks.len() {
        lemma_first_needed_props(blocks, from + 1);
    }
}

proof fn lemma_client_wf_preserved(before: BitClient, after: BitClient, p: int, b: int)
    requires
        client_wf(before),
        after.pieces@.len() == before.pieces@.len(),
        0 <= p < before.pieces@.len(),
        forall|i: int|
            0 <= i < before.pieces@.len() && i != p ==> #[trigger] after.pieces@[i]
                == before.pieces@[i],
        piece_marked(before.pieces@[p], after.pieces@[p], b),
        0 <= b < before.pieces@[p].blocks@.len(),
    ensures
        client_wf(after),
{
    assert forall|i: int| 0 <= i < after.pieces@.len() implies (#[trigger] after.pieces@[i]).index
        == i && forall|j: int|
        0 <= j < after.pieces@[i].blocks@.len() ==> (#[trigger] after.pieces@[i].blocks@[j]).index
            == j by {
        assert(before.pieces@[i].index == i);
        assert forall|j: int| 0 <= j < after.pieces@[i].blocks@.len() implies (#[trigger] after.pieces@[i].blocks@[j]).index == j by {
            assert(before.pieces@[i].blocks@[j].index == j);
            if i == p && j != b {
                assert(after.pieces@[p].blocks@[j] == before.pieces@[p].blocks@[j]);
            }
        }
    }
}

/// Law (coordinator mutual exclusion): once the coordinator has assigned
/// a block and marked it requested, the next assignment — whatever peer
/// bitfield the next session brings — never picks the same block again.
pub proof fn lemma_no_double_assignment(
    pieces: Seq<Piece>,
    after: Seq<Piece>,
    bf1: Seq<bool>,
    bf2: Seq<bool>,
    p: int,
    b: int,
)
    requires
        picked(pieces, bf1) == Some((p, b)),
        after.len() == pieces.len(),
        forall|i: int| 0 <= i < pieces.len() && i != p ==> #[trigger] after[i] == pieces[i],
        piece_marked(pieces[p], after[p], b),
    ensures
        picked(after, bf2) != Some((p, b)),
{
    lemma_first_wanted_props(pieces, bf1, 0);
    lemma_first_needed_props(pieces[p].blocks@, 0);
    assert(after[p].blocks@[b].requested);
    if picked(after, bf2) == Some((p, b)) {
        lemma_first_wanted_props(after, bf2, 0);
        lemma_first_needed_props(after[p].blocks@, 0);
        assert(!after[p].blocks@[b].requested);
        assert(false);
    }
}

/// Byte-for-byte copy of a buffer.
fn clone_bytes(v: &Vec<u8>) -> (r: Vec<u8>)
    ensures
        r@ == v@,
{
    let mut out: Vec<u8> = Vec::new();
    let mut k: usize = 0;
    while k < v.len()
        invariant
            k <= v@.len(),
            out@ == v@.take(k as int),
        decreases v@.len() - k,
    {
        out.push(v[k]);
        assert(out@ =~= v@.take(k as int + 1));
        k += 1;
    }
    assert(out@ =~= v@);
    out
}

/// A copy of a string with the same characters.
fn clone_string(s: &String) -> (r: String)
    ensures
        r@ == s@,
{
    s.clone()
}


/// Relies on rand's thread_rng with the Alphanumeric distribution: a
/// 20-character identifier drawn from ASCII letters and digits.
#[verifier::external_body]
fn random_alphanumeric_id() -> (r: String)
    ensures
        r@.len() == 20,
        ascii_str(r@),
{
    rand::Rng::sample_iter(rand::thread_rng(), &rand::distributions::Alphanumeric)
        .take(20)
        .map(char::from)
        .collect()
}


} // verus!
