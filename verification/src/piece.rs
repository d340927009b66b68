//! Block and piece store: per-piece block tracking with SHA-1 verification.
//! A piece completes once all its blocks hold data and their concatenation
//! hashes to the piece's expected hash; on a mismatch every block is
//! cleared and the piece re-enters the request pool.

use vstd::prelude::*;

use crate::metainfo::sha1_of;

verus! {

#[derive(Debug, PartialEq, Eq, Structural)]
pub enum PiecesError {
    DownloadingError,
}

impl PiecesError {
    /// Human-readable description of the error.
    pub fn message(&self) -> (r: String)
        ensures
            r@ == "Hubo un error al descargar la pieza"@,
    {
        String::from_str("Hubo un error al descargar la pieza")
    }
}

/// A sub-piece transfer unit: its index inside the piece, its expected
/// length, whether it has been requested, and the received data.
#[derive(Debug, PartialEq)]
pub struct Block {
    pub requested: bool,
    pub index: u32,
    pub length: u32,
    pub data: Vec<u8>,
}

impl Block {
    /// A fresh block: no data, not yet requested.
    pub fn new(index: u32, length: u32) -> (r: Block)
        ensures
            r.index == index,
            r.length == length,
            r.data@.len() == 0,
            !r.requested,
    {
        Block { index, length, data: Vec::new(), requested: false }
    }
}

/// What storing a block did to its piece: the piece is still missing
/// blocks; or it completed with verified data to be written at the given
/// file offset; or the assembled data failed verification and every block
/// was cleared.
#[derive(Debug, PartialEq)]
pub enum StoreOutcome {
    Pending,
    Completed(Vec<u8>, u64),
    Corrupt,
}

/// Number of blocks a length splits into at a given block size.
pub open spec fn block_count(length: int, block_size: int) -> int {
    if length % block_size == 0 {
        length / block_size
    } else {
        length / block_size + 1
    }
}

/// Whether every block of the sequence holds data.
pub open spec fn all_filled(blocks: Seq<Block>) -> bool {
    forall|i: int| 0 <= i < blocks.len() ==> (#[trigger] blocks[i]).data@.len() > 0
}

/// The concatenation of all block data, in block-index order.
pub open spec fn joined_data(blocks: Seq<Block>) -> Seq<u8>
    decreases blocks.len(),
{
    if blocks.len() == 0 {
        Seq::empty()
    } else {
        joined_data(blocks.drop_last()) + blocks.last().data@
    }
}

/// Index of the first block with no data that was not yet requested, or
/// -1 when none is left.
pub open spec fn first_needed(blocks: Seq<Block>, from: int) -> int
    decreases blocks.len() - from,
{
    if from < 0 || from >= blocks.len() {
        -1
    } else if blocks[from].data@.len() == 0 && !blocks[from].requested {
        from
    } else {
        first_needed(blocks, from + 1)
    }
}

/// A hash-checked unit of the file: its own length, the regular piece
/// length of the torrent, its index, its blocks, its expected SHA-1 hash
/// and whether it has completed.
#[derive(Debug, PartialEq)]
pub struct Piece {
    pub length: u32,
    pub piece_length: u32,
    pub index: u32,
    pub blocks: Vec<Block>,
    pub hash: Vec<u8>,
    pub is_complete: bool,
}

impl Piece {
    /// A fresh piece of `length` bytes split into blocks of `block_size`,
    /// the last block taking the remainder.
    pub fn new(length: u32, index: u32, piece_length: u32, hash: Vec<u8>, block_size: u32) -> (r:
        Piece)
        requires
            block_size > 0,
        ensures
            r.length == length,
            r.piece_length == piece_length,
            r.index == index,
            r.hash@ == hash@,
            !r.is_complete,
            r.blocks@.len() == block_count(length as int, block_size as int),
            forall|i: int|
                0 <= i < r.blocks@.len() ==> {
                    &&& (#[trigger] r.blocks@[i]).index == i
                    &&& r.blocks@[i].data@.len() == 0
                    &&& !r.blocks@[i].requested
                    &&& r.blocks@[i].length == (if i < r.blocks@.len() - 1 {
                        block_size as int
                    } else {
                        length - block_size * (r.blocks@.len() - 1)
                    })
                },
    {
        let mut blocks: Vec<Block> = Vec::new();
        proof {
            vstd::arithmetic::div_mod::lemma_fundamental_div_mod(
                length as int,
                block_size as int,
            );
            assert(length % block_size != 0 ==> block_size >= 2) by (nonlinear_arith)
                requires
                    block_size > 0,
                    length >= 0,
            ;
            assert(block_size >= 2 ==> length / block_size + 1 <= u32::MAX) by (nonlinear_arith)
                requires
                    length <= u32::MAX,
            ;
        }
        let num_blocks: u32 = if length % block_size == 0 {
            length / block_size
        } else {
            length / block_size + 1
        };
        proof {
            assert(num_blocks * block_size >= length && (num_blocks > 0 ==> (num_blocks - 1)
                * block_size <= length)) by (nonlinear_arith)
                requires
                    block_size > 0,
                    length >= 0,
                    length == block_size * (length as int / block_size as int) + length as int
                        % block_size as int,
                    num_blocks == block_count(length as int, block_size as int),
                    num_blocks == if length % block_size == 0 {
                        length as int / block_size as int
                    } else {
                        length as int / block_size as int + 1
                    },
            ;
        }
        let mut i: u32 = 0;
        while i < num_blocks
            invariant
                i <= num_blocks,
                num_blocks == block_count(length as int, block_size as int),
                block_size > 0,
                num_blocks * block_size >= length,
                num_blocks > 0 ==> (num_blocks - 1) * block_size <= length,
                blocks@.len() == i,
                forall|k: int|
                    0 <= k < i ==> {
                        &&& (#[trigger] blocks@[k]).index == k
                        &&& blocks@[k].data@.len() == 0
                        &&& !blocks@[k].requested
                        &&& blocks@[k].length == (if k < num_blocks - 1 {
                            block_size as int
                        } else {
                            length - block_size * (num_blocks - 1)
                        })
                    },
            decreases num_blocks - i,
        {
            let block_length: u32 = if i < num_blocks - 1 {
                block_size
            } else {
                proof {
                    assert((num_blocks - 1) * block_size == block_size * (num_blocks - 1))
                        by (nonlinear_arith);
                }
                length - block_size * (num_blocks - 1)
            };
            let block = Block::new(i, block_length);
            blocks.push(block);
            i += 1;
        }
        Piece { length, piece_length, index, hash, blocks, is_complete: false }
    }

    /// Whether the piece has every block: already complete, or every
    /// block slot holds data.
    #[verifier::loop_isolation(false)]
    pub fn have_all_blocks(&self) -> (r: bool)
        ensures
            r == (self.is_complete || all_filled(self.blocks@)),
    {
        if self.is_complete {
            return true;
        }
        let mut k: usize = 0;
        while k < self.blocks.len()
            invariant
                k <= self.blocks@.len(),
                forall|i: int| 0 <= i < k ==> (#[trigger] self.blocks@[i]).data@.len() > 0,
            decreases self.blocks@.len() - k,
        {
            if self.blocks[k].data.len() == 0 {
                assert(!all_filled(self.blocks@)) by {
                    assert(self.blocks@[k as int].data@.len() == 0);
                }
                return false;
            }
            k += 1;
        }
        true
    }

    /// The first block still to be fetched: no data and not requested.
    /// None when the piece is complete or everything is requested.
    #[verifier::loop_isolation(false)]
    pub fn next_block_to_request(&self) -> (r: Option<&Block>)
        ensures
            self.is_complete ==> r is None,
            !self.is_complete ==> match r {
                Some(b) => first_needed(self.blocks@, 0) >= 0 && *b == self.blocks@[first_needed(
                    self.blocks@,
                    0,
                )],
                None => first_needed(self.blocks@, 0) == -1,
            },
    {
        if self.is_complete {
            return None;
        }
        let mut k: usize = 0;
        while k < self.blocks.len()
            invariant
                k <= self.blocks@.len(),
                first_needed(self.blocks@, 0) == first_needed(self.blocks@, k as int),
            decreases self.blocks@.len() - k,
        {
            if self.blocks[k].data.len() == 0 && !self.blocks[k].requested {
                return Some(&self.blocks[k]);
            }
            k += 1;
        }
        None
    }

    /// Wipes every block: data released, request marks reset.
    pub fn clear_block_data(&mut self)
        ensures
            final(self).blocks@.len() == old(self).blocks@.len(),
            forall|i: int|
                0 <= i < old(self).blocks@.len() ==> {
                    &&& (#[trigger] final(self).blocks@[i]).index == old(self).blocks@[i].index
                    &&& final(self).blocks@[i].length == old(self).blocks@[i].length
                    &&& final(self).blocks@[i].data@.len() == 0
                    &&& !final(self).blocks@[i].requested
                },
            final(self).length == old(self).length,
            final(self).piece_length == old(self).piece_length,
            final(self).index == old(self).index,
            final(self).hash@ == old(self).hash@,
            final(self).is_complete == old(self).is_complete,
    {
        let mut k: usize = 0;
        while k < self.blocks.len()
            invariant
                k <= self.blocks@.len(),
                self.blocks@.len() == old(self).blocks@.len(),
                self.length == old(self).length,
                self.piece_length == old(self).piece_length,
                self.index == old(self).index,
                self.hash@ == old(self).hash@,
                self.is_complete == old(self).is_complete,
                forall|i: int|
                    k <= i < old(self).blocks@.len() ==> #[trigger] self.blocks@[i] == old(
                        self,
                    ).blocks@[i],
                forall|i: int|
                    0 <= i < k ==> {
                        &&& (#[trigger] self.blocks@[i]).index == old(self).blocks@[i].index
                        &&& self.blocks@[i].length == old(self).blocks@[i].length
                        &&& self.blocks@[i].data@.len() == 0
                        &&& !self.blocks@[i].requested
                    },
            decreases self.blocks@.len() - k,
        {
            let idx = self.blocks[k].index;
            let length = self.blocks[k].length;
            self.blocks.set(k, Block { index: idx, length, data: Vec::new(), requested: false });
            k += 1;
        }
    }

    /// Marks a block as requested, leaving everything else unchanged.
    pub fn mark_as_requested(&mut self, block_index: u32)
        requires
            (block_index as int) < old(self).blocks@.len(),
        ensures
            final(self).blocks@.len() == old(self).blocks@.len(),
            ({
                let nb = final(self).blocks@[block_index as int];
                let ob = old(self).blocks@[block_index as int];
                nb.index == ob.index && nb.length == ob.length && nb.data@ == ob.data@
                    && nb.requested
            }),
            forall|i: int|
                0 <= i < old(self).blocks@.len() && i != block_index
                    ==> #[trigger] final(self).blocks@[i] == old(self).blocks@[i],
            final(self).length == old(self).length,
            final(self).piece_length == old(self).piece_length,
            final(self).index == old(self).index,
            final(self).hash@ == old(self).hash@,
            final(self).is_complete == old(self).is_complete,
    {
        let mut b = self.blocks.remove(block_index as usize);
        b.requested = true;
        self.blocks.insert(block_index as usize, b);
        proof {
            assert(self.blocks@ =~= old(self).blocks@.update(
                block_index as int,
                Block { requested: true, ..old(self).blocks@[block_index as int] },
            ));
        }
    }

    /// Places a received block's bytes into its slot. When this fills the
    /// last empty slot, the blocks are joined and hashed: on a match the
    /// piece completes, its blocks are released and the joined data is
    /// returned with its absolute file offset; on a mismatch every block
    /// is cleared so the piece can be fetched again.
    #[verifier::loop_isolation(false)]
    #[verifier::rlimit(50)]
    pub fn store(&mut self, block_index: u32, data: Vec<u8>) -> (r: Result<
        StoreOutcome,
        PiecesError,
    >)
        requires
            (block_index as int) < old(self).blocks@.len(),
            data@.len() > 0,
        ensures
            r is Ok,
            store_rel(*old(self), *final(self), block_index as int, data, r->Ok_0),
    {
        let ghost gdata = data;
        let slot = &self.blocks[block_index as usize];
        let updated = Block { index: slot.index, length: slot.length, data, requested: slot.requested };
        self.blocks.set(block_index as usize, updated);
        let ghost placed = self.blocks@;
        if self.have_all_blocks() {
            let mut joined: Vec<u8> = Vec::new();
            let mut k: usize = 0;
            while k < self.blocks.len()
                invariant
                    k <= self.blocks@.len(),
                    self.blocks@ == placed,
                    joined@ == joined_data(placed.take(k as int)),
                decreases self.blocks@.len() - k,
            {
                let b = &self.blocks[k];
                let mut j: usize = 0;
                let ghost pre = joined@;
                while j < b.data.len()
                    invariant
                        j <= b.data@.len(),
                        b == &self.blocks@[k as int],
                        joined@ == pre + b.data@.take(j as int),
                    decreases b.data@.len() - j,
                {
                    joined.push(b.data[j]);
                    assert(joined@ =~= pre + b.data@.take(j as int + 1));
                    j += 1;
                }
                proof {
                    assert(b.data@.take(b.data@.len() as int) =~= b.data@);
                    assert(placed.take(k as int + 1).drop_last() =~= placed.take(k as int));
                    assert(placed.take(k as int + 1).last() == placed[k as int]);
                }
                k += 1;
            }
            proof {
                assert(placed.take(placed.len() as int) =~= placed);
            }
            let hashed_data = crate::metainfo::MetaInfo::hashing(joined.as_slice());
            let matches = eq_bytes(&self.hash, &hashed_data);
            if matches {
                proof {
                    assert((self.index as u64) * (self.piece_length as u64) <= u64::MAX)
                        by (nonlinear_arith)
                        requires
                            self.index <= u32::MAX,
                            self.piece_length <= u32::MAX,
                    ;
                }
                let offset = (self.index as u64) * (self.piece_length as u64);
                self.clear_block_data();
                self.is_complete = true;
                Ok(StoreOutcome::Completed(joined, offset))
            } else {
                self.clear_block_data();
                Ok(StoreOutcome::Corrupt)
            }
        } else {
            Ok(StoreOutcome::Pending)
        }
    }
}


/// What storing `data` into block `block_index` does to a piece: the slot
/// is filled; if slots remain empty the piece is otherwise unchanged and
/// the outcome is pending; otherwise the joined data is hashed, and the
/// piece either completes with its blocks released and the joined bytes
/// reported together with their absolute file offset, or, on a hash
/// mismatch, has every block cleared so it can be fetched again.
pub open spec fn store_rel(
    before: Piece,
    after: Piece,
    block_index: int,
    data: Vec<u8>,
    outcome: StoreOutcome,
) -> bool {
    let placed = before.blocks@.update(
        block_index,
        Block { data: stored_data(data), ..before.blocks@[block_index] },
    );
    let joined = joined_data(placed);
    if !(before.is_complete || all_filled(placed)) {
        &&& outcome == StoreOutcome::Pending
        &&& after.blocks@ == placed
        &&& after.is_complete == before.is_complete
        &&& after.length == before.length
        &&& after.piece_length == before.piece_length
        &&& after.index == before.index
        &&& after.hash@ == before.hash@
    } else {
        &&& (sha1_of(joined) == before.hash@) ==> {
            &&& outcome is Completed
            &&& outcome->Completed_1 == (before.index * before.piece_length) as u64
            &&& outcome->Completed_0@ == joined
            &&& after.is_complete
            &&& blocks_cleared(placed, after.blocks@)
        }
        &&& (sha1_of(joined) != before.hash@) ==> {
            &&& outcome == StoreOutcome::Corrupt
            &&& after.is_complete == before.is_complete
            &&& blocks_cleared(placed, after.blocks@)
        }
        &&& after.length == before.length
        &&& after.piece_length == before.piece_length
        &&& after.index == before.index
        &&& after.hash@ == before.hash@
    }
}

/// The data a block was stored with.
pub open spec fn stored_data(data: Vec<u8>) -> Vec<u8> {
    data
}

/// The verified payload carried by a completed store outcome.
pub open spec fn data_of_outcome(r: Result<StoreOutcome, PiecesError>) -> Vec<u8>
    recommends
        r matches Ok(StoreOutcome::Completed(d, o)),
{
    r->Ok_0->Completed_0
}

/// The second sequence holds the first's blocks with data released and
/// request marks reset.
pub open spec fn blocks_cleared(before: Seq<Block>, after: Seq<Block>) -> bool {
    &&& after.len() == before.len()
    &&& forall|i: int|
        0 <= i < before.len() ==> {
            &&& (#[trigger] after[i]).index == before[i].index
            &&& after[i].length == before[i].length
            &&& after[i].data@.len() == 0
            &&& !after[i].requested
        }
}

/// Byte-for-byte copy of a buffer.
fn clone_bytes(v: &Vec<u8>) -> (r: Vec<u8>)
    ensures
        r@ == v@,
{
    let mut out: Vec<u8> = Vec::new();
    let mut k: usize = 0;
    while k < v.len()
        invariant
            k <= v@.len(),
            out@ == v@.take(k as int),
        decreases v@.len() - k,
    {
        out.push(v[k]);
        assert(out@ =~= v@.take(k as int + 1));
        k += 1;
    }
    assert(out@ =~= v@);
    out
}

/// Whether two buffers hold the same bytes.
fn eq_bytes(a: &Vec<u8>, b: &Vec<u8>) -> (r: bool)
    ensures
        r == (a@ == b@),
{
    if a.len() != b.len() {
        proof {
            assert(a@ != b@);
        }
        return false;
    }
    let mut k: usize = 0;
    while k < a.len()
        invariant
            k <= a@.len(),
            a@.len() == b@.len(),
            forall|i: int| 0 <= i < k ==> a@[i] == b@[i],
        decreases a@.len() - k,
    {
        if a[k] != b[k] {
            proof {
                assert(a@ != b@);
            }
            return false;
        }
        k += 1;
    }
    proof {
        assert(a@ =~= b@);
    }
    true
}

} // verus!
