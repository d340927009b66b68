//! A remote peer as the client sees it: identity, address, the pieces it
//! claims to have, and its choke and interest state. The packed bitfield
//! uses the most significant bit of byte 0 for piece 0.

use vstd::prelude::*;

use crate::bitfield::{byte_count, nth_bit};

verus! {

#[derive(Debug, PartialEq, Clone)]
pub struct Peer {
    pub id: String,
    pub ip: String,
    pub port: String,
    pub bitfield: Vec<bool>,
    pub choked: bool,
    pub interested: bool,
}

impl Peer {
    /// A fresh peer record: empty bitfield, not choked, not interested.
    pub fn new(id: String, ip: String, port: String) -> (r: Peer)
        ensures
            r.id@ == id@,
            r.ip@ == ip@,
            r.port@ == port@,
            r.bitfield@.len() == 0,
            !r.choked,
            !r.interested,
    {
        Peer { id, ip, port, bitfield: Vec::new(), choked: false, interested: false }
    }

    /// Unpacks a received bitfield message into one boolean per piece,
    /// most significant bit first.
    pub fn store_bitmap(&mut self, bytes: Vec<u8>, num_pieces: usize)
        requires
            num_pieces <= old(self).bitfield@.len() || num_pieces <= bytes@.len() * 8,
            bytes@.len() * 8 >= num_pieces,
        ensures
            final(self).bitfield@.len() == num_pieces,
            forall|i: int|
                0 <= i < num_pieces ==> final(self).bitfield@[i] == nth_bit(
                    bytes@[i / 8],
                    i % 8,
                ),
            final(self).id@ == old(self).id@,
            final(self).ip@ == old(self).ip@,
            final(self).port@ == old(self).port@,
            final(self).choked == old(self).choked,
            final(self).interested == old(self).interested,
    {
        let mut bitfield: Vec<bool> = Vec::new();
        let mut i: usize = 0;
        while i < num_pieces
            invariant
                i <= num_pieces,
                bytes@.len() * 8 >= num_pieces,
                bitfield@.len() == i,
                forall|k: int| 0 <= k < i ==> bitfield@[k] == nth_bit(bytes@[k / 8], k % 8),
            decreases num_pieces - i,
        {
            let bytes_index = i / 8;
            let index_into_byte = i % 8;
            proof {
                assert(i / 8 < bytes@.len()) by (nonlinear_arith)
                    requires
                        (i as int) < bytes@.len() * 8,
                        i >= 0,
                ;
            }
            let byte = bytes[bytes_index];
            let value = (byte & (128u8 >> (index_into_byte as u8))) != 0;
            bitfield.push(value);
            i += 1;
        }
        self.bitfield = bitfield;
    }

    /// Packs a boolean piece vector into bytes, most significant bit
    /// first; trailing bits of the last byte stay zero.
    #[verifier::loop_isolation(false)]
    pub fn bytes_from_bitmap(bitmap: Vec<bool>) -> (r: Vec<u8>)
        requires
            bitmap@.len() <= usize::MAX - 7,
        ensures
            r@.len() == byte_count(bitmap@.len() as int),
            forall|i: int| 0 <= i < bitmap@.len() ==> nth_bit(r@[i / 8], i % 8) == bitmap@[i],
            forall|i: int|
                bitmap@.len() <= i < r@.len() * 8 ==> !nth_bit(#[trigger] r@[i / 8], i % 8),
    {
        let mut init: usize = 0;
        let mut out: Vec<u8> = Vec::new();
        while init < bitmap.len()
            invariant
                init % 8 == 0,
                init <= bitmap@.len() + 7,
                out@.len() * 8 == init,
                init < bitmap@.len() ==> init <= bitmap@.len(),
                forall|i: int|
                    0 <= i < init && i < bitmap@.len() ==> nth_bit(
                        #[trigger] out@[i / 8],
                        i % 8,
                    ) == bitmap@[i],
                forall|i: int|
                    bitmap@.len() <= i < init ==> !nth_bit(#[trigger] out@[i / 8], i % 8),
            decreases bitmap@.len() + 8 - init,
        {
            let mut num: u8 = 0;
            proof {
                assert(forall|k: u8| #[trigger] (0u8 & (128u8 >> k)) == 0) by (bit_vector);
            }
            let mut j: usize = 0;
            while j < 8
                invariant
                    j <= 8,
                    init % 8 == 0,
                    init < bitmap@.len(),
                    out@.len() * 8 == init,
                    forall|k: int|
                        0 <= k < j ==> nth_bit(num, k) == (init + k < bitmap@.len()
                            && bitmap@[init + k]),
                    forall|k: int| j <= k < 8 ==> !nth_bit(num, k),
                decreases 8 - j,
            {
                let bit = if init + j < bitmap.len() {
                    bitmap[init + j]
                } else {
                    false
                };
                let ghost pre = num;
                if bit {
                    proof {
                        let ju = j as u8;
                        assert(!nth_bit(pre, j as int));
                        assert(pre & (128u8 >> ju) == 0 && ju < 8 ==> pre <= 255 - (128u8 >> ju))
                            by (bit_vector);
                    }
                    num = num + Self::binary_value(j as u8);
                    proof {
                        let ju = j as u8;
                        assert(pre & (128u8 >> ju) == 0);
                        assert forall|k: int| 0 <= k < 8 implies nth_bit(num, k) == (nth_bit(
                            pre,
                            k,
                        ) || k == j) by {
                            let ku = k as u8;
                            assert(pre & (128u8 >> ju) == 0 && ku < 8 && ju < 8 ==> ((pre + (128u8
                                >> ju)) as u8 & (128u8 >> ku) != 0) == ((pre & (128u8 >> ku) != 0)
                                || ku == ju)) by (bit_vector);
                        }
                    }
                }
                j += 1;
            }
            out.push(num);
            proof {
                assert forall|i: int| 0 <= i < init + 8 && i < bitmap@.len() implies nth_bit(
                    out@[i / 8],
                    i % 8,
                ) == bitmap@[i] by {
                    if i >= init {
                        assert(i / 8 == out@.len() - 1);
                        assert(out@[i / 8] == num);
                        assert(nth_bit(num, i % 8) == (init + (i - init) < bitmap@.len()
                            && bitmap@[i]));
                    }
                }
                assert forall|i: int| bitmap@.len() <= i < init + 8 implies !nth_bit(
                    #[trigger] out@[i / 8],
                    i % 8,
                ) by {
                    if i >= init {
                        assert(i / 8 == out@.len() - 1);
                        assert(out@[i / 8] == num);
                    }
                }
            }
            proof {
                assert(init + 8 <= bitmap@.len() + 7) by {
                    assert(init < bitmap@.len());
                    assert(init % 8 == 0);
                }
            }
            init += 8;
        }
        proof {
            assert(out@.len() == byte_count(bitmap@.len() as int));
        }
        out
    }

    /// The byte with exactly the bit at `offset` set, most significant
    /// bit first.
    pub fn binary_value(offset: u8) -> (r: u8)
        ensures
            offset < 8 ==> r == 128u8 >> offset,
            offset >= 8 ==> r == 0,
    {
        let r = match offset {
            0 => 128,
            1 => 64,
            2 => 32,
            3 => 16,
            4 => 8,
            5 => 4,
            6 => 2,
            7 => 1,
            _ => 0,
        };
        assert(offset < 8 ==> r == 128u8 >> offset) by (bit_vector)
            requires
                r == match offset {
                    0 => 128u8,
                    1 => 64,
                    2 => 32,
                    3 => 16,
                    4 => 8,
                    5 => 4,
                    6 => 2,
                    7 => 1,
                    _ => 0,
                },
        ;
        r
    }
}

} // verus!
