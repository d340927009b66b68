//! Bit-packed presence vector over piece indices. Bit 0 of byte 0 is the
//! most significant bit and stands for piece 0.

use vstd::prelude::*;

use crate::strutil::{ascii_bytes, chars_of_bytes, string_from_ascii};
use vstd::string::StringSliceAdditionalSpecFns;

verus! {

#[derive(Debug, PartialEq, Eq, Structural)]
pub enum BitfieldError {
    InvalidPositionError,
}

impl BitfieldError {
    /// Human-readable description of the error.
    pub fn message(&self) -> (r: String)
        ensures
            r@ == "Se intento acceder a una posicion invalida"@,
    {
        String::from_str("Se intento acceder a una posicion invalida")
    }
}

/// Whether bit `off` of `byte` is set, counting from the most significant bit.
pub open spec fn nth_bit(byte: u8, off: int) -> bool {
    byte & (128u8 >> (off as u8)) != 0
}

/// Number of bytes needed to hold `len` bits.
pub open spec fn byte_count(len: int) -> int {
    if len % 8 == 0 {
        len / 8
    } else {
        len / 8 + 1
    }
}

#[derive(Debug)]
pub struct Bitfield {
    pub bitmap: Vec<u8>,
    pub len: usize,
    pub last_byte: usize,
}

impl Bitfield {
    /// Whether the bitfield has a backing buffer of the right size.
    pub open spec fn wf(self) -> bool {
        self.bitmap@.len() == byte_count(self.len as int)
    }

    /// Whether position `pos` is marked present.
    pub open spec fn spec_has(self, pos: int) -> bool {
        nth_bit(self.bitmap@[pos / 8], pos % 8)
    }

    /// A zeroed bitfield of `len` positions.
    pub fn new(len: usize) -> (r: Bitfield)
        requires
            len <= usize::MAX - 7,
        ensures
            r.wf(),
            r.len == len,
            r.last_byte == len % 8,
            forall|p: int| 0 <= p < len ==> !r.spec_has(p),
            r.bitmap@ == Seq::<u8>::new(byte_count(len as int) as nat, |i: int| 0u8),
    {
        let bitmap_len: usize = if len % 8 == 0 {
            len / 8
        } else {
            len / 8 + 1
        };
        let bitmap: Vec<u8> = vec![0; bitmap_len];
        let last_byte = len % 8;
        assert(bitmap@ =~= Seq::<u8>::new(byte_count(len as int) as nat, |i: int| 0u8));
        proof {
            assert(forall|off: u8| #[trigger] (0u8 & (128u8 >> off)) == 0) by (bit_vector);
        }
        Bitfield { bitmap, len, last_byte }
    }

    /// Adopts an existing buffer; the length is eight bits for each byte.
    pub fn from(bitmap: Vec<u8>, last_byte: usize) -> (r: Bitfield)
        requires
            bitmap@.len() * 8 <= usize::MAX,
        ensures
            r.wf(),
            r.len == bitmap@.len() * 8,
            r.last_byte == last_byte,
            r.bitmap@ == bitmap@,
    {
        let len = bitmap.len() * 8;
        Bitfield { bitmap: bitmap.clone(), len, last_byte }
    }

    /// Index of the byte that holds bit `pos`.
    pub fn byte_position(pos: usize) -> (r: usize)
        ensures
            r == pos / 8,
    {
        pos / 8
    }

    /// Offset of bit `pos` inside its byte.
    pub fn offset_position(pos: usize) -> (r: u8)
        ensures
            r == pos % 8,
    {
        (pos % 8) as u8
    }

    /// The byte with exactly the bit at `offset` set (most significant first).
    pub fn offset_to_num(offset: u8) -> (r: u8)
        ensures
            offset < 8 ==> r == 128u8 >> offset,
            offset >= 8 ==> r == 0,
    {
        let r = match offset {
            7 => 1,
            6 => 2,
            5 => 4,
            4 => 8,
            3 => 16,
            2 => 32,
            1 => 64,
            0 => 128,
            _ => 0,
        };
        assert(offset < 8 ==> r == 128u8 >> offset) by (bit_vector)
            requires
                r == match offset {
                    7 => 1u8,
                    6 => 2,
                    5 => 4,
                    4 => 8,
                    3 => 16,
                    2 => 32,
                    1 => 64,
                    0 => 128,
                    _ => 0,
                },
        ;
        r
    }

    /// Marks position `pos` present. Returns whether the bitfield changed;
    /// positions at or past `len` are rejected.
    pub fn add_piece(&mut self, pos: usize) -> (r: Result<bool, BitfieldError>)
        requires
            old(self).wf(),
        ensures
            final(self).wf(),
            final(self).len == old(self).len,
            final(self).last_byte == old(self).last_byte,
            pos >= old(self).len ==> r == Err::<bool, BitfieldError>(
                BitfieldError::InvalidPositionError,
            ) && *final(self) == *old(self),
            pos < old(self).len ==> {
                &&& r == Ok::<bool, BitfieldError>(!old(self).spec_has(pos as int))
                &&& final(self).spec_has(pos as int)
                &&& forall|p: int|
                    0 <= p < final(self).len && p != pos ==> final(self).spec_has(p) == old(
                        self,
                    ).spec_has(p)
            },
    {
        if pos >= self.len {
            return Err(BitfieldError::InvalidPositionError);
        }
        let have = match self.have_piece(pos) {
            Ok(h) => h,
            Err(e) => return Err(e),
        };
        if have {
            return Ok(false);
        }
        let position = Self::byte_position(pos);
        let offset = Self::offset_position(pos);
        proof {
            lemma_bit_position_in_range(pos as int, self.len as int);
        }
        let mask = Self::offset_to_num(offset);
        let byte = self.bitmap[position];
        assert(byte & (128u8 >> offset) == 0 ==> byte <= 255 - (128u8 >> offset)) by (bit_vector);
        self.bitmap.set(position, byte + mask);
        proof {
            let nb = (byte + mask) as u8;
            assert forall|j: int| 0 <= j < 8 implies nth_bit(nb, j) == (nth_bit(byte, j) || j
                == offset as int) by {
                let ju = j as u8;
                assert(byte & (128u8 >> offset) == 0 && ju < 8 && offset < 8 ==> ((byte + (128u8
                    >> offset)) as u8 & (128u8 >> ju) != 0) == ((byte & (128u8 >> ju) != 0) || ju
                    == offset)) by (bit_vector);
            }
            assert forall|p: int| 0 <= p < self.len && p != pos implies self.spec_has(p) == old(
                self,
            ).spec_has(p) by {
                if p / 8 == pos as int / 8 {
                    assert(p % 8 != pos as int % 8);
                }
            }
        }
        Ok(true)
    }

    /// Clears position `pos`. Returns whether the bitfield changed; positions
    /// past `len` are rejected.
    pub fn remove_piece(&mut self, pos: usize) -> (r: Result<bool, BitfieldError>)
        requires
            old(self).wf(),
        ensures
            final(self).wf(),
            final(self).len == old(self).len,
            final(self).last_byte == old(self).last_byte,
            pos >= old(self).len ==> r == Err::<bool, BitfieldError>(
                BitfieldError::InvalidPositionError,
            ) && *final(self) == *old(self),
            pos < old(self).len ==> {
                &&& r == Ok::<bool, BitfieldError>(old(self).spec_has(pos as int))
                &&& !final(self).spec_has(pos as int)
                &&& forall|p: int|
                    0 <= p < final(self).len && p != pos ==> final(self).spec_has(p) == old(
                        self,
                    ).spec_has(p)
            },
    {
        if pos > self.len {
            return Err(BitfieldError::InvalidPositionError);
        }
        let have = match self.have_piece(pos) {
            Ok(h) => h,
            Err(e) => return Err(e),
        };
        if !have {
            return Ok(false);
        }
        let position = Self::byte_position(pos);
        let offset = Self::offset_position(pos);
        proof {
            lemma_bit_position_in_range(pos as int, self.len as int);
        }
        let mask = Self::offset_to_num(offset);
        let byte = self.bitmap[position];
        assert(byte & (128u8 >> offset) != 0 ==> byte >= (128u8 >> offset)) by (bit_vector);
        self.bitmap.set(position, byte - mask);
        proof {
            assert forall|j: int| 0 <= j < 8 implies nth_bit((byte - mask) as u8, j) == (nth_bit(
                byte,
                j,
            ) && j != offset as int) by {
                let ju = j as u8;
                assert(byte & (128u8 >> offset) != 0 && ju < 8 && offset < 8 ==> ((byte - (128u8
                    >> offset)) as u8 & (128u8 >> ju) != 0) == ((byte & (128u8 >> ju) != 0) && ju
                    != offset)) by (bit_vector);
            }
            assert forall|p: int| 0 <= p < self.len && p != pos implies self.spec_has(p) == old(
                self,
            ).spec_has(p) by {
                if p / 8 == pos as int / 8 {
                    assert(p % 8 != pos as int % 8);
                }
            }
        }
        Ok(true)
    }

    /// The eight-character binary rendering of a byte, most significant first.
    pub fn u8_to_binary(byte: u8) -> (r: String)
        ensures
            r@.len() == 8,
            forall|i: int|
                0 <= i < 8 ==> r@[i] == if nth_bit(byte, i) {
                    '1'
                } else {
                    '0'
                },
    {
        let mut digits: Vec<u8> = Vec::new();
        let mut i: usize = 0;
        while i < 8
            invariant
                i <= 8,
                digits@.len() == i,
                forall|j: int|
                    0 <= j < i ==> digits@[j] == if nth_bit(byte, j) {
                        49u8
                    } else {
                        48u8
                    },
            decreases 8 - i,
        {
            let bit = byte & (128u8 >> (i as u8));
            digits.push(if bit != 0 {
                49
            } else {
                48
            });
            i += 1;
        }
        assert(ascii_bytes(digits@));
        let r = string_from_ascii(&digits);
        assert forall|i: int| 0 <= i < 8 implies r@[i] == (if nth_bit(byte, i) {
            '1'
        } else {
            '0'
        }) by {
            assert(r@[i] == digits@[i] as char);
        }
        r
    }

    /// Whether the character at `offset` of a binary rendering is a one.
    pub fn binary_have_offset(binary: String, offset: u8) -> (r: bool)
        requires
            binary.is_ascii(),
            (offset as int) < binary@.len(),
        ensures
            r == (binary@[offset as int] == '1'),
    {
        let bstr = binary.as_str();
        proof {
            broadcast use vstd::string::is_ascii_spec_bytes;

            assert(bstr.is_ascii());
            assert(bstr.spec_bytes().len() == binary@.len());
        }
        let binary_vec = bstr.as_bytes();
        let r = binary_vec[offset as usize] == 49;
        proof {
            let c = binary@[offset as int];
            assert((c as u32) < 128);
            assert(binary_vec@[offset as int] == c as u8);
        }
        r
    }

    /// Whether position `pos` is marked present; positions at or past `len`
    /// are rejected.
    pub fn have_piece(&self, pos: usize) -> (r: Result<bool, BitfieldError>)
        requires
            self.wf(),
        ensures
            pos >= self.len ==> r == Err::<bool, BitfieldError>(
                BitfieldError::InvalidPositionError,
            ),
            pos < self.len ==> r == Ok::<bool, BitfieldError>(self.spec_has(pos as int)),
    {
        if pos >= self.len {
            return Err(BitfieldError::InvalidPositionError);
        }
        let position = Self::byte_position(pos);
        let offset = Self::offset_position(pos);
        proof {
            lemma_bit_position_in_range(pos as int, self.len as int);
        }
        let byte = self.bitmap[position];
        let binary = Self::u8_to_binary(byte);
        assert(binary.is_ascii());
        Ok(Self::binary_have_offset(binary, offset))
    }

    /// The comparison the original download flow makes between two bitfields:
    /// different length, different buffer, same trailing-bit count.
    pub fn compare_bitmap(&self, bitfield: Bitfield) -> (r: bool)
        ensures
            r == (bitfield.len != self.len && bitfield.bitmap@ != self.bitmap@ && self.last_byte
                == bitfield.last_byte),
    {
        proof {
            broadcast use vstd::laws_eq::group_laws_eq;
            broadcast use vstd::std_specs::vec::lemma_vec_obeys_view_eq;

            reveal(vstd::laws_eq::obeys_view_eq);
            assert(vstd::laws_eq::obeys_view_eq::<Vec<u8>>());
        }
        let maps_eq = bitfield.bitmap == self.bitmap;
        proof {
            assert(maps_eq == (bitfield.bitmap@ == self.bitmap@));
        }
        bitfield.len != self.len && !maps_eq && self.last_byte == bitfield.last_byte
    }

    /// A copy of the backing buffer.
    pub fn get_bitmap(&self) -> (r: Vec<u8>)
        ensures
            r@ == self.bitmap@,
    {
        self.bitmap.clone()
    }
}

proof fn lemma_bit_position_in_range(pos: int, len: int)
    requires
        0 <= pos < len,
    ensures
        pos / 8 < byte_count(len),
        0 <= pos % 8 < 8,
        0 <= pos / 8,
{
}

} // verus!
