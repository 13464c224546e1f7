//! A pushable little-endian bit reader: bytes are appended at the back
//! while bits are consumed from the front, lowest-address byte first and
//! least-significant bit within a byte first (the GIF LZW convention).

use vstd::arithmetic::power2::{lemma_pow2_strictly_increases, lemma_pow2_unfold, pow2};
use vstd::prelude::*;

use crate::types::GifError;

verus! {

/// Value of bit `k` of `bytes`, counting bits from the least-significant
/// bit of `bytes[0]` upward.
pub open spec fn nth_bit(bytes: Seq<u8>, k: int) -> bool {
    (bytes[k / 8] >> ((k % 8) as u8)) & 1 == 1
}

/// The unsigned value of the `len` bits of `bytes` starting at bit
/// position `pos`, least-significant bit first.
pub open spec fn bits_value(bytes: Seq<u8>, pos: int, len: nat) -> nat
    decreases len,
{
    if len == 0 {
        0
    } else {
        (if nth_bit(bytes, pos) {
            1nat
        } else {
            0nat
        }) + 2 * bits_value(bytes, pos + 1, (len - 1) as nat)
    }
}

/// Reading one more bit adds its value at the top of the word read so far.
proof fn lemma_bits_value_snoc(bytes: Seq<u8>, pos: int, len: nat)
    ensures
        bits_value(bytes, pos, len + 1) == bits_value(bytes, pos, len) + (if nth_bit(
            bytes,
            pos + len,
        ) {
            pow2(len)
        } else {
            0nat
        }),
    decreases len,
{
    vstd::arithmetic::power2::lemma2_to64();
    if len == 0 {
        assert(bits_value(bytes, pos, 1) == (if nth_bit(bytes, pos) {
            1nat
        } else {
            0nat
        }) + 2 * bits_value(bytes, pos + 1, 0));
    } else {
        let l1 = (len - 1) as nat;
        lemma_bits_value_snoc(bytes, pos + 1, l1);
        lemma_pow2_unfold(len);
        assert(bits_value(bytes, pos, len + 1) == (if nth_bit(bytes, pos) {
            1nat
        } else {
            0nat
        }) + 2 * bits_value(bytes, pos + 1, len));
        assert(bits_value(bytes, pos + 1, len) == bits_value(bytes, pos + 1, l1) + (if nth_bit(
            bytes,
            pos + len,
        ) {
            pow2(l1)
        } else {
            0nat
        }));
        assert(bits_value(bytes, pos, len) == (if nth_bit(bytes, pos) {
            1nat
        } else {
            0nat
        }) + 2 * bits_value(bytes, pos + 1, l1));
        assert(2 * (bits_value(bytes, pos + 1, l1) + pow2(l1)) == 2 * bits_value(
            bytes,
            pos + 1,
            l1,
        ) + pow2(len));
    }
}

/// A word of `len` bits is below `2^len`.
proof fn lemma_bits_value_bound(bytes: Seq<u8>, pos: int, len: nat)
    ensures
        bits_value(bytes, pos, len) < pow2(len),
    decreases len,
{
    vstd::arithmetic::power2::lemma2_to64();
    if len == 0 {
    } else {
        lemma_bits_value_bound(bytes, pos + 1, (len - 1) as nat);
        lemma_pow2_unfold(len);
    }
}

/// A position-tracked view over a byte sequence with bounds-checked bit
/// reads, used during LZW decode.
pub struct BitReader {
    bytes: Vec<u8>,
    byte_offset: usize,
    bit_offset: usize,
}

impl BitReader {
    /// The reader's position stays inside its bytes, mid-byte positions
    /// only occur before the end, and a consumed byte is never revisited.
    pub closed spec fn wf(self) -> bool {
        &&& self.byte_offset <= self.bytes@.len()
        &&& self.bit_offset < 8
        &&& self.byte_offset == self.bytes@.len() ==> self.bit_offset == 0
    }

    /// The bytes currently backing the reader.
    pub closed spec fn spec_bytes(self) -> Seq<u8> {
        self.bytes@
    }

    /// The absolute bit position of the next unread bit.
    pub closed spec fn bit_pos(self) -> int {
        8 * self.byte_offset + self.bit_offset
    }

    /// How many bits remain to be read.
    pub open spec fn bits_left(self) -> int {
        8 * self.spec_bytes().len() - self.bit_pos()
    }

    /// An empty reader positioned at the start.
    pub fn new() -> (r: Self)
        ensures
            r.wf(),
            r.spec_bytes() == Seq::<u8>::empty(),
            r.bit_pos() == 0,
    {
        Self { bytes: Vec::new(), byte_offset: 0, bit_offset: 0 }
    }

    /// Read the next `len` bits as one little-endian value and advance
    /// past them. When fewer than `len` bits remain the reader consumes
    /// what is left and reports `InsufficientBits`.
    pub fn read_bits(&mut self, len: usize) -> (r: Result<u16, GifError>)
        requires
            old(self).wf(),
            1 <= len <= 12,
        ensures
            final(self).wf(),
            final(self).spec_bytes() == old(self).spec_bytes(),
            r is Ok <==> len <= old(self).bits_left(),
            r is Ok ==> {
                &&& r->Ok_0 == bits_value(old(self).spec_bytes(), old(self).bit_pos(), len as nat)
                &&& final(self).bit_pos() == old(self).bit_pos() + len
            },
            r is Err ==> {
                &&& r->Err_0 == GifError::InsufficientBits
                &&& final(self).bits_left() == 0
            },
    {
        let ghost bytes = self.bytes@;
        let ghost pos0 = self.bit_pos();
        let mut result: u16 = 0;
        let mut mult: u16 = 1;
        let mut rbits: usize = 0;
        proof {
            vstd::arithmetic::power2::lemma2_to64();
        }
        while rbits < len
            invariant
                self.wf(),
                self.bytes@ == bytes,
                bytes == old(self).spec_bytes(),
                pos0 == old(self).bit_pos(),
                1 <= len <= 12,
                rbits <= len,
                self.bit_pos() == pos0 + rbits,
                mult == pow2(rbits as nat),
                result == bits_value(bytes, pos0, rbits as nat),
            decreases len - rbits,
        {
            if self.byte_offset >= self.bytes.len() {
                proof {
                    lemma_bits_value_bound(bytes, pos0, rbits as nat);
                }
                return Err(GifError::InsufficientBits);
            }
            let cur: u8 = self.bytes[self.byte_offset];
            let off: u8 = self.bit_offset as u8;
            let bit: u8 = (cur >> off) & 1;
            proof {
                let bo = self.byte_offset as int;
                let bi = self.bit_offset as int;
                assert((8 * bo + bi) / 8 == bo && (8 * bo + bi) % 8 == bi) by (nonlinear_arith)
                    requires
                        0 <= bi < 8 && 0 <= bo,
                ;
                assert(bit == 0 || bit == 1) by (bit_vector)
                    requires
                        bit == (cur >> off) & 1,
                ;
                assert(bit == 1 <==> nth_bit(bytes, pos0 + rbits));
            }
            proof {
                lemma_bits_value_snoc(bytes, pos0, rbits as nat);
                lemma_bits_value_bound(bytes, pos0, rbits as nat);
                if rbits + 1 <= 12 {
                    lemma_pow2_strictly_increases(rbits as nat + 1, 13);
                }
                vstd::arithmetic::power2::lemma2_to64();
                lemma_pow2_unfold(rbits as nat + 1);
            }
            if bit == 1 {
                result = result + mult;
            }
            mult = mult * 2;
            rbits = rbits + 1;
            self.bit_offset = self.bit_offset + 1;
            if self.bit_offset == 8 {
                self.byte_offset = self.byte_offset + 1;
                self.bit_offset = 0;
            }
        }
        Ok(result)
    }

    /// Answer whether `len` more bits remain; `len` above 12 is refused
    /// with `None`.
    pub fn has_bits(&mut self, len: usize) -> (r: Option<bool>)
        requires
            old(self).wf(),
        ensures
            *final(self) == *old(self),
            r is Some <==> len <= 12,
            r is Some ==> (r->0 <==> 0 < old(self).bits_left() && len <= old(self).bits_left()),
    {
        if len > 12 {
            return None;
        }
        if self.byte_offset >= self.bytes.len() {
            return Some(false);
        }
        let bits_remain: usize = 8 - self.bit_offset;
        if len <= bits_remain {
            return Some(true);
        }
        let bytes_remain: usize = self.bytes.len() - self.byte_offset - 1;
        if bytes_remain < 1 {
            return Some(false);
        }
        if bytes_remain >= 2 {
            return Some(true);
        }
        if len > bits_remain + 8 {
            return Some(false);
        }
        Some(true)
    }

    /// Append `bytes` after the unread remainder; a fully consumed reader
    /// restarts at the front of the new bytes. The intra-byte bit offset
    /// is preserved whenever any bit was still unread.
    pub fn push_bytes(&mut self, bytes: &[u8]) -> (nothing: ())
        requires
            old(self).wf(),
        ensures
            final(self).wf(),
            old(self).bits_left() > 0 ==> {
                &&& final(self).spec_bytes() == old(self).spec_bytes().skip(
                    old(self).bit_pos() / 8,
                ) + bytes@
                &&& final(self).bit_pos() == old(self).bit_pos() % 8
            },
            old(self).bits_left() == 0 ==> {
                &&& final(self).spec_bytes() == bytes@
                &&& final(self).bit_pos() == 0
            },
    {
        let has = self.has_bits(1);
        match has {
            Some(has_bits) => {
                if has_bits {
                    let mut new_bytes: Vec<u8> = Vec::new();
                    let mut i: usize = self.byte_offset;
                    while i < self.bytes.len()
                        invariant
                            self.byte_offset <= i <= self.bytes@.len(),
                            new_bytes@ == self.bytes@.subrange(self.byte_offset as int, i as int),
                        decreases self.bytes@.len() - i,
                    {
                        new_bytes.push(self.bytes[i]);
                        i = i + 1;
                    }
                    let mut j: usize = 0;
                    while j < bytes.len()
                        invariant
                            j <= bytes@.len(),
                            new_bytes@ == self.bytes@.subrange(
                                self.byte_offset as int,
                                self.bytes@.len() as int,
                            ) + bytes@.subrange(0, j as int),
                        decreases bytes@.len() - j,
                    {
                        new_bytes.push(bytes[j]);
                        j = j + 1;
                    }
                    assert(bytes@.subrange(0, bytes@.len() as int) == bytes@);
                    assert(self.bytes@.subrange(self.byte_offset as int, self.bytes@.len() as int)
                        == self.bytes@.skip(self.byte_offset as int));
                    self.bytes = new_bytes;
                    self.byte_offset = 0;
                } else {
                    let mut new_bytes: Vec<u8> = Vec::new();
                    let mut j: usize = 0;
                    while j < bytes.len()
                        invariant
                            j <= bytes@.len(),
                            new_bytes@ == bytes@.subrange(0, j as int),
                        decreases bytes@.len() - j,
                    {
                        new_bytes.push(bytes[j]);
                        j = j + 1;
                    }
                    assert(bytes@.subrange(0, bytes@.len() as int) == bytes@);
                    self.bytes = new_bytes;
                    self.byte_offset = 0;
                    self.bit_offset = 0;
                }
            },
            None => {},
        }
    }
}

} // verus!
