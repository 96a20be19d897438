//! Reading runs of bits from a byte string.

use crate::bits::{
    bit32, bits_of_bytes, lemma_bit_of_masked, lemma_bit_of_or_shl, lemma_bit_of_shr,
    lemma_byte_facts, lemma_or_shl_masked, lemma_shr_shr, lemma_u8_shr, lemma_value_of_low_bits,
    low_bits, low_mask, value_of_bits,
};
use vstd::prelude::*;

verus! {

/// A cursor over the bits of a byte string.  Bits are taken from each byte
/// starting with the least significant one.
#[derive(Clone, Copy)]
pub struct BitReader<'a> {
    slice: &'a [u8],
    queue: u8,
    queue_length: u8,
    bytes_consumed: usize,
}

/// The word with the lowest `n` bits set.
pub(crate) fn mask32(n: u8) -> (m: u32)
    ensures
        m == low_mask(n as u32),
{
    if n >= 32 {
        u32::MAX
    } else {
        assert((1u32 << n) >= 1) by (bit_vector)
            requires
                n < 32,
        ;
        (1u32 << n) - 1
    }
}

impl<'a> BitReader<'a> {
    /// The bytes that the reader works on.
    pub closed spec fn bytes(&self) -> Seq<u8> {
        self.slice@
    }

    /// The number of bits taken so far.
    pub closed spec fn bit_pos(&self) -> nat {
        (8 * self.bytes_consumed - self.queue_length) as nat
    }

    /// The bits that were not yet taken from the last byte fetched wait in the
    /// queue, lowest first.
    pub closed spec fn wf(&self) -> bool {
        &&& self.bytes_consumed <= self.slice@.len()
        &&& self.queue_length < 8
        &&& self.queue_length > 0 ==> self.bytes_consumed > 0 && self.queue as u32 == (
        self.slice@[self.bytes_consumed - 1] as u32) >> ((8 - self.queue_length) as u32)
        &&& self.queue_length == 0 ==> self.queue == 0
    }

    /// A reader at the first bit of `slice`.
    pub fn new(slice: &'a [u8]) -> (reader: BitReader<'a>)
        ensures
            reader.wf(),
            reader.bytes() == slice@,
            reader.bit_pos() == 0,
    {
        BitReader { slice, queue: 0, queue_length: 0, bytes_consumed: 0 }
    }

    /// Fetches the next byte, if there is one.
    fn read_byte(&mut self) -> (r: Option<u8>)
        requires
            old(self).bytes_consumed <= old(self).slice@.len(),
        ensures
            final(self).slice == old(self).slice,
            final(self).queue == old(self).queue,
            final(self).queue_length == old(self).queue_length,
            match r {
                Some(byte) => {
                    &&& old(self).bytes_consumed < old(self).slice@.len()
                    &&& final(self).bytes_consumed == old(self).bytes_consumed + 1
                    &&& byte == old(self).slice@[old(self).bytes_consumed as int]
                },
                None => {
                    &&& old(self).bytes_consumed == old(self).slice@.len()
                    &&& final(self).bytes_consumed == old(self).bytes_consumed
                },
            },
    {
        if self.bytes_consumed < self.slice.len() {
            let byte = self.slice[self.bytes_consumed];
            self.bytes_consumed = self.bytes_consumed + 1;
            Some(byte)
        } else {
            None
        }
    }

    /// Takes the next `n_bits` bits and returns the number they spell, the
    /// first bit being the least significant.  When fewer than `n_bits` bits
    /// are left, returns `None` and leaves the reader at the end of the bytes.
    pub fn read_bits(&mut self, n_bits: u8) -> (r: Option<u32>)
        requires
            old(self).wf(),
            n_bits <= 32,
        ensures
            final(self).wf(),
            final(self).bytes() == old(self).bytes(),
            match r {
                Some(v) => {
                    &&& old(self).bit_pos() + n_bits <= 8 * old(self).bytes().len()
                    &&& final(self).bit_pos() == old(self).bit_pos() + n_bits
                    &&& v == value_of_bits(
                        bits_of_bytes(old(self).bytes()).subrange(
                            old(self).bit_pos() as int,
                            old(self).bit_pos() + n_bits,
                        ),
                    )
                },
                None => {
                    &&& old(self).bit_pos() + n_bits > 8 * old(self).bytes().len()
                    &&& final(self).bit_pos() == 8 * old(self).bytes().len()
                },
            },
    {
        let ghost pos0 = self.bit_pos() as int;
        let ghost stream = bits_of_bytes(self.slice@);
        let ghost bytes = self.slice@;
        let ghost ql0 = self.queue_length as int;
        let ghost q0 = self.queue as u32;
        let got0: u8 = if n_bits < self.queue_length {
            n_bits
        } else {
            self.queue_length
        };
        let mut result: u32 = (self.queue as u32) & mask32(got0);
        proof {
            lemma_bit_of_masked(q0, got0 as u32, 0);
            assert forall|i: int| 0 <= i < got0 implies bit32(result, i) == stream[pos0 + i] by {
                let last = bytes[self.bytes_consumed - 1];
                lemma_bit_of_masked(q0, got0 as u32, i as u32);
                lemma_bit_of_shr(last as u32, (8 - ql0) as u32, i as u32);
                assert((pos0 + i) / 8 == self.bytes_consumed - 1);
                assert((pos0 + i) % 8 == i + 8 - ql0);
            }
            if ql0 > 0 {
                let last = bytes[self.bytes_consumed - 1];
                lemma_shr_shr(last as u32, (8 - ql0) as u32, got0 as u32);
                lemma_byte_facts(last, (8 - ql0) as u32);
                assert((self.queue as u32) >> (got0 as u32) == (last as u32) >> ((8 - ql0 + got0) as u32));
            } else {
                lemma_byte_facts(self.queue, 0);
            }
            lemma_u8_shr(self.queue, got0);
        }
        self.queue = self.queue >> got0;
        self.queue_length = self.queue_length - got0;
        let mut got: u8 = got0;
        while n_bits - got >= 8
            invariant
                self.wf(),
                self.slice@ == bytes,
                bytes == old(self).slice@,
                pos0 == old(self).bit_pos(),
                stream == bits_of_bytes(bytes),
                got0 <= got <= n_bits <= 32,
                got > got0 ==> self.queue_length == 0,
                got0 < n_bits ==> self.queue_length == 0,
                self.bit_pos() == pos0 + got,
                result & low_mask(got as u32) == result,
                forall|i: int| 0 <= i < got ==> bit32(result, i) == stream[pos0 + i],
                pos0 + got <= 8 * bytes.len(),
            decreases n_bits - got,
        {
            match self.read_byte() {
                None => {
                    return None;
                },
                Some(byte) => {
                    let ghost prev = result;
                    result = result | ((byte as u32) << (got as u32));
                    proof {
                        lemma_byte_facts(byte, 0);
                        lemma_or_shl_masked(prev, byte as u32, got as u32, 8);
                        assert(pos0 + got == 8 * (self.bytes_consumed - 1));
                        assert forall|i: int| 0 <= i < got + 8 implies bit32(result, i)
                            == stream[pos0 + i] by {
                            lemma_bit_of_or_shl(prev, byte as u32, got as u32, i as u32);
                            if i >= got {
                                assert((pos0 + i) / 8 == self.bytes_consumed - 1);
                                assert((pos0 + i) % 8 == i - got);
                                assert(bit32(result, i) == bit32(byte as u32, i - got));
                            } else {
                                assert(bit32(result, i) == bit32(prev, i));
                            }
                        }
                    }
                    got = got + 8;
                },
            }
        }
        let remainder = n_bits - got;
        if remainder > 0 {
            match self.read_byte() {
                None => {
                    return None;
                },
                Some(byte) => {
                    let ghost prev = result;
                    let part: u32 = (byte as u32) & mask32(remainder);
                    self.queue_length = 8 - remainder;
                    result = result | (part << (got as u32));
                    self.queue = byte >> remainder;
                    proof {
                        lemma_bit_of_masked(byte as u32, remainder as u32, 0);
                        lemma_or_shl_masked(prev, part, got as u32, remainder as u32);
                        assert(pos0 + got == 8 * (self.bytes_consumed - 1));
                        assert forall|i: int| 0 <= i < n_bits implies bit32(result, i)
                            == stream[pos0 + i] by {
                            lemma_bit_of_or_shl(prev, part, got as u32, i as u32);
                            if i >= got {
                                lemma_bit_of_masked(byte as u32, remainder as u32, (i - got) as u32);
                                assert((pos0 + i) / 8 == self.bytes_consumed - 1);
                                assert((pos0 + i) % 8 == i - got);
                                assert(bit32(part, i - got) == bit32(byte as u32, i - got));
                                assert(bit32(result, i) == bit32(part, i - got));
                            } else {
                                assert(bit32(result, i) == bit32(prev, i));
                            }
                        }
                        lemma_u8_shr(byte, remainder);
                        lemma_byte_facts(byte, remainder as u32);
                    }
                },
            }
        }
        proof {
            lemma_value_of_low_bits(result, n_bits as nat);
            assert(low_bits(result, n_bits as nat) =~= stream.subrange(pos0, pos0 + n_bits));
        }
        Some(result)
    }

    /// The number of bytes from which at least one bit was taken.
    pub fn bytes_consumed(&self) -> (n: usize)
        requires
            self.wf(),
        ensures
            n == (self.bit_pos() + 7) / 8,
    {
        self.bytes_consumed
    }
}

} // verus!
