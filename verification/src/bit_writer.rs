//! Writing runs of bits into a byte string.

use crate::bit_reader::mask32;
use crate::bits::{
    bits_of_bytes, lemma_bit_of_masked, lemma_bits_of_bytes_push, lemma_fits_byte,
    lemma_low_bits_masked, lemma_low_bits_merged, lemma_low_bits_split, lemma_or_shl_masked,
    lemma_pack_bytes_and_queue, lemma_shr_shr, low_bits, low_mask, pack,
};
use vstd::prelude::*;

verus! {

/// Appends runs of bits to a byte string.  Each byte is filled from its least
/// significant bit; the bits of a byte that is not yet full wait in a queue.
pub struct BitWriter {
    queue: u8,
    queue_length: u8,
    output: Vec<u8>,
}

impl BitWriter {
    /// Fewer than eight bits wait in the queue, and the queue holds nothing
    /// above them.
    pub closed spec fn wf(&self) -> bool {
        &&& self.queue_length < 8
        &&& (self.queue as u32) & low_mask(self.queue_length as u32) == self.queue as u32
    }

    /// All the bits written so far: those of the bytes already in the output,
    /// then those that wait in the queue.
    pub closed spec fn stream(&self) -> Seq<bool> {
        bits_of_bytes(self.output@) + low_bits(self.queue as u32, self.queue_length as nat)
    }

    /// A writer that appends to `output`, whose bytes count as already
    /// written.
    pub fn new(output: Vec<u8>) -> (writer: BitWriter)
        ensures
            writer.wf(),
            writer.stream() == bits_of_bytes(output@),
    {
        proof {
            lemma_shr_shr(0, 0, 0);
            assert(bits_of_bytes(output@) + low_bits(0u32, 0) =~= bits_of_bytes(output@));
        }
        BitWriter { queue: 0, queue_length: 0, output }
    }

    /// Appends the lowest `n_bits` bits of `bits` to the stream, least
    /// significant first.
    pub fn add_bits(&mut self, bits: u32, n_bits: u8)
        requires
            old(self).wf(),
            n_bits <= 32,
        ensures
            final(self).wf(),
            final(self).stream() == old(self).stream() + low_bits(bits, n_bits as nat),
    {
        let ghost stream0 = self.stream();
        let ghost out0 = self.output@;
        let ghost q0 = self.queue as u32;
        let ghost ql0 = self.queue_length as nat;
        let mut bits = bits;
        let mut n_bits = n_bits;
        let ghost bits0 = bits;
        let ghost n0 = n_bits as nat;
        if n_bits == 0 {
            assert(stream0 + low_bits(bits, 0) =~= stream0);
            return ;
        }
        if self.queue_length > 0 {
            let align_bits: u8 = 8 - self.queue_length;
            if align_bits > n_bits {
                let part: u32 = bits & mask32(n_bits);
                let merged: u32 = (self.queue as u32) | (part << (self.queue_length as u32));
                proof {
                    lemma_bit_of_masked(bits, n_bits as u32, 0);
                    lemma_or_shl_masked(q0, part, ql0 as u32, n_bits as u32);
                    lemma_fits_byte(merged, (ql0 + n_bits) as u32);
                    lemma_low_bits_merged(q0, part, ql0, n_bits as nat);
                    lemma_low_bits_masked(bits, n_bits as nat);
                    assert(bits_of_bytes(out0) + (low_bits(q0, ql0) + low_bits(bits, n0)) =~= (
                    bits_of_bytes(out0) + low_bits(q0, ql0)) + low_bits(bits, n0));
                }
                self.queue = merged as u8;
                self.queue_length = self.queue_length + n_bits;
                return ;
            }
            let part: u32 = bits & mask32(align_bits);
            let merged: u32 = (self.queue as u32) | (part << (self.queue_length as u32));
            proof {
                lemma_bit_of_masked(bits, align_bits as u32, 0);
                lemma_or_shl_masked(q0, part, ql0 as u32, align_bits as u32);
                lemma_fits_byte(merged, 8);
                lemma_low_bits_merged(q0, part, ql0, align_bits as nat);
                lemma_low_bits_masked(bits, align_bits as nat);
                lemma_bits_of_bytes_push(out0, merged as u8);
                lemma_low_bits_split(bits, align_bits as nat, n0);
                lemma_shr_shr(0, 0, 0);
            }
            self.output.push(merged as u8);
            n_bits = n_bits - align_bits;
            bits = bits >> align_bits;
            self.queue = 0;
            self.queue_length = 0;
            assert(bits_of_bytes(self.output@) + low_bits(bits, n_bits as nat) =~= stream0
                + low_bits(bits0, n0));
        } else {
            proof {
                lemma_shr_shr(self.queue as u32, 0, 0);
            }
            assert(bits_of_bytes(self.output@) =~= stream0);
        }
        while n_bits >= 8
            invariant
                n_bits <= 32,
                self.queue == 0,
                self.queue_length == 0,
                bits_of_bytes(self.output@) + low_bits(bits, n_bits as nat) == stream0 + low_bits(
                    bits0,
                    n0,
                ),
            decreases n_bits,
        {
            let byte: u32 = bits & mask32(8);
            proof {
                lemma_bit_of_masked(bits, 8, 0);
                lemma_fits_byte(byte, 8);
                lemma_bits_of_bytes_push(self.output@, byte as u8);
                lemma_low_bits_masked(bits, 8);
                lemma_low_bits_split(bits, 8, n_bits as nat);
                assert((bits_of_bytes(self.output@) + low_bits(bits, 8)) + low_bits(
                    bits >> 8u32,
                    (n_bits - 8) as nat,
                ) =~= bits_of_bytes(self.output@) + low_bits(bits, n_bits as nat));
            }
            self.output.push(byte as u8);
            bits = if n_bits > 8 {
                bits >> 8
            } else {
                0
            };
            n_bits = n_bits - 8;
            assert(bits_of_bytes(self.output@) + low_bits(bits, n_bits as nat) =~= stream0
                + low_bits(bits0, n0));
        }
        let rest: u32 = bits & mask32(n_bits);
        proof {
            lemma_bit_of_masked(bits, n_bits as u32, 0);
            lemma_fits_byte(rest, n_bits as u32);
            lemma_low_bits_masked(bits, n_bits as nat);
        }
        self.queue_length = n_bits;
        self.queue = rest as u8;
    }

    /// Ends the stream: the bits that wait in the queue go out in a last
    /// byte, padded with zero bits.  Returns the bytes written.
    pub fn done(self) -> (output: Vec<u8>)
        requires
            self.wf(),
        ensures
            output@ == pack(self.stream()),
    {
        let mut output = self.output;
        proof {
            lemma_pack_bytes_and_queue(output@, self.queue, self.queue_length as nat);
        }
        if self.queue_length > 0 {
            output.push(self.queue);
        }
        output
    }
}

} // verus!
