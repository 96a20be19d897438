//! The mathematical model of a bit stream: a sequence of booleans, packed
//! into bytes with the first bit of the stream in the least significant bit
//! of the first byte.

use vstd::prelude::*;

verus! {

/// Bit `i` of a 32-bit word, counted from the least significant bit.
pub open spec fn bit32(v: u32, i: int) -> bool {
    0 <= i < 32 && (v >> (i as u32)) & 1 == 1
}

/// Bit `i` of a byte, counted from the least significant bit.
pub open spec fn bit8(b: u8, i: int) -> bool {
    0 <= i < 8 && bit32(b as u32, i)
}

/// The word whose lowest `n` bits are set.
pub open spec fn low_mask(n: u32) -> u32 {
    if n >= 32 {
        0xffff_ffffu32
    } else {
        ((1u32 << n) - 1) as u32
    }
}

/// The lowest `n` bits of `v`, least significant first.
pub open spec fn low_bits(v: u32, n: nat) -> Seq<bool> {
    Seq::new(n, |i: int| bit32(v, i))
}

/// The bits of a byte string, in stream order.
pub open spec fn bits_of_bytes(bytes: Seq<u8>) -> Seq<bool> {
    Seq::new(8 * bytes.len(), |i: int| bit8(bytes[i / 8], i % 8))
}

/// The number that a run of bits spells, least significant bit first.
pub open spec fn value_of_bits(bits: Seq<bool>) -> nat
    decreases bits.len(),
{
    if bits.len() == 0 {
        0
    } else {
        (if bits[0] { 1nat } else { 0nat }) + 2 * value_of_bits(bits.drop_first())
    }
}

/// `n` zero bits.
pub open spec fn zero_bits(n: nat) -> Seq<bool> {
    Seq::new(n, |i: int| false)
}

/// The number of padding bits that bring a stream of `len` bits to a whole
/// number of bytes.
pub open spec fn padding_len(len: nat) -> nat {
    ((8 - len % 8) % 8) as nat
}

/// Bit `i` of a stream; positions outside the stream count as zero bits.
pub open spec fn bit_at(bits: Seq<bool>, i: int) -> bool {
    0 <= i < bits.len() && bits[i]
}

/// The weight of bit `k` of a byte if `bits` holds a set bit at `start + k`,
/// else zero.
pub open spec fn bit_weight(bits: Seq<bool>, start: int, k: int) -> int {
    if bit_at(bits, start + k) {
        if k == 0 {
            1
        } else if k == 1 {
            2
        } else if k == 2 {
            4
        } else if k == 3 {
            8
        } else if k == 4 {
            16
        } else if k == 5 {
            32
        } else if k == 6 {
            64
        } else {
            128
        }
    } else {
        0
    }
}

/// The byte made of the eight bits of `bits` that start at `start`; bits past
/// the end count as zero.
pub open spec fn byte_of_bits(bits: Seq<bool>, start: int) -> u8 {
    (bit_weight(bits, start, 0) + bit_weight(bits, start, 1) + bit_weight(bits, start, 2)
        + bit_weight(bits, start, 3) + bit_weight(bits, start, 4) + bit_weight(bits, start, 5)
        + bit_weight(bits, start, 6) + bit_weight(bits, start, 7)) as u8
}

/// The bytes that hold a bit stream, the last one padded with zero bits.
pub open spec fn pack(bits: Seq<bool>) -> Seq<u8> {
    Seq::new(((bits.len() + 7) / 8) as nat, |j: int| byte_of_bits(bits, 8 * j))
}

/// A byte is the sum of its bits, each with its weight.
pub proof fn lemma_byte_from_bits(b: u8)
    by (bit_vector)
    ensures
        b == ((b as u32 >> 0) & 1) * 1 + ((b as u32 >> 1) & 1) * 2 + ((b as u32 >> 2) & 1) * 4 + ((b as u32
            >> 3) & 1) * 8 + ((b as u32 >> 4) & 1) * 16 + ((b as u32 >> 5) & 1) * 32 + ((b as u32
            >> 6) & 1) * 64 + ((b as u32 >> 7) & 1) * 128,
        (b as u32 >> 0) & 1 <= 1,
        (b as u32 >> 1) & 1 <= 1,
        (b as u32 >> 2) & 1 <= 1,
        (b as u32 >> 3) & 1 <= 1,
        (b as u32 >> 4) & 1 <= 1,
        (b as u32 >> 5) & 1 <= 1,
        (b as u32 >> 6) & 1 <= 1,
        (b as u32 >> 7) & 1 <= 1,
{
}

/// A byte is the sum of the weights of its set bits.
pub proof fn lemma_byte_of_bits_of_byte(bits: Seq<bool>, start: int, b: u8)
    requires
        forall|k: int| 0 <= k < 8 ==> bit_at(bits, start + k) == #[trigger] bit8(b, k),
    ensures
        byte_of_bits(bits, start) == b,
{
    lemma_byte_from_bits(b);
    assert(bit_at(bits, start + 0) == bit8(b, 0));
    assert(bit_at(bits, start + 1) == bit8(b, 1));
    assert(bit_at(bits, start + 2) == bit8(b, 2));
    assert(bit_at(bits, start + 3) == bit8(b, 3));
    assert(bit_at(bits, start + 4) == bit8(b, 4));
    assert(bit_at(bits, start + 5) == bit8(b, 5));
    assert(bit_at(bits, start + 6) == bit8(b, 6));
    assert(bit_at(bits, start + 7) == bit8(b, 7));
}

/// A masked word keeps its bits below the mask and has none above.
pub proof fn lemma_bit_of_masked(x: u32, n: u32, i: u32)
    by (bit_vector)
    requires
        i < 32,
    ensures
        (((x & low_mask(n)) >> i) & 1 == 1) == (i < n && (x >> i) & 1 == 1),
        (x & low_mask(n)) & low_mask(n) == x & low_mask(n),
{
}

/// Bit `i` of a word shifted down by `s` is bit `i + s` of the word.
pub proof fn lemma_bit_of_shr(x: u32, s: u32, i: u32)
    by (bit_vector)
    requires
        s < 32,
        i < 32,
    ensures
        (((x >> s) >> i) & 1 == 1) == (i + s < 32 && (x >> ((i + s) as u32)) & 1 == 1),
{
}

/// Where a word of `s` bits is merged with a word placed above it, the bits
/// below `s` are those of the first and the bits from `s` on those of the
/// second.
pub proof fn lemma_bit_of_or_shl(r: u32, x: u32, s: u32, i: u32)
    by (bit_vector)
    requires
        s < 32,
        i < 32,
        r & low_mask(s) == r,
    ensures
        (((r | (x << s)) >> i) & 1 == 1) == (if i < s {
            (r >> i) & 1 == 1
        } else {
            (x >> ((i - s) as u32)) & 1 == 1
        }),
{
}

/// A word of `s` bits merged with a word of `w` bits placed above it has
/// `s + w` bits.
pub proof fn lemma_or_shl_masked(r: u32, x: u32, s: u32, w: u32)
    by (bit_vector)
    requires
        s < 32,
        s + w <= 32,
        r & low_mask(s) == r,
        x & low_mask(w) == x,
    ensures
        (r | (x << s)) & low_mask((s + w) as u32) == r | (x << s),
{
}

/// A byte as a word has eight bits, and fewer when shifted down.
pub proof fn lemma_byte_facts(b: u8, s: u32)
    by (bit_vector)
    requires
        s <= 8,
    ensures
        (b as u32) & low_mask(8) == b as u32,
        ((b as u32) >> s) & low_mask((8 - s) as u32) == (b as u32) >> s,
        ((b as u32) >> s) < 256,
        (b as u32) >> 8 == 0,
        (b as u32) >> 0 == b as u32,
{
}

/// Shifting down twice is shifting down by the sum; no bit is below the
/// empty mask.
pub proof fn lemma_shr_shr(x: u32, a: u32, b: u32)
    by (bit_vector)
    requires
        a + b <= 32,
        x < 256,
    ensures
        (x >> a) >> b == x >> ((a + b) as u32),
        x & low_mask(0) == 0,
        low_mask(0) == 0,
{
}

/// Shifting a byte down gives the same as shifting it as a word.
pub proof fn lemma_u8_shr(b: u8, s: u8)
    by (bit_vector)
    requires
        s < 8,
    ensures
        (b >> s) as u32 == (b as u32) >> (s as u32),
{
}

/// A word with no bit set at or above `n` is the number that its lowest `n`
/// bits spell.
pub proof fn lemma_value_of_low_bits(v: u32, n: nat)
    requires
        n <= 32,
        v & low_mask(n as u32) == v,
    ensures
        value_of_bits(low_bits(v, n)) == v,
    decreases n,
{
    if n == 0 {
        assert(v & low_mask(0) == 0) by (bit_vector);
    } else {
        let m = (n - 1) as u32;
        let n32 = n as u32;
        let w = v >> 1;
        assert(w & low_mask(m) == w && v == (v & 1) + 2 * w && (v & 1 == 1 || v & 1 == 0)) by (bit_vector)
            requires
                1 <= n32 <= 32,
                m == n32 - 1,
                w == v >> 1,
                v & low_mask(n32) == v,
        ;
        lemma_value_of_low_bits(w, (n - 1) as nat);
        assert forall|i: int| 0 <= i < n - 1 implies bit32(w, i) == bit32(v, i + 1) by {
            lemma_bit_of_shr(v, 1, i as u32);
        }
        assert(low_bits(v, n).drop_first() =~= low_bits(w, (n - 1) as nat));
        assert(low_bits(v, n)[0] == bit32(v, 0));
        assert((v >> 0) & 1 == v & 1) by (bit_vector);
    }
}

/// A word of at most eight bits fits a byte.
pub proof fn lemma_fits_byte(x: u32, w: u32)
    by (bit_vector)
    requires
        w <= 8,
        x & low_mask(w) == x,
    ensures
        x < 256,
{
}

/// The lowest `n` bits of a word are its lowest `k` bits followed by the
/// lowest `n - k` bits of the word shifted down by `k`.
pub proof fn lemma_low_bits_split(v: u32, k: nat, n: nat)
    requires
        k <= n <= 32,
        k < 32,
    ensures
        low_bits(v, n) =~= low_bits(v, k) + low_bits(v >> (k as u32), (n - k) as nat),
{
    assert forall|i: int| k <= i < n implies bit32(v, i) == bit32(v >> (k as u32), i - k) by {
        lemma_bit_of_shr(v, k as u32, (i - k) as u32);
    }
}

/// Masking a word to `n` bits keeps its lowest `n` bits.
pub proof fn lemma_low_bits_masked(v: u32, n: nat)
    requires
        n <= 32,
    ensures
        low_bits(v & low_mask(n as u32), n) =~= low_bits(v, n),
{
    assert forall|i: int| 0 <= i < n implies bit32(v & low_mask(n as u32), i) == bit32(v, i) by {
        lemma_bit_of_masked(v, n as u32, i as u32);
    }
}

/// A word of `s` bits merged with a word of `w` bits placed above it holds
/// the bits of the first followed by the bits of the second.
pub proof fn lemma_low_bits_merged(r: u32, x: u32, s: nat, w: nat)
    requires
        s + w <= 32,
        s < 32,
        r & low_mask(s as u32) == r,
    ensures
        low_bits(r | (x << (s as u32)), s + w) =~= low_bits(r, s) + low_bits(x, w),
{
    let m = r | (x << (s as u32));
    let lhs = low_bits(m, s + w);
    let rhs = low_bits(r, s) + low_bits(x, w);
    assert(lhs.len() == rhs.len());
    assert forall|i: int| 0 <= i < s + w implies lhs[i] == rhs[i] by {
        lemma_bit_of_or_shl(r, x, s as u32, i as u32);
        if i < s {
            assert(rhs[i] == bit32(r, i));
        } else {
            assert(rhs[i] == low_bits(x, w)[i - s]);
            assert(rhs[i] == bit32(x, i - s));
        }
    }
}

/// Appending a byte to a byte string appends its eight bits to the stream.
pub proof fn lemma_bits_of_bytes_push(bytes: Seq<u8>, b: u8)
    ensures
        bits_of_bytes(bytes.push(b)) =~= bits_of_bytes(bytes) + low_bits(b as u32, 8),
{
    let lhs = bits_of_bytes(bytes.push(b));
    let rhs = bits_of_bytes(bytes) + low_bits(b as u32, 8);
    assert forall|i: int| 0 <= i < lhs.len() implies lhs[i] == rhs[i] by {
        if i >= 8 * bytes.len() {
            assert(i / 8 == bytes.len());
            assert(i % 8 == i - 8 * bytes.len());
        } else {
            assert(i / 8 < bytes.len());
        }
    }
}

/// Packing a whole number of bytes' worth of bits, followed by the `ql` bits
/// of a partial byte, gives back the bytes, and the partial byte where there
/// is one.
pub proof fn lemma_pack_bytes_and_queue(bytes: Seq<u8>, q: u8, ql: nat)
    requires
        ql < 8,
        (q as u32) & low_mask(ql as u32) == q as u32,
    ensures
        pack(bits_of_bytes(bytes) + low_bits(q as u32, ql)) =~= (if ql > 0 {
            bytes.push(q)
        } else {
            bytes
        }),
{
    let s = bits_of_bytes(bytes) + low_bits(q as u32, ql);
    let expected = if ql > 0 {
        bytes.push(q)
    } else {
        bytes
    };
    let len = bytes.len() as int;
    assert(pack(s).len() == expected.len());
    assert forall|j: int| 0 <= j < expected.len() implies pack(s)[j] == expected[j] by {
        if j < len {
            assert forall|k: int| 0 <= k < 8 implies bit_at(s, 8 * j + k) == #[trigger] bit8(
                bytes[j],
                k,
            ) by {
                assert((8 * j + k) / 8 == j);
                assert((8 * j + k) % 8 == k);
            }
            lemma_byte_of_bits_of_byte(s, 8 * j, bytes[j]);
        } else {
            assert forall|k: int| 0 <= k < 8 implies bit_at(s, 8 * j + k) == #[trigger] bit8(
                q,
                k,
            ) by {
                lemma_bit_of_masked(q as u32, ql as u32, k as u32);
                if k < ql {
                    assert(s[8 * j + k] == low_bits(q as u32, ql)[k]);
                }
            }
            lemma_byte_of_bits_of_byte(s, 8 * j, q);
        }
    }
}

/// The bits of a sum of weights, each zero or a power of two of its own, are
/// set where the weight is not zero.
pub proof fn lemma_bits_of_weights(
    w0: u32,
    w1: u32,
    w2: u32,
    w3: u32,
    w4: u32,
    w5: u32,
    w6: u32,
    w7: u32,
)
    by (bit_vector)
    requires
        w0 == 0 || w0 == 1,
        w1 == 0 || w1 == 2,
        w2 == 0 || w2 == 4,
        w3 == 0 || w3 == 8,
        w4 == 0 || w4 == 16,
        w5 == 0 || w5 == 32,
        w6 == 0 || w6 == 64,
        w7 == 0 || w7 == 128,
    ensures
        w0 + w1 + w2 + w3 + w4 + w5 + w6 + w7 < 256,
        (((w0 + w1 + w2 + w3 + w4 + w5 + w6 + w7) as u32 >> 0) & 1 == 1) == (w0 != 0),
        (((w0 + w1 + w2 + w3 + w4 + w5 + w6 + w7) as u32 >> 1) & 1 == 1) == (w1 != 0),
        (((w0 + w1 + w2 + w3 + w4 + w5 + w6 + w7) as u32 >> 2) & 1 == 1) == (w2 != 0),
        (((w0 + w1 + w2 + w3 + w4 + w5 + w6 + w7) as u32 >> 3) & 1 == 1) == (w3 != 0),
        (((w0 + w1 + w2 + w3 + w4 + w5 + w6 + w7) as u32 >> 4) & 1 == 1) == (w4 != 0),
        (((w0 + w1 + w2 + w3 + w4 + w5 + w6 + w7) as u32 >> 5) & 1 == 1) == (w5 != 0),
        (((w0 + w1 + w2 + w3 + w4 + w5 + w6 + w7) as u32 >> 6) & 1 == 1) == (w6 != 0),
        (((w0 + w1 + w2 + w3 + w4 + w5 + w6 + w7) as u32 >> 7) & 1 == 1) == (w7 != 0),
{
}

/// The bits of a packed byte are the bits it was made of.
pub proof fn lemma_bits_of_byte_of_bits(bits: Seq<bool>, start: int, k: int)
    requires
        0 <= k < 8,
    ensures
        bit8(byte_of_bits(bits, start), k) == bit_at(bits, start + k),
{
    lemma_bits_of_weights(
        bit_weight(bits, start, 0) as u32,
        bit_weight(bits, start, 1) as u32,
        bit_weight(bits, start, 2) as u32,
        bit_weight(bits, start, 3) as u32,
        bit_weight(bits, start, 4) as u32,
        bit_weight(bits, start, 5) as u32,
        bit_weight(bits, start, 6) as u32,
        bit_weight(bits, start, 7) as u32,
    );
}

/// Unpacking what `pack` made gives the stream back, followed by the zero
/// bits that fill its last byte.
pub proof fn lemma_bits_of_pack(bits: Seq<bool>)
    ensures
        pack(bits).len() == (bits.len() + 7) / 8,
        bits_of_bytes(pack(bits)) =~= bits + zero_bits(padding_len(bits.len())),
{
    let lhs = bits_of_bytes(pack(bits));
    let rhs = bits + zero_bits(padding_len(bits.len()));
    assert(lhs.len() == rhs.len());
    assert forall|i: int| 0 <= i < lhs.len() implies lhs[i] == rhs[i] by {
        lemma_bits_of_byte_of_bits(bits, 8 * (i / 8), i % 8);
        assert(8 * (i / 8) + i % 8 == i);
    }
}

/// The stream that results from writing, chunk by chunk, the lowest `width`
/// bits of each `(bits, width)` pair.
pub open spec fn written_stream(chunks: Seq<(u32, u8)>) -> Seq<bool>
    decreases chunks.len(),
{
    if chunks.len() == 0 {
        Seq::<bool>::empty()
    } else {
        written_stream(chunks.drop_last()) + low_bits(chunks.last().0, chunks.last().1 as nat)
    }
}

/// The position in the written stream at which chunk `k` starts.
pub open spec fn chunk_offset(chunks: Seq<(u32, u8)>, k: int) -> nat {
    written_stream(chunks.take(k)).len()
}

/// The written stream holds the bits of chunk `k` where the chunk starts.
proof fn lemma_written_stream_chunk(chunks: Seq<(u32, u8)>, k: int)
    requires
        0 <= k < chunks.len(),
    ensures
        chunk_offset(chunks, k) + chunks[k].1 <= written_stream(chunks).len(),
        written_stream(chunks).subrange(
            chunk_offset(chunks, k) as int,
            chunk_offset(chunks, k) + chunks[k].1,
        ) =~= low_bits(chunks[k].0, chunks[k].1 as nat),
    decreases chunks.len(),
{
    let front = chunks.drop_last();
    if k == chunks.len() - 1 {
        assert(chunks.take(k) =~= front);
    } else {
        lemma_written_stream_chunk(front, k);
        assert(front.take(k) =~= chunks.take(k));
    }
}

/// Round trip of the bit stream: when chunks of at most 32 bits each are
/// written one after another and the stream is packed into bytes, there are
/// as many bytes as the bits need, and the run of bits that starts where
/// chunk `k` was written, and is as long, spells the lowest bits of that
/// chunk.
pub proof fn law_bit_stream_round_trip(chunks: Seq<(u32, u8)>, k: int)
    requires
        forall|j: int| 0 <= j < chunks.len() ==> (#[trigger] chunks[j]).1 <= 32,
        0 <= k < chunks.len(),
    ensures
        pack(written_stream(chunks)).len() == (written_stream(chunks).len() + 7) / 8,
        chunk_offset(chunks, k) + chunks[k].1 <= 8 * pack(written_stream(chunks)).len(),
        value_of_bits(
            bits_of_bytes(pack(written_stream(chunks))).subrange(
                chunk_offset(chunks, k) as int,
                chunk_offset(chunks, k) + chunks[k].1,
            ),
        ) == chunks[k].0 & low_mask(chunks[k].1 as u32),
{
    let stream = written_stream(chunks);
    let off = chunk_offset(chunks, k) as int;
    let v = chunks[k].0;
    let n = chunks[k].1 as nat;
    lemma_bits_of_pack(stream);
    lemma_written_stream_chunk(chunks, k);
    assert(bits_of_bytes(pack(stream)).subrange(off, off + n) =~= stream.subrange(off, off + n));
    lemma_low_bits_masked(v, n);
    lemma_bit_of_masked(v, n as u32, 0);
    lemma_value_of_low_bits(v & low_mask(n as u32), n);
}

/// Two to the power `n`.
pub open spec fn pow2(n: nat) -> nat
    decreases n,
{
    if n == 0 {
        1
    } else {
        2 * pow2((n - 1) as nat)
    }
}

/// A run of bits spells the number of its first part plus the number of the
/// rest, shifted up by the length of the first part.
pub proof fn lemma_value_of_bits_concat(a: Seq<bool>, b: Seq<bool>)
    ensures
        value_of_bits(a + b) == value_of_bits(a) + pow2(a.len()) * value_of_bits(b),
    decreases a.len(),
{
    if a.len() == 0 {
        assert(a + b =~= b);
        assert(pow2(0) == 1);
        assert(value_of_bits(a) == 0);
    } else {
        lemma_value_of_bits_concat(a.drop_first(), b);
        assert((a + b).drop_first() =~= a.drop_first() + b);
        assert((a + b)[0] == a[0]);
        let p = pow2((a.len() - 1) as nat) as int;
        let vb = value_of_bits(b) as int;
        assert(2 * (p * vb) == (2 * p) * vb) by (nonlinear_arith);
        assert(pow2(a.len()) == 2 * p);
        assert(value_of_bits(a.drop_first() + b) == value_of_bits(a.drop_first()) + p * vb);
        assert(value_of_bits(a + b) == (if a[0] { 1nat } else { 0nat }) + 2 * value_of_bits(
            a.drop_first() + b,
        ));
        assert(value_of_bits(a) == (if a[0] { 1nat } else { 0nat }) + 2 * value_of_bits(
            a.drop_first(),
        ));
        assert(pow2(a.len()) * value_of_bits(b) == (2 * p) * vb);
    }
}

/// Two to the power 32.
pub proof fn lemma_pow2_32()
    ensures
        pow2(32) == 0x1_0000_0000,
{
    reveal_with_fuel(pow2, 33);
}

/// Two to the power of a sum is the product of the powers.
pub proof fn lemma_pow2_add(a: nat, b: nat)
    ensures
        pow2(a + b) == pow2(a) * pow2(b),
    decreases a,
{
    if a > 0 {
        lemma_pow2_add((a - 1) as nat, b);
        let p = pow2((a - 1) as nat) as int;
        let q = pow2(b) as int;
        assert(2 * (p * q) == (2 * p) * q) by (nonlinear_arith);
        assert((a + b - 1) as nat == (a - 1) as nat + b);
        assert(pow2(a + b) == 2 * pow2((a + b - 1) as nat));
        assert(pow2(a) == 2 * p);
    } else {
        assert(pow2(0) == 1);
        assert(pow2(a + b) == pow2(b));
    }
}

/// Shifting down by one halves; the lowest bit is the remainder.
pub proof fn lemma_half(v: u32)
    by (bit_vector)
    ensures
        v >> 1 == v / 2,
        v & 1 == v % 2,
        ((v >> 0) & 1 == 1) == (v % 2 == 1),
{
}

/// The lowest `width` bits of a number below two to the power `width`
/// spell the number.
pub proof fn lemma_value_of_low_bits_of(k: nat, width: nat)
    requires
        width <= 32,
        k < pow2(width),
    ensures
        k <= u32::MAX,
        value_of_bits(low_bits(k as u32, width)) == k,
    decreases width,
{
    lemma_pow2_32();
    lemma_pow2_bound(width, 32);
    let v = k as u32;
    if width == 0 {
        assert(low_bits(v, 0) =~= Seq::<bool>::empty());
    } else {
        lemma_half(v);
        lemma_value_of_low_bits_of(k / 2, (width - 1) as nat);
        lemma_low_bits_split(v, 1, width);
        assert(low_bits(v, 1) =~= seq![bit32(v, 0)]);
        assert((seq![bit32(v, 0)] + low_bits(v >> 1, (width - 1) as nat)).drop_first()
            =~= low_bits(v >> 1, (width - 1) as nat));
        assert(low_bits(v, width)[0] == bit32(v, 0));
    }
}

/// The powers of two are positive and grow.
pub proof fn lemma_pow2_bound(a: nat, b: nat)
    requires
        a <= b,
    ensures
        1 <= pow2(a) <= pow2(b),
    decreases b,
{
    if a < b {
        lemma_pow2_bound(a, (b - 1) as nat);
    } else if a > 0 {
        lemma_pow2_bound((a - 1) as nat, (b - 1) as nat);
    }
}

/// The bits of two byte strings, one after the other, are the bits of the
/// first followed by the bits of the second.
pub proof fn lemma_bits_of_bytes_concat(first: Seq<u8>, second: Seq<u8>)
    ensures
        bits_of_bytes(first + second) =~= bits_of_bytes(first) + bits_of_bytes(second),
{
    let lhs = bits_of_bytes(first + second);
    let rhs = bits_of_bytes(first) + bits_of_bytes(second);
    assert forall|i: int| 0 <= i < lhs.len() implies lhs[i] == rhs[i] by {
        if i >= 8 * first.len() {
            assert(i / 8 >= first.len());
            assert((i - 8 * first.len()) / 8 == i / 8 - first.len());
            assert((i - 8 * first.len()) % 8 == i % 8);
        } else {
            assert(i / 8 < first.len());
        }
    }
}

} // verus!
