//! Reading a compiled dictionary: a length header of four bytes, then a trie
//! of characters whose terminators carry the variants of a word.

use crate::bit_reader::BitReader;
use crate::bits::{bits_of_bytes, lemma_pow2_32, lemma_value_of_bits_concat, pow2, value_of_bits};
use crate::text::chars_to_string;
use vstd::prelude::*;
use vstd::slice::slice_subrange;
use vstd::std_specs::bits::u8_leading_ones;
use vstd::utf8::{decode_utf8, encode_utf8, valid_utf8};

verus! {

/// What can be wrong with the bytes of a dictionary.
#[derive(Debug, Clone, Copy, PartialEq, Eq, Structural)]
pub enum Error {
    UnexpectedEof,
    InvalidLengthHeader,
    OffsetTooLong,
    InvalidCharacter,
    ChildIndexOutOfRange,
}

impl Error {
    /// What is wrong, in words.
    pub fn to_string(&self) -> (message: String)
        ensures
            message@ == (match self {
                Error::UnexpectedEof => "unexpected EOF"@,
                Error::InvalidLengthHeader => "invalid length header"@,
                Error::OffsetTooLong => "offset too long"@,
                Error::InvalidCharacter => "invalid character"@,
                Error::ChildIndexOutOfRange => "child index out of range"@,
            }),
    {
        match self {
            Error::UnexpectedEof => "unexpected EOF".to_owned(),
            Error::InvalidLengthHeader => "invalid length header".to_owned(),
            Error::OffsetTooLong => "offset too long".to_owned(),
            Error::InvalidCharacter => "invalid character".to_owned(),
            Error::ChildIndexOutOfRange => "child index out of range".to_owned(),
        }
    }
}

/// 128 to the power `n`.
pub open spec fn pow128(n: nat) -> nat
    decreases n,
{
    if n == 0 {
        1
    } else {
        128 * pow128((n - 1) as nat)
    }
}

/// The powers of 128 up to the ninth.
pub proof fn lemma_pow128_values()
    ensures
        pow128(0) == 1,
        pow128(1) == 0x80,
        pow128(2) == 0x4000,
        pow128(3) == 0x20_0000,
        pow128(4) == 0x1000_0000,
        pow128(5) == 0x8_0000_0000,
        pow128(6) == 0x400_0000_0000,
        pow128(7) == 0x2_0000_0000_0000,
        pow128(8) == 0x100_0000_0000_0000,
        pow128(9) == 0x8000_0000_0000_0000,
{
    reveal_with_fuel(pow128, 10);
}

/// The number whose variable-length encoding starts at `pos`, read from its
/// byte `i` on, and the number of bytes of the whole encoding.  Each byte
/// holds seven bits, the lowest first; its top bit says that another byte
/// follows.  An encoding that needs more bits than a machine word has is
/// refused.
pub open spec fn spec_offset_from(buf: Seq<u8>, pos: int, i: nat) -> Result<(nat, nat), Error>
    decreases buf.len() - pos - i,
{
    if pos < 0 || pos + i >= buf.len() {
        Err(Error::UnexpectedEof)
    } else if (i + 1) * 7 > usize::BITS {
        Err(Error::OffsetTooLong)
    } else if buf[pos + i] < 0x80 {
        Ok((buf[pos + i] as nat, i + 1))
    } else {
        match spec_offset_from(buf, pos, i + 1) {
            Ok((v, n)) => Ok(((buf[pos + i] - 0x80 + 128 * v) as nat, n)),
            Err(e) => Err(e),
        }
    }
}

/// The number at the front of the node that starts at `pos`, and the number
/// of bytes it takes.
pub open spec fn spec_read_header_number(buf: Seq<u8>, pos: int) -> Result<(usize, usize), Error> {
    match spec_offset_from(buf, pos, 0) {
        Ok((v, n)) => Ok((v as usize, n as usize)),
        Err(e) => Err(e),
    }
}

/// What the number at the front of the node at `pos` says: the distance from
/// the end of the number to the next sibling, which is the number without
/// its lowest bit; whether the node has children, which is that bit; and the
/// number of bytes that the number takes.
pub open spec fn spec_read_sibling_offset(buf: Seq<u8>, pos: int) -> Result<
    (usize, bool, usize),
    Error,
> {
    match spec_read_header_number(buf, pos) {
        Ok((number, len)) => Ok(((number / 2) as usize, number % 2 == 1, len)),
        Err(e) => Err(e),
    }
}

/// An encoding that was read from byte `i` on is shorter than ten bytes and
/// spells a number that, put above `7 * i` bits, fits a machine word.
pub proof fn lemma_offset_bounds(buf: Seq<u8>, pos: int, i: nat)
    requires
        i <= 9,
    ensures
        spec_offset_from(buf, pos, i) matches Ok((v, n)) ==> {
            &&& i < n <= 9
            &&& n * 7 <= usize::BITS
            &&& pos + n <= buf.len()
            &&& v < pow128((n - i) as nat)
        },
    decreases buf.len() - pos - i,
{
    lemma_pow128_values();
    if pos < 0 || pos + i >= buf.len() {
    } else if (i + 1) * 7 > usize::BITS {
    } else if buf[pos + i] < 0x80 {
    } else {
        lemma_offset_bounds(buf, pos, i + 1);
    }
}

/// The low seven bits of a byte, and what its top bit says.
pub proof fn lemma_low_seven(byte: u8)
    by (bit_vector)
    ensures
        byte & 0x7f == byte % 128,
        (byte & 0x80 == 0) == (byte < 0x80),
        byte >= 0x80 ==> byte & 0x7f == byte - 0x80,
        byte < 0x80 ==> byte & 0x7f == byte,
{
}

/// Reads the number at `pos`, which is in the variable-length encoding.
pub fn read_header_number(buf: &[u8], pos: usize) -> (r: Result<(usize, usize), Error>)
    ensures
        r == spec_read_header_number(buf@, pos as int),
        r matches Ok((number, len)) ==> 1 <= len <= 9 && pos + len <= buf@.len(),
{
    let mut offset: u64 = 0;
    let mut mult: u64 = 1;
    let mut len: usize = 0;
    proof {
        lemma_pow128_values();
    }
    while pos < buf.len() && len < buf.len() - pos
        invariant
            len <= 9,
            len * 7 <= usize::BITS,
            len < 9 ==> mult == pow128(len as nat),
            offset < pow128(len as nat),
            spec_offset_from(buf@, pos as int, 0) == (match spec_offset_from(
                buf@,
                pos as int,
                len as nat,
            ) {
                Ok((v, n)) => Ok::<(nat, nat), Error>(((offset + pow128(len as nat) * v) as nat, n)),
                Err(e) => Err(e),
            }),
        decreases buf.len() - pos - len,
    {
        if (len + 1) * 7 > usize::BITS as usize {
            return Err(Error::OffsetTooLong);
        }
        let byte = buf[pos + len];
        proof {
            lemma_low_seven(byte);
            lemma_pow128_values();
            reveal_with_fuel(pow128, 2);
            lemma_offset_bounds(buf@, pos as int, (len + 1) as nat);
            let p = pow128(len as nat) as int;
            if byte >= 0x80 {
                match spec_offset_from(buf@, pos as int, (len + 1) as nat) {
                    Ok((v, n)) => {
                        assert(offset + p * ((byte - 0x80) + 128 * v) == (offset + (byte - 0x80)
                            * p) + (128 * p) * v) by (nonlinear_arith);
                    },
                    Err(e) => {},
                }
            } else {
                assert(p * byte == byte * p) by (nonlinear_arith);
            }
            assert((byte & 0x7f) * p <= 127 * p) by (nonlinear_arith)
                requires
                    (byte & 0x7f) <= 127,
                    p > 0,
            ;
        }
        offset = offset + ((byte & 0x7f) as u64) * mult;
        len = len + 1;
        if byte & 0x80 == 0 {
            proof {
                lemma_offset_bounds(buf@, pos as int, 0);
            }
            return Ok((offset as usize, len));
        }
        if len < 9 {
            mult = mult * 128;
        }
    }
    Err(Error::UnexpectedEof)
}

/// Reads the number at the front of the node at `pos` and takes it apart:
/// the distance to the next sibling, whether the node has children, and the
/// number of bytes read.
pub fn read_sibling_offset(buf: &[u8], pos: usize) -> (r: Result<(usize, bool, usize), Error>)
    ensures
        r == spec_read_sibling_offset(buf@, pos as int),
        r matches Ok((offset, has_child, len)) ==> 1 <= len <= 9 && pos + len <= buf@.len(),
{
    match read_header_number(buf, pos) {
        Ok((number, len)) => Ok((number / 2, number % 2 == 1, len)),
        Err(e) => Err(e),
    }
}

/// `std::str::from_utf8`: the bytes as a string slice where they are valid
/// UTF-8, and nothing where they are not.
#[verifier::external_body]
pub(crate) fn str_from_utf8(bytes: &[u8]) -> (r: Option<&str>)
    ensures
        r is Some <==> valid_utf8(bytes@),
        r matches Some(s) ==> encode_utf8(s@) == bytes@,
{
    std::str::from_utf8(bytes).ok()
}

/// The length that the first byte of a character announces: the number of
/// its leading one bits, and one where there is none.
pub open spec fn spec_utf8_len(first: u8) -> usize {
    if u8_leading_ones(first) == 0 {
        1
    } else {
        u8_leading_ones(first) as usize
    }
}

/// The character whose UTF-8 encoding starts at `pos`, and the number of
/// bytes it takes.
pub open spec fn spec_read_character(buf: Seq<u8>, pos: int) -> Result<(char, usize), Error> {
    if pos < 0 || pos >= buf.len() {
        Err(Error::UnexpectedEof)
    } else if pos + spec_utf8_len(buf[pos]) > buf.len() {
        Err(Error::UnexpectedEof)
    } else if valid_utf8(buf.subrange(pos, pos + spec_utf8_len(buf[pos]))) {
        Ok(
            (
                decode_utf8(buf.subrange(pos, pos + spec_utf8_len(buf[pos])))[0],
                spec_utf8_len(buf[pos]),
            ),
        )
    } else {
        Err(Error::InvalidCharacter)
    }
}

/// Reads the character at `pos`.
pub fn read_character(buf: &[u8], pos: usize) -> (r: Result<(char, usize), Error>)
    ensures
        r == spec_read_character(buf@, pos as int),
        r matches Ok((ch, n)) ==> 1 <= n <= 8 && pos + n <= buf@.len(),
{
    if pos >= buf.len() {
        return Err(Error::UnexpectedEof);
    }
    let byte = buf[pos];
    let ones = byte.leading_ones();
    proof {
        vstd::std_specs::bits::axiom_u8_leading_ones(byte);
    }
    let utf8_len: usize = if ones == 0 {
        1
    } else {
        ones as usize
    };
    if utf8_len > buf.len() - pos {
        return Err(Error::UnexpectedEof);
    }
    let ch_data = slice_subrange(buf, pos, pos + utf8_len);
    match str_from_utf8(ch_data) {
        None => Err(Error::InvalidCharacter),
        Some(s) => {
            proof {
                vstd::utf8::encode_utf8_decode_utf8(s@);
                if s@.len() == 0 {
                    assert(encode_utf8(s@).len() == 0);
                }
            }
            let ch = s.get_char(0);
            Ok((ch, utf8_len))
        },
    }
}

/// A node of the trie as it lies in the buffer.
pub struct Node {
    /// Where the character starts, counted from the start of the node.
    pub char_offset: usize,
    /// Where what follows the character starts, counted from the start of
    /// the node: the first child, or the variants of a terminator.
    pub data_offset: usize,
    pub ch: char,
    /// The distance from the character to the next sibling, or zero for the
    /// last sibling.
    pub sibling_offset: usize,
    /// Whether the number at the front of the node says that it has
    /// children.
    pub has_child: bool,
}

/// The node that starts at `pos`.
pub open spec fn spec_read_node(buf: Seq<u8>, pos: int) -> Result<Node, Error> {
    match spec_read_sibling_offset(buf, pos) {
        Err(e) => Err(e),
        Ok((sibling_offset, has_child, len)) => match spec_read_character(buf, pos + len) {
            Err(e) => Err(e),
            Ok((ch, utf8_len)) => Ok(
                Node {
                    char_offset: len,
                    data_offset: (len + utf8_len) as usize,
                    ch,
                    sibling_offset,
                    has_child,
                },
            ),
        },
    }
}

/// Reads the node at `pos`.
pub fn read_node(buf: &[u8], pos: usize) -> (r: Result<Node, Error>)
    ensures
        r == spec_read_node(buf@, pos as int),
        r matches Ok(node) ==> {
            &&& 1 <= node.char_offset < node.data_offset
            &&& pos + node.data_offset <= buf@.len()
        },
{
    match read_sibling_offset(buf, pos) {
        Err(e) => Err(e),
        Ok((sibling_offset, has_child, sibling_offset_len)) => {
            proof {
                vstd::slice::axiom_spec_len(buf);
            }
            match read_character(buf, pos + sibling_offset_len) {
                Err(e) => Err(e),
                Ok((ch, utf8_len)) => Ok(
                    Node {
                        char_offset: sibling_offset_len,
                        data_offset: sibling_offset_len + utf8_len,
                        ch,
                        sibling_offset,
                        has_child,
                    },
                ),
            }
        },
    }
}

/// A node that can be read takes at least two bytes, all within the buffer.
pub proof fn lemma_read_node_bounds(buf: Seq<u8>, pos: int)
    ensures
        spec_read_node(buf, pos) matches Ok(node) ==> {
            &&& 1 <= node.char_offset <= 9
            &&& node.char_offset < node.data_offset
            &&& pos + node.data_offset <= buf.len()
        },
{
    lemma_offset_bounds(buf, pos, 0);
    match spec_read_sibling_offset(buf, pos) {
        Err(e) => {},
        Ok((sibling_offset, _, len)) => {
            let first = buf[pos + len];
            vstd::std_specs::bits::axiom_u8_leading_ones(first);
        },
    }
}

/// The start of the sibling that follows the node at `pos`, whose sibling
/// offset is `offset` and takes `len` bytes.
pub open spec fn next_sibling_pos(pos: int, offset: usize, len: usize) -> int {
    pos + len + offset
}

/// The number of nodes in the sibling list that starts at `pos`: one for the
/// node there, and one for each node that a nonzero sibling offset leads to.
/// An offset that leads past the end of the buffer is an error.
pub open spec fn spec_count_siblings(buf: Seq<u8>, pos: int) -> Result<nat, Error>
    decreases buf.len() - pos,
{
    match spec_read_sibling_offset(buf, pos) {
        Err(e) => Err(e),
        Ok((offset, _, len)) => {
            if offset == 0 {
                Ok(1)
            } else if next_sibling_pos(pos, offset, len) > buf.len() {
                Err(Error::UnexpectedEof)
            } else {
                proof {
                    lemma_offset_bounds(buf, pos, 0);
                }
                match spec_count_siblings(buf, next_sibling_pos(pos, offset, len)) {
                    Ok(n) => Ok(n + 1nat),
                    Err(e) => Err(e),
                }
            }
        },
    }
}

/// A sibling list has no more nodes than the buffer has bytes from its
/// start on.
pub proof fn lemma_count_siblings_bound(buf: Seq<u8>, pos: int)
    ensures
        spec_count_siblings(buf, pos) matches Ok(n) ==> 1 <= n <= buf.len() - pos,
    decreases buf.len() - pos,
{
    lemma_offset_bounds(buf, pos, 0);
    match spec_read_sibling_offset(buf, pos) {
        Err(e) => {},
        Ok((offset, _, len)) => {
            if offset != 0 && next_sibling_pos(pos, offset, len) <= buf.len() {
                lemma_count_siblings_bound(buf, next_sibling_pos(pos, offset, len));
            }
        },
    }
}

/// Counts the nodes of the sibling list that starts at `pos`.
pub fn count_siblings(buf: &[u8], pos: usize) -> (r: Result<usize, Error>)
    ensures
        r matches Ok(n) ==> spec_count_siblings(buf@, pos as int) == Ok::<nat, Error>(n as nat),
        r matches Err(e) ==> spec_count_siblings(buf@, pos as int) == Err::<nat, Error>(e),
        r matches Ok(n) ==> 1 <= n <= buf@.len() - pos,
{
    let mut count: usize = 1;
    let mut cur: usize = pos;
    proof {
        lemma_count_siblings_bound(buf@, pos as int);
    }
    loop
        invariant
            pos <= cur,
            1 <= count,
            count - 1 <= cur - pos,
            cur <= buf@.len() || count == 1,
            spec_count_siblings(buf@, pos as int) == (match spec_count_siblings(buf@, cur as int) {
                Ok(n) => Ok::<nat, Error>((n + count - 1) as nat),
                Err(e) => Err(e),
            }),
        decreases buf@.len() - cur,
    {
        proof {
            lemma_offset_bounds(buf@, cur as int, 0);
        }
        let (sibling_offset, _, sibling_offset_len) = match read_sibling_offset(buf, cur) {
            Ok(pair) => pair,
            Err(e) => {
                return Err(e);
            },
        };
        if sibling_offset == 0 {
            return Ok(count);
        }
        if sibling_offset > buf.len() - cur - sibling_offset_len {
            return Err(Error::UnexpectedEof);
        }
        cur = cur + sibling_offset_len + sibling_offset;
        count = count + 1;
    }
}

/// The distance from `pos` to the node that `n_nodes` sibling offsets lead
/// to, starting with the node at `pos`.  An offset that leads past the end of
/// the buffer is an error.
pub open spec fn spec_skip_nodes(buf: Seq<u8>, pos: int, n_nodes: nat) -> Result<nat, Error>
    decreases n_nodes,
{
    if n_nodes == 0 {
        Ok(0)
    } else {
        match spec_read_sibling_offset(buf, pos) {
            Err(e) => Err(e),
            Ok((offset, _, len)) => {
                if next_sibling_pos(pos, offset, len) > buf.len() {
                    Err(Error::UnexpectedEof)
                } else {
                    match spec_skip_nodes(
                        buf,
                        next_sibling_pos(pos, offset, len),
                        (n_nodes - 1) as nat,
                    ) {
                        Ok(d) => Ok(d + len as nat + offset as nat),
                        Err(e) => Err(e),
                    }
                }
            },
        }
    }
}

/// Skips `n_nodes` nodes of the sibling list that starts at `pos` and
/// returns the distance covered.
pub fn skip_nodes(buf: &[u8], pos: usize, n_nodes: usize) -> (r: Result<usize, Error>)
    ensures
        r matches Ok(d) ==> spec_skip_nodes(buf@, pos as int, n_nodes as nat) == Ok::<nat, Error>(
            d as nat,
        ),
        r matches Err(e) ==> spec_skip_nodes(buf@, pos as int, n_nodes as nat) == Err::<
            nat,
            Error,
        >(e),
        r matches Ok(d) ==> n_nodes > 0 ==> pos + d <= buf@.len(),
{
    let mut cur: usize = pos;
    let mut i: usize = 0;
    while i < n_nodes
        invariant
            i <= n_nodes,
            pos <= cur,
            i > 0 ==> cur <= buf@.len(),
            spec_skip_nodes(buf@, pos as int, n_nodes as nat) == (match spec_skip_nodes(
                buf@,
                cur as int,
                (n_nodes - i) as nat,
            ) {
                Ok(d) => Ok::<nat, Error>((d + cur - pos) as nat),
                Err(e) => Err(e),
            }),
        decreases n_nodes - i,
    {
        proof {
            lemma_offset_bounds(buf@, cur as int, 0);
        }
        let (sibling_offset, _, sibling_offset_len) = match read_sibling_offset(buf, cur) {
            Ok(pair) => pair,
            Err(e) => {
                return Err(e);
            },
        };
        if sibling_offset > buf.len() - cur - sibling_offset_len {
            return Err(Error::UnexpectedEof);
        }
        cur = cur + sibling_offset_len + sibling_offset;
        i = i + 1;
    }
    Ok(cur - pos)
}

/// The number that four bytes spell, the lowest byte first.
pub open spec fn spec_u32_le(b0: u8, b1: u8, b2: u8, b3: u8) -> nat {
    (b0 + 0x100 * b1 + 0x1_0000 * b2 + 0x100_0000 * b3) as nat
}

/// The number that two bytes spell, the lowest byte first.
pub open spec fn spec_u16_le(b0: u8, b1: u8) -> u16 {
    (b0 + 0x100 * b1) as u16
}

/// Whether the buffer starts with a length header that matches it: four
/// bytes that spell, lowest byte first, the number of bytes that follow them.
pub open spec fn spec_check_length(buf: Seq<u8>) -> Result<(), Error> {
    if buf.len() < 4 {
        Err(Error::UnexpectedEof)
    } else if spec_u32_le(buf[0], buf[1], buf[2], buf[3]) != buf.len() - 4 {
        Err(Error::InvalidLengthHeader)
    } else {
        Ok(())
    }
}

/// Checks the length header of a dictionary.
pub fn check_length(buf: &[u8]) -> (r: Result<(), Error>)
    ensures
        r == spec_check_length(buf@),
{
    if buf.len() < 4 {
        return Err(Error::UnexpectedEof);
    }
    let len: u64 = (buf[0] as u64) + 0x100 * (buf[1] as u64) + 0x1_0000 * (buf[2] as u64)
        + 0x100_0000 * (buf[3] as u64);
    let rest: usize = buf.len() - 4;
    if rest as u64 != len {
        Err(Error::InvalidLengthHeader)
    } else {
        Ok(())
    }
}

/// Where the children of the node with character `ch` start, for the first
/// such node in the sibling list that starts at `pos`; nothing where the list
/// holds no such node.  An offset that leads past the end of the buffer is an
/// error.
pub open spec fn spec_find_sibling_for_character(buf: Seq<u8>, pos: int, ch: char) -> Result<
    Option<usize>,
    Error,
>
    decreases buf.len() - pos,
{
    if pos > buf.len() {
        Err(Error::UnexpectedEof)
    } else {
        match spec_read_node(buf, pos) {
            Err(e) => Err(e),
            Ok(node) => {
                if node.ch == ch {
                    Ok(Some((pos + node.data_offset) as usize))
                } else if node.sibling_offset == 0 {
                    Ok(None)
                } else if next_sibling_pos(pos, node.sibling_offset, node.char_offset)
                    > buf.len() {
                    Err(Error::UnexpectedEof)
                } else {
                    proof {
                        lemma_read_node_bounds(buf, pos);
                    }
                    spec_find_sibling_for_character(
                        buf,
                        next_sibling_pos(pos, node.sibling_offset, node.char_offset),
                        ch,
                    )
                }
            },
        }
    }
}

/// Looks for the node with character `ch` in the sibling list that starts at
/// `pos`.
pub fn find_sibling_for_character(buf: &[u8], pos: usize, ch: char) -> (r: Result<
    Option<usize>,
    Error,
>)
    ensures
        r == spec_find_sibling_for_character(buf@, pos as int, ch),
        r matches Ok(Some(p)) ==> pos < p <= buf@.len(),
{
    let mut cur: usize = pos;
    loop
        invariant
            pos <= cur,
            spec_find_sibling_for_character(buf@, pos as int, ch)
                == spec_find_sibling_for_character(buf@, cur as int, ch),
        decreases buf@.len() - cur,
    {
        if cur > buf.len() {
            return Err(Error::UnexpectedEof);
        }
        let node = match read_node(buf, cur) {
            Ok(node) => node,
            Err(e) => {
                return Err(e);
            },
        };
        if node.ch == ch {
            return Ok(Some(cur + node.data_offset));
        } else if node.sibling_offset == 0 {
            return Ok(None);
        }
        if node.sibling_offset > buf.len() - cur - node.char_offset {
            return Err(Error::UnexpectedEof);
        }
        cur = cur + node.char_offset + node.sibling_offset;
    }
}

/// Where the children of the last node of `prefix` start, when the trie is
/// walked from the sibling list at `pos` one character at a time; nothing
/// where the trie holds no such path.  The character `'\0'` marks the end of
/// a word in the trie, so a prefix that holds it is never found.
pub open spec fn spec_find_prefix_from(buf: Seq<u8>, pos: usize, prefix: Seq<char>) -> Result<
    Option<usize>,
    Error,
>
    decreases prefix.len(),
{
    if prefix.len() == 0 {
        Ok(Some(pos))
    } else if prefix[0] == '\0' {
        Ok(None)
    } else {
        match spec_find_sibling_for_character(buf, pos as int, prefix[0]) {
            Err(e) => Err(e),
            Ok(None) => Ok(None),
            Ok(Some(next)) => spec_find_prefix_from(buf, next, prefix.drop_first()),
        }
    }
}

/// Where the top of the trie starts: after the length header.
pub open spec fn root_pos() -> usize {
    4
}

/// Where the children of the last node of `prefix` start, for a walk from the
/// top of the trie.
pub open spec fn spec_find_prefix(buf: Seq<u8>, prefix: Seq<char>) -> Result<Option<usize>, Error> {
    spec_find_prefix_from(buf, root_pos(), prefix)
}

/// Walks the trie along `prefix` and returns where the children of its last
/// node start.
pub fn find_prefix(buf: &[u8], prefix: &str) -> (r: Result<Option<usize>, Error>)
    ensures
        r == spec_find_prefix(buf@, prefix@),
{
    let mut pos: usize = 4;
    assert(prefix@.skip(0) =~= prefix@);
    for ch in it: prefix.chars()
        invariant
            it.seq() == prefix@,
            spec_find_prefix(buf@, prefix@) == spec_find_prefix_from(
                buf@,
                pos,
                prefix@.skip(it.index() as int),
            ),
    {
        assert(prefix@.skip(it.index() as int).drop_first() =~= prefix@.skip(it.index() + 1));
        if ch == '\0' {
            return Ok(None);
        }
        pos = match find_sibling_for_character(buf, pos, ch) {
            Ok(Some(next)) => next,
            Ok(None) => {
                return Ok(None);
            },
            Err(e) => {
                return Err(e);
            },
        };
    }
    Ok(Some(pos))
}

/// Where the variants of `word` start; nothing where the trie does not hold
/// the word.
#[verifier::opaque]
pub open spec fn spec_find_word(buf: Seq<u8>, word: Seq<char>) -> Result<Option<usize>, Error> {
    match spec_find_prefix(buf, word) {
        Err(e) => Err(e),
        Ok(None) => Ok(None),
        Ok(Some(pos)) => spec_find_sibling_for_character(buf, pos as int, '\0'),
    }
}

/// Looks the exact word up and returns where its first variant starts.
pub fn find_word(buf: &[u8], word: &str) -> (r: Result<Option<usize>, Error>)
    ensures
        r == spec_find_word(buf@, word@),
{
    proof {
        reveal(spec_find_word);
    }
    match find_prefix(buf, word) {
        Err(e) => Err(e),
        Ok(None) => Ok(None),
        Ok(Some(pos)) => find_sibling_for_character(buf, pos, '\0'),
    }
}

/// The number of binary digits of `m`: none for zero.
pub open spec fn spec_bit_length(m: nat) -> nat
    decreases m,
{
    if m == 0 {
        0
    } else {
        1 + spec_bit_length(m / 2)
    }
}

/// Two to the power 64.
proof fn lemma_pow2_64()
    ensures
        pow2(64) == 0x1_0000_0000_0000_0000,
{
    lemma_pow2_32();
    reveal_with_fuel(pow2, 33);
}

/// The number of binary digits of `m`.
pub fn bit_length(m: usize) -> (n: u8)
    ensures
        n == spec_bit_length(m as nat),
        n <= 64,
{
    let mut n: u8 = 0;
    let mut rest: usize = m;
    assert(pow2(0) == 1);
    while rest > 0
        invariant
            n <= 64,
            spec_bit_length(m as nat) == n + spec_bit_length(rest as nat),
            rest * pow2(n as nat) <= m,
        decreases rest,
    {
        proof {
            lemma_pow2_64();
            let p = pow2(n as nat) as int;
            assert((rest / 2) * (2 * p) <= rest * p) by (nonlinear_arith)
                requires
                    rest >= 0,
                    p >= 0,
            ;
            if n == 64 {
                assert(rest * p >= p) by (nonlinear_arith)
                    requires
                        rest >= 1,
                        p >= 0,
                ;
            }
        }
        rest = rest / 2;
        n = n + 1;
    }
    n
}

/// The number of bits that the index of a child among `n_children` siblings
/// takes in a path: as many as the largest index has binary digits.
pub open spec fn spec_index_width(n_children: nat) -> nat {
    spec_bit_length((n_children - 1) as nat)
}

/// One step of a walk along a path.
pub struct PathStep {
    /// The character of the node that the step reached, or nothing where it is
    /// a terminator.
    pub ch: Option<char>,
    /// Where the walk stands after the step.
    pub node_pos: int,
    /// The number of bits of the path taken after the step.
    pub bit_pos: nat,
}

/// One step of the walk along the path held in `path`, of which `bit_pos`
/// bits were taken, from the sibling list at `node_pos`: the next bits of the
/// path, as many as an index into the list takes, choose a node of the list.
/// A terminator ends the walk; any other node gives its character, and the
/// walk goes on among its children.
pub open spec fn spec_path_step(buf: Seq<u8>, path: Seq<u8>, node_pos: int, bit_pos: nat) -> Result<
    PathStep,
    Error,
> {
    match spec_count_siblings(buf, node_pos) {
        Err(e) => Err(e),
        Ok(n_children) => {
            let width = spec_index_width(n_children);
            if bit_pos + width > 8 * path.len() {
                Err(Error::UnexpectedEof)
            } else {
                let index = value_of_bits(
                    bits_of_bytes(path).subrange(bit_pos as int, (bit_pos + width) as int),
                );
                if index >= n_children {
                    Err(Error::ChildIndexOutOfRange)
                } else {
                    match spec_skip_nodes(buf, node_pos, index) {
                        Err(e) => Err(e),
                        Ok(distance) => match spec_read_node(buf, node_pos + distance) {
                            Err(e) => Err(e),
                            Ok(node) => if node.ch == '\0' {
                                Ok(
                                    PathStep {
                                        ch: None,
                                        node_pos: node_pos + distance,
                                        bit_pos: bit_pos + width,
                                    },
                                )
                            } else {
                                Ok(
                                    PathStep {
                                        ch: Some(node.ch),
                                        node_pos: node_pos + distance + node.data_offset,
                                        bit_pos: bit_pos + width,
                                    },
                                )
                            },
                        },
                    }
                }
            }
        },
    }
}

/// A step that gives a character moves the walk forward, and not past the
/// end of the buffer.
pub proof fn lemma_path_step_advances(buf: Seq<u8>, path: Seq<u8>, node_pos: int, bit_pos: nat)
    ensures
        spec_path_step(buf, path, node_pos, bit_pos) matches Ok(step) ==> {
            &&& bit_pos <= step.bit_pos <= 8 * path.len()
            &&& step.ch is Some ==> node_pos < step.node_pos <= buf.len()
            &&& step.ch is None ==> node_pos <= step.node_pos
        },
{
    match spec_count_siblings(buf, node_pos) {
        Err(e) => {},
        Ok(n_children) => {
            let width = spec_index_width(n_children);
            if bit_pos + width <= 8 * path.len() {
                let index = value_of_bits(
                    bits_of_bytes(path).subrange(bit_pos as int, (bit_pos + width) as int),
                );
                if index < n_children {
                    match spec_skip_nodes(buf, node_pos, index) {
                        Err(e) => {},
                        Ok(distance) => {
                            lemma_read_node_bounds(buf, node_pos + distance);
                        },
                    }
                }
            }
        },
    }
}

/// How a walk along a path ends.
pub struct PathOutcome {
    /// The characters that the walk gave, up to the end of the path or to
    /// the error.
    pub chars: Seq<char>,
    /// The number of bits of the path that were taken.
    pub bit_pos: nat,
    /// What stopped the walk before the end of the path, if anything did.
    pub error: Option<Error>,
}

/// The walk along a path from the sibling list at `node_pos`, step by step
/// up to a terminator or an error.
#[verifier::opaque]
pub open spec fn spec_walk_path(buf: Seq<u8>, path: Seq<u8>, node_pos: int, bit_pos: nat) -> PathOutcome
    decreases buf.len() - node_pos,
{
    match spec_path_step(buf, path, node_pos, bit_pos) {
        Err(e) => PathOutcome { chars: Seq::empty(), bit_pos, error: Some(e) },
        Ok(step) => match step.ch {
            None => PathOutcome { chars: Seq::empty(), bit_pos: step.bit_pos, error: None },
            Some(ch) => {
                proof {
                    lemma_path_step_advances(buf, path, node_pos, bit_pos);
                }
                let rest = spec_walk_path(buf, path, step.node_pos, step.bit_pos);
                PathOutcome { chars: seq![ch] + rest.chars, bit_pos: rest.bit_pos, error: rest.error }
            },
        },
    }
}

/// A cursor that walks the trie along a path of child indices packed in bits,
/// and gives the characters of the nodes it passes.
#[derive(Clone, Copy)]
pub struct PathWalker<'a> {
    buf: &'a [u8],
    node_pos: usize,
    reader: BitReader<'a>,
    found_end: bool,
}

impl<'a> PathWalker<'a> {
    /// The dictionary that is walked.
    pub closed spec fn buf(&self) -> Seq<u8> {
        self.buf@
    }

    /// The bytes that hold the path.
    pub closed spec fn path(&self) -> Seq<u8> {
        self.reader.bytes()
    }

    /// The start of the sibling list in which the next step chooses a node.
    pub closed spec fn node_pos(&self) -> int {
        self.node_pos as int
    }

    /// The number of bits of the path taken so far.
    pub closed spec fn bit_pos(&self) -> nat {
        self.reader.bit_pos()
    }

    /// Whether the walk has reached a terminator.
    pub closed spec fn found_end(&self) -> bool {
        self.found_end
    }

    /// The reader of the path is well formed and stands within the path.
    pub closed spec fn wf(&self) -> bool {
        &&& self.reader.wf()
        &&& self.reader.bit_pos() <= 8 * self.reader.bytes().len()
    }

    /// What is left of the walk: nothing after a terminator.
    pub open spec fn rest(&self) -> PathOutcome {
        if self.found_end() {
            PathOutcome { chars: Seq::empty(), bit_pos: self.bit_pos(), error: None }
        } else {
            spec_walk_path(self.buf(), self.path(), self.node_pos(), self.bit_pos())
        }
    }

    /// A walker at the top of the trie, for the path that starts at `pos`.
    pub fn new(buf: &'a [u8], pos: usize) -> (walker: PathWalker<'a>)
        requires
            pos <= buf@.len(),
        ensures
            walker.wf(),
            walker.buf() == buf@,
            walker.path() == buf@.subrange(pos as int, buf@.len() as int),
            walker.node_pos() == root_pos(),
            walker.bit_pos() == 0,
            !walker.found_end(),
    {
        PathWalker {
            buf,
            node_pos: 4,
            reader: BitReader::new(slice_subrange(buf, pos, buf.len())),
            found_end: false,
        }
    }

    /// Takes one step along the path.  Returns the character of the node
    /// reached, or nothing at the end of the path and ever after.  An error
    /// leaves the walker as it was.
    pub fn next_char(&mut self) -> (r: Result<Option<char>, Error>)
        requires
            old(self).wf(),
        ensures
            final(self).wf(),
            final(self).buf() == old(self).buf(),
            final(self).path() == old(self).path(),
            old(self).found_end() ==> r == Ok::<Option<char>, Error>(None) && final(self).found_end()
                && final(self).node_pos() == old(self).node_pos() && final(self).bit_pos() == old(
                self,
            ).bit_pos(),
            !old(self).found_end() ==> (match spec_path_step(
                old(self).buf(),
                old(self).path(),
                old(self).node_pos(),
                old(self).bit_pos(),
            ) {
                Err(e) => {
                    &&& r == Err::<Option<char>, Error>(e)
                    &&& !final(self).found_end()
                    &&& final(self).node_pos() == old(self).node_pos()
                    &&& final(self).bit_pos() == old(self).bit_pos()
                },
                Ok(step) => {
                    &&& r == Ok::<Option<char>, Error>(step.ch)
                    &&& final(self).found_end() == (step.ch is None)
                    &&& final(self).node_pos() == step.node_pos
                    &&& final(self).bit_pos() == step.bit_pos
                },
            }),
    {
        if self.found_end {
            return Ok(None);
        }
        proof {
            lemma_path_step_advances(self.buf@, self.reader.bytes(), self.node_pos as int, self.reader.bit_pos());
            vstd::slice::axiom_spec_len(self.buf);
        }
        let n_children = match count_siblings(self.buf, self.node_pos) {
            Ok(n) => n,
            Err(e) => {
                return Err(e);
            },
        };
        let width = bit_length(n_children - 1);
        let ghost stream = bits_of_bytes(self.reader.bytes());
        let ghost bit_pos = self.reader.bit_pos() as int;
        let mut reader = self.reader;
        let low_width: u8 = if width > 32 {
            32
        } else {
            width
        };
        let low = match reader.read_bits(low_width) {
            Some(v) => v,
            None => {
                return Err(Error::UnexpectedEof);
            },
        };
        let high = if width > 32 {
            match reader.read_bits(width - 32) {
                Some(v) => v,
                None => {
                    return Err(Error::UnexpectedEof);
                },
            }
        } else {
            0
        };
        let index: u64 = (low as u64) + (high as u64) * 0x1_0000_0000;
        proof {
            lemma_pow2_32();
            if width > 32 {
                let a = stream.subrange(bit_pos, bit_pos + 32);
                let b = stream.subrange(bit_pos + 32, bit_pos + width);
                lemma_value_of_bits_concat(a, b);
                assert(a + b =~= stream.subrange(bit_pos, bit_pos + width));
            }
            assert(index == value_of_bits(stream.subrange(bit_pos, bit_pos + width)));
        }
        if index >= n_children as u64 {
            return Err(Error::ChildIndexOutOfRange);
        }
        let distance = match skip_nodes(self.buf, self.node_pos, index as usize) {
            Ok(d) => d,
            Err(e) => {
                return Err(e);
            },
        };
        let node = match read_node(self.buf, self.node_pos + distance) {
            Ok(node) => node,
            Err(e) => {
                return Err(e);
            },
        };
        self.reader = reader;
        self.node_pos = self.node_pos + distance;
        if node.ch == '\0' {
            self.found_end = true;
            Ok(None)
        } else {
            self.node_pos = self.node_pos + node.data_offset;
            Ok(Some(node.ch))
        }
    }

    /// The next character of the path as an item of an iteration: nothing
    /// at the end of the path.
    pub fn next(&mut self) -> (r: Option<Result<char, Error>>)
        requires
            old(self).wf(),
        ensures
            final(self).wf(),
            final(self).buf() == old(self).buf(),
            final(self).path() == old(self).path(),
            final(self).rest() == (match r {
                Some(Ok(ch)) => PathOutcome {
                    chars: old(self).rest().chars.drop_first(),
                    bit_pos: old(self).rest().bit_pos,
                    error: old(self).rest().error,
                },
                _ => old(self).rest(),
            }),
            match r {
                Some(Ok(ch)) => old(self).rest().chars.len() > 0 && ch == old(self).rest().chars[0]
                    && old(self).node_pos() < final(self).node_pos() <= old(self).buf().len(),
                Some(Err(e)) => old(self).rest().chars.len() == 0 && old(self).rest().error == Some(
                    e,
                ),
                None => old(self).rest().chars.len() == 0 && old(self).rest().error is None
                    && final(self).found_end() && final(self).bit_pos() == old(self).rest().bit_pos,
            },
    {
        proof {
            reveal_with_fuel(spec_walk_path, 2);
            lemma_path_step_advances(self.buf(), self.path(), self.node_pos(), self.bit_pos());
        }
        match self.next_char() {
            Ok(Some(ch)) => {
                assert((seq![ch] + self.rest().chars).drop_first() =~= self.rest().chars);
                Some(Ok(ch))
            },
            Ok(None) => None,
            Err(e) => Some(Err(e)),
        }
    }

    /// Walks what is left of the path and appends its characters to
    /// `output`, up to the end of the path or to an error.
    pub fn read_to_end(&mut self, output: &mut String) -> (r: Result<(), Error>)
        requires
            old(self).wf(),
        ensures
            final(self).wf(),
            final(self).buf() == old(self).buf(),
            final(self).path() == old(self).path(),
            final(output)@ == old(output)@ + old(self).rest().chars,
            match r {
                Ok(()) => {
                    &&& old(self).rest().error is None
                    &&& final(self).found_end()
                    &&& final(self).bit_pos() == old(self).rest().bit_pos
                },
                Err(e) => old(self).rest().error == Some(e),
            },
    {
        let ghost goal = output@ + self.rest().chars;
        loop
            invariant
                self.wf(),
                self.buf() == old(self).buf(),
                self.path() == old(self).path(),
                self.rest().error == old(self).rest().error,
                self.rest().bit_pos == old(self).rest().bit_pos,
                goal == old(output)@ + old(self).rest().chars,
                goal == output@ + self.rest().chars,
            decreases self.buf().len() - self.node_pos(),
        {
            let ghost left = self.rest().chars;
            match self.next() {
                None => {
                    assert(output@ + left =~= output@);
                    return Ok(());
                },
                Some(Err(e)) => {
                    assert(output@ + left =~= output@);
                    return Err(e);
                },
                Some(Ok(ch)) => {
                    assert(output@.push(ch) + left.drop_first() =~= output@ + left);
                    output.push(ch);
                },
            }
        }
    }
}

/// The first byte of a variant: its tag and its top bit.
pub proof fn lemma_framing_byte(byte: u8)
    by (bit_vector)
    ensures
        byte & 0x7f < 0x80,
        (byte & 0x80 == 0) == (byte < 0x80),
        byte & 0x7f == byte % 0x80,
{
}

/// The tag of the variant at `pos`: the low seven bits of its first byte.
pub open spec fn spec_variant_payload(buf: Seq<u8>, pos: int) -> u8 {
    (buf[pos] % 0x80) as u8
}

/// Whether the variant at `pos` is the last of its word: the top bit of its
/// first byte is clear.
pub open spec fn spec_variant_is_last(buf: Seq<u8>, pos: int) -> bool {
    buf[pos] < 0x80
}

/// The article number of the variant at `pos`: its second and third byte,
/// the lower one first.
pub open spec fn spec_variant_article(buf: Seq<u8>, pos: int) -> u16 {
    spec_u16_le(buf[pos + 1], buf[pos + 2])
}

/// The bytes that hold the path of the variant at `pos`: what follows its
/// first three bytes.
pub open spec fn spec_variant_path(buf: Seq<u8>, pos: int) -> Seq<u8> {
    buf.subrange(pos + 3, buf.len() as int)
}

/// The walk along the path of the variant at `pos`, from the top of the
/// trie: its characters are the translation.
pub open spec fn spec_variant_translation(buf: Seq<u8>, pos: int) -> PathOutcome {
    spec_walk_path(buf, spec_variant_path(buf, pos), root_pos() as int, 0)
}

/// Where the variant at `pos` ends: after the last byte of which its path
/// took a bit.
pub open spec fn spec_variant_end(buf: Seq<u8>, pos: int) -> int {
    pos + 3 + (spec_variant_translation(buf, pos).bit_pos + 7) / 8
}

/// Where the variant after the one at `pos` starts: where that one ends.
/// Nothing after the last variant of a word.
pub open spec fn spec_variant_next(buf: Seq<u8>, pos: int) -> Result<Option<int>, Error> {
    if pos < 0 || pos + 3 > buf.len() {
        Err(Error::UnexpectedEof)
    } else if spec_variant_is_last(buf, pos) {
        Ok(None)
    } else {
        match spec_variant_translation(buf, pos).error {
            Some(e) => Err(e),
            None => Ok(Some(spec_variant_end(buf, pos))),
        }
    }
}

/// One variant of a word: its tag, its article number and a walker for its
/// translation.
#[derive(Clone, Copy)]
pub struct Variant<'a> {
    pub pos: usize,
    pub is_last: bool,
    pub payload: u8,
    pub article_num: u16,
    pub translation: PathWalker<'a>,
}

impl<'a> Variant<'a> {
    /// The walker reads the path that follows the variant's first three
    /// bytes.
    pub open spec fn wf(&self) -> bool {
        &&& self.translation.wf()
        &&& self.pos + 3 <= self.translation.buf().len()
        &&& self.translation.path() == spec_variant_path(self.translation.buf(), self.pos as int)
    }

    /// Whether the walker stands where `extract_variant` put it.
    pub open spec fn is_fresh(&self) -> bool {
        &&& self.translation.node_pos() == root_pos()
        &&& self.translation.bit_pos() == 0
        &&& !self.translation.found_end()
    }

    /// The walker of a variant just extracted has the whole translation
    /// before it.
    pub proof fn lemma_fresh_rest(&self)
        requires
            self.wf(),
            self.is_fresh(),
        ensures
            self.translation.rest() == spec_variant_translation(
                self.translation.buf(),
                self.pos as int,
            ),
    {
    }

    /// Walks what is left of the path and returns where the next variant
    /// starts, or nothing after the last variant of the word.
    pub fn into_next_offset(self) -> (r: Result<Option<usize>, Error>)
        requires
            self.wf(),
        ensures
            r == (if self.is_last {
                Ok::<Option<usize>, Error>(None)
            } else {
                match self.translation.rest().error {
                    Some(e) => Err(e),
                    None => Ok(
                        Some((self.pos + 3 + (self.translation.rest().bit_pos + 7) / 8) as usize),
                    ),
                }
            }),
            r matches Ok(Some(next)) ==> self.pos + 3 <= next <= self.translation.buf().len(),
            self.is_fresh() && self.is_last == spec_variant_is_last(
                self.translation.buf(),
                self.pos as int,
            ) ==> (match r {
                Ok(Some(next)) => spec_variant_next(self.translation.buf(), self.pos as int)
                    == Ok::<Option<int>, Error>(Some(next as int)),
                Ok(None) => spec_variant_next(self.translation.buf(), self.pos as int) == Ok::<
                    Option<int>,
                    Error,
                >(None),
                Err(e) => spec_variant_next(self.translation.buf(), self.pos as int) == Err::<
                    Option<int>,
                    Error,
                >(e),
            }),
    {
        if self.is_last {
            return Ok(None);
        }
        let mut walker = self.translation;
        loop
            invariant
                !self.is_last,
                walker.wf(),
                walker.buf() == self.translation.buf(),
                walker.path() == self.translation.path(),
                walker.rest().error == self.translation.rest().error,
                walker.rest().bit_pos == self.translation.rest().bit_pos,
                self.pos + 3 <= walker.buf().len(),
                walker.path() == spec_variant_path(walker.buf(), self.pos as int),
            decreases walker.buf().len() - walker.node_pos(),
        {
            match walker.next() {
                Some(Ok(_)) => {},
                Some(Err(e)) => {
                    return Err(e);
                },
                None => {
                    proof {
                        vstd::slice::axiom_spec_len(walker.buf);
                    }
                    let consumed = walker.reader.bytes_consumed();
                    return Ok(Some(self.pos + consumed + 3));
                },
            }
        }
    }
}

/// Reads the first three bytes of the variant at `pos` and sets a walker on
/// its path.
pub fn extract_variant(buf: &[u8], pos: usize) -> (r: Result<Variant<'_>, Error>)
    ensures
        match r {
            Ok(variant) => {
                &&& pos + 3 <= buf@.len()
                &&& variant.wf()
                &&& variant.is_fresh()
                &&& variant.translation.buf() == buf@
                &&& variant.pos == pos
                &&& variant.payload == spec_variant_payload(buf@, pos as int)
                &&& variant.is_last == spec_variant_is_last(buf@, pos as int)
                &&& variant.article_num == spec_variant_article(buf@, pos as int)
            },
            Err(e) => e == Error::UnexpectedEof && pos + 3 > buf@.len(),
        },
{
    if buf.len() < 3 || pos > buf.len() - 3 {
        return Err(Error::UnexpectedEof);
    }
    let payload_byte = buf[pos];
    let article_num: u16 = (buf[pos + 1] as u16) + 0x100 * (buf[pos + 2] as u16);
    proof {
        lemma_framing_byte(payload_byte);
    }
    Ok(
        Variant {
            pos,
            payload: payload_byte & 0x7f,
            article_num,
            is_last: payload_byte & 0x80 == 0,
            translation: PathWalker::new(buf, pos + 3),
        },
    )
}

/// A node that a walk of the dictionary has yet to visit.
pub struct StackEntry {
    /// The number of characters of the word that lead to the node.
    pub word_length: usize,
    /// Where the node starts.
    pub pos: usize,
}

/// A node that a walk has yet to visit, as the walk's description sees it.
pub struct WalkEntry {
    /// The number of characters of the word that lead to the node.
    pub word_length: nat,
    /// Where the node starts.
    pub pos: int,
}

impl StackEntry {
    /// The entry as the description of the walk sees it.
    pub open spec fn view(&self) -> WalkEntry {
        WalkEntry { word_length: self.word_length as nat, pos: self.pos as int }
    }
}

/// A bound on the number of nodes that a walk visits below a node that lies
/// `distance` bytes before the end of the buffer.
pub open spec fn walk_weight(distance: nat) -> nat
    decreases distance,
{
    if distance == 0 {
        1
    } else {
        2 * walk_weight((distance - 1) as nat) + 1
    }
}

/// The weight of a node that waits on the stack.
pub open spec fn entry_weight(len: nat, pos: int) -> nat {
    if pos >= len {
        1
    } else {
        walk_weight((len - pos) as nat)
    }
}

/// The weight of all the nodes that wait on the stack: it bounds the work
/// that is left, and falls with each node visited.
pub open spec fn stack_weight(len: nat, stack: Seq<WalkEntry>) -> nat
    decreases stack.len(),
{
    if stack.len() == 0 {
        0
    } else {
        stack_weight(len, stack.drop_last()) + entry_weight(len, stack.last().pos)
    }
}

/// The weight grows with the distance from the end of the buffer.
pub proof fn lemma_walk_weight_monotone(a: nat, b: nat)
    requires
        a <= b,
    ensures
        1 <= walk_weight(a) <= walk_weight(b),
    decreases b,
{
    if b > 0 {
        if a < b {
            lemma_walk_weight_monotone(a, (b - 1) as nat);
        }
        lemma_walk_weight_monotone(0, (b - 1) as nat);
    }
}

/// Two nodes that lie after a node weigh less than it, together.
pub proof fn lemma_entry_weight_step(len: nat, pos: int, first: int, second: int)
    requires
        pos < len,
        pos < first,
        pos < second,
    ensures
        entry_weight(len, first) + entry_weight(len, second) < entry_weight(len, pos),
        1 <= entry_weight(len, first),
{
    let d = (len - pos - 1) as nat;
    lemma_walk_weight_monotone(0, d);
    if first < len {
        lemma_walk_weight_monotone((len - first) as nat, d);
    }
    if second < len {
        lemma_walk_weight_monotone((len - second) as nat, d);
    }
}

/// A stack with one more entry weighs as much more as the entry.
pub proof fn lemma_stack_weight_push(len: nat, stack: Seq<WalkEntry>, entry: WalkEntry)
    ensures
        stack_weight(len, stack.push(entry)) == stack_weight(len, stack) + entry_weight(
            len,
            entry.pos,
        ),
{
    assert(stack.push(entry).drop_last() =~= stack);
}

/// What one call of the walk gives, and what it leaves behind.
pub struct WalkOutcome {
    /// The next word with the place of its first variant, nothing at the end
    /// of the walk, or the error that stopped it.
    pub result: Result<Option<(Seq<char>, int)>, Error>,
    pub stack: Seq<WalkEntry>,
    pub word: Seq<char>,
}

/// The first `n` items of a sequence, or all of them where it has fewer.
pub open spec fn truncated<T>(items: Seq<T>, n: nat) -> Seq<T> {
    if n <= items.len() {
        items.take(n as int)
    } else {
        items
    }
}

/// The stack after a visit to a node at `pos`, reached by `prefix`: without
/// that node, and with its next sibling where it has one.
pub open spec fn stack_with_sibling(
    rest: Seq<WalkEntry>,
    prefix: Seq<char>,
    pos: int,
    node: Node,
) -> Seq<WalkEntry> {
    if node.sibling_offset > 0 {
        rest.push(
            WalkEntry {
                word_length: prefix.len(),
                pos: next_sibling_pos(pos, node.sibling_offset, node.char_offset),
            },
        )
    } else {
        rest
    }
}

/// The walk up to the next terminator.  The node on top of the stack is
/// visited: the word is cut back to the characters that lead to it; its next
/// sibling is put on the stack; at a terminator the walk stops and gives the
/// word; any other node adds its character to the word and puts its first
/// child on the stack, and the walk goes on.  So children come before
/// siblings, and siblings in the order in which they are stored.  A sibling
/// offset that leads past the end of the buffer is an error.
pub open spec fn spec_walker_next(buf: Seq<u8>, stack: Seq<WalkEntry>, word: Seq<char>) -> WalkOutcome
    decreases stack_weight(buf.len(), stack),
{
    if stack.len() == 0 {
        WalkOutcome { result: Ok(None), stack, word }
    } else {
        let entry = stack.last();
        let rest = stack.drop_last();
        let prefix = truncated(word, entry.word_length);
        match spec_read_node(buf, entry.pos) {
            Err(e) => WalkOutcome { result: Err(e), stack: rest, word: prefix },
            Ok(node) => {
                let sibling_pos = next_sibling_pos(entry.pos, node.sibling_offset, node.char_offset);
                let child_pos = entry.pos + node.data_offset;
                let with_sibling = stack_with_sibling(rest, prefix, entry.pos, node);
                if node.sibling_offset > 0 && sibling_pos > buf.len() {
                    WalkOutcome { result: Err(Error::UnexpectedEof), stack: rest, word: prefix }
                } else if node.ch == '\0' {
                    WalkOutcome {
                        result: Ok(Some((prefix, child_pos))),
                        stack: with_sibling,
                        word: prefix,
                    }
                } else {
                    proof {
                        lemma_read_node_bounds(buf, entry.pos);
                        lemma_entry_weight_step(buf.len(), entry.pos, sibling_pos, child_pos);
                        lemma_stack_weight_push(
                            buf.len(),
                            rest,
                            WalkEntry { word_length: prefix.len(), pos: sibling_pos },
                        );
                        lemma_stack_weight_push(
                            buf.len(),
                            with_sibling,
                            WalkEntry { word_length: prefix.len() + 1, pos: child_pos },
                        );
                    }
                    spec_walker_next(
                        buf,
                        with_sibling.push(
                            WalkEntry { word_length: prefix.len() + 1, pos: child_pos },
                        ),
                        prefix.push(node.ch),
                    )
                }
            },
        }
    }
}

/// A walk over the words of a dictionary, below a given place in the trie.
pub struct DictionaryWalker<'a> {
    buf: &'a [u8],
    word: Vec<char>,
    stack: Vec<StackEntry>,
}

impl<'a> DictionaryWalker<'a> {
    /// The dictionary that is walked.
    pub closed spec fn buf(&self) -> Seq<u8> {
        self.buf@
    }

    /// The nodes that are yet to visit, the next one last.
    pub closed spec fn stack(&self) -> Seq<WalkEntry> {
        self.stack@.map_values(|entry: StackEntry| entry@)
    }

    /// The characters that lead to the node visited last.
    pub closed spec fn word(&self) -> Seq<char> {
        self.word@
    }

    /// A bound on the work that is left.
    pub open spec fn weight(&self) -> nat {
        stack_weight(self.buf().len(), self.stack())
    }

    /// A walk over the whole dictionary.
    pub fn new(buf: &'a [u8]) -> (walker: DictionaryWalker<'a>)
        ensures
            walker.buf() == buf@,
            walker.word() == Seq::<char>::empty(),
            walker.stack() == seq![WalkEntry { word_length: 0, pos: root_pos() as int }],
    {
        Self::start_from(buf, 4)
    }

    /// A walk over what lies below the sibling list at `pos`.
    pub fn start_from(buf: &'a [u8], pos: usize) -> (walker: DictionaryWalker<'a>)
        ensures
            walker.buf() == buf@,
            walker.word() == Seq::<char>::empty(),
            walker.stack() == seq![WalkEntry { word_length: 0, pos: pos as int }],
    {
        let mut stack: Vec<StackEntry> = Vec::new();
        stack.push(StackEntry { word_length: 0, pos });
        assert(stack@.map_values(|entry: StackEntry| entry@) =~= seq![
            WalkEntry { word_length: 0, pos: pos as int },
        ]);
        DictionaryWalker { buf, word: Vec::new(), stack }
    }

    /// Walks to the next terminator and returns the characters that lead to
    /// it, with the place of its first variant; nothing when the walk is
    /// over.
    pub fn next(&mut self) -> (r: Result<Option<(String, usize)>, Error>)
        ensures
            final(self).buf() == old(self).buf(),
            final(self).stack() == spec_walker_next(
                old(self).buf(),
                old(self).stack(),
                old(self).word(),
            ).stack,
            final(self).word() == spec_walker_next(
                old(self).buf(),
                old(self).stack(),
                old(self).word(),
            ).word,
            match r {
                Ok(Some((word, pos))) => spec_walker_next(
                    old(self).buf(),
                    old(self).stack(),
                    old(self).word(),
                ).result == Ok::<Option<(Seq<char>, int)>, Error>(Some((word@, pos as int)))
                    && final(self).weight() < old(self).weight() && pos <= old(self).buf().len(),
                Ok(None) => spec_walker_next(
                    old(self).buf(),
                    old(self).stack(),
                    old(self).word(),
                ).result == Ok::<Option<(Seq<char>, int)>, Error>(None),
                Err(e) => spec_walker_next(
                    old(self).buf(),
                    old(self).stack(),
                    old(self).word(),
                ).result == Err::<Option<(Seq<char>, int)>, Error>(e),
            },
    {
        let ghost goal = spec_walker_next(self.buf(), self.stack(), self.word());
        let ghost len = self.buf@.len();
        loop
            invariant
                self.buf == old(self).buf,
                len == self.buf@.len(),
                goal == spec_walker_next(old(self).buf(), old(self).stack(), old(self).word()),
                goal == spec_walker_next(self.buf(), self.stack(), self.word()),
                stack_weight(len, self.stack()) <= stack_weight(len, old(self).stack()),
            decreases stack_weight(len, self.stack()),
        {
            let ghost stack0 = self.stack();
            let ghost word0 = self.word@;
            let entry = match self.stack.pop() {
                Some(entry) => entry,
                None => {
                    return Ok(None);
                },
            };
            self.word.truncate(entry.word_length);
            let ghost rest = stack0.drop_last();
            let ghost prefix = truncated(word0, entry.word_length as nat);
            assert(self.stack() =~= rest);
            assert(stack0.last() == entry@);
            assert(self.word@ =~= prefix);
            let node = match read_node(self.buf, entry.pos) {
                Ok(node) => node,
                Err(e) => {
                    return Err(e);
                },
            };
            proof {
                vstd::slice::axiom_spec_len(self.buf);
            }
            let ghost sibling_pos = next_sibling_pos(
                entry.pos as int,
                node.sibling_offset,
                node.char_offset,
            );
            let child_pos = entry.pos + node.data_offset;
            if node.sibling_offset > 0 {
                if node.sibling_offset > self.buf.len() - entry.pos - node.char_offset {
                    return Err(Error::UnexpectedEof);
                }
                let word_length = self.word.len();
                self.stack.push(
                    StackEntry {
                        word_length,
                        pos: entry.pos + node.char_offset + node.sibling_offset,
                    },
                );
            }
            let ghost with_sibling = stack_with_sibling(rest, prefix, entry.pos as int, node);
            assert(self.stack() =~= with_sibling);
            proof {
                lemma_entry_weight_step(len, entry.pos as int, sibling_pos, child_pos as int);
                lemma_stack_weight_push(
                    len,
                    rest,
                    WalkEntry { word_length: prefix.len(), pos: sibling_pos },
                );
            }
            if node.ch == '\0' {
                let word = chars_to_string(self.word.as_slice());
                return Ok(Some((word, child_pos)));
            }
            self.word.push(node.ch);
            let word_length = self.word.len();
            proof {
                lemma_stack_weight_push(
                    len,
                    with_sibling,
                    WalkEntry { word_length: word_length as nat, pos: child_pos as int },
                );
            }
            self.stack.push(StackEntry { word_length, pos: child_pos });
            assert(self.stack() =~= with_sibling.push(
                WalkEntry { word_length: word_length as nat, pos: child_pos as int },
            ));
        }
    }
}

/// A walk that gives a word leaves less work behind than it found.
pub proof fn lemma_walker_next_decreases(buf: Seq<u8>, stack: Seq<WalkEntry>, word: Seq<char>)
    ensures
        spec_walker_next(buf, stack, word).result matches Ok(Some(found)) ==> stack_weight(
            buf.len(),
            spec_walker_next(buf, stack, word).stack,
        ) < stack_weight(buf.len(), stack) && 0 <= found.1 <= buf.len(),
    decreases stack_weight(buf.len(), stack),
{
    if stack.len() > 0 {
        let entry = stack.last();
        let rest = stack.drop_last();
        let prefix = truncated(word, entry.word_length);
        match spec_read_node(buf, entry.pos) {
            Err(e) => {},
            Ok(node) => {
                let sibling_pos = next_sibling_pos(entry.pos, node.sibling_offset, node.char_offset);
                let child_pos = entry.pos + node.data_offset;
                let with_sibling = stack_with_sibling(rest, prefix, entry.pos, node);
                lemma_offset_bounds(buf, entry.pos, 0);
                lemma_read_node_bounds(buf, entry.pos);
                lemma_entry_weight_step(buf.len(), entry.pos, sibling_pos, child_pos);
                lemma_stack_weight_push(
                    buf.len(),
                    rest,
                    WalkEntry { word_length: prefix.len(), pos: sibling_pos },
                );
                lemma_stack_weight_push(
                    buf.len(),
                    with_sibling,
                    WalkEntry { word_length: prefix.len() + 1, pos: child_pos },
                );
                if node.sibling_offset > 0 && sibling_pos > buf.len() {
                } else if node.ch == '\0' {
                } else {
                    lemma_walker_next_decreases(
                        buf,
                        with_sibling.push(
                            WalkEntry { word_length: prefix.len() + 1, pos: child_pos },
                        ),
                        prefix.push(node.ch),
                    );
                }
            },
        }
    }
}

/// A walk along a path takes no more bits than the path has, where it
/// starts within the path.
pub proof fn lemma_walk_path_bounds(buf: Seq<u8>, path: Seq<u8>, node_pos: int, bit_pos: nat)
    requires
        bit_pos <= 8 * path.len(),
    ensures
        bit_pos <= spec_walk_path(buf, path, node_pos, bit_pos).bit_pos <= 8 * path.len(),
    decreases buf.len() - node_pos,
{
    reveal_with_fuel(spec_walk_path, 2);
    lemma_path_step_advances(buf, path, node_pos, bit_pos);
    match spec_path_step(buf, path, node_pos, bit_pos) {
        Err(e) => {},
        Ok(step) => match step.ch {
            None => {},
            Some(ch) => {
                lemma_walk_path_bounds(buf, path, step.node_pos, step.bit_pos);
            },
        },
    }
}

/// A variant ends after its first three bytes and within the buffer.
pub proof fn lemma_variant_end_bounds(buf: Seq<u8>, pos: int)
    requires
        0 <= pos,
        pos + 3 <= buf.len(),
    ensures
        pos + 3 <= spec_variant_end(buf, pos) <= buf.len(),
{
    lemma_walk_path_bounds(buf, spec_variant_path(buf, pos), root_pos() as int, 0);
}

} // verus!
