//! Conversions between strings and sequences of characters.

use crate::dictionary::str_from_utf8;
use vstd::prelude::*;
use vstd::slice::slice_subrange;
use vstd::std_specs::bits::u8_leading_ones;
use vstd::string::StrSliceExecFns;
use vstd::utf8::{decode_utf8, encode_utf8, valid_utf8};

verus! {

/// What `char::is_alphabetic` says of a character: whether Unicode gives it
/// the property Alphabetic.
pub uninterp spec fn spec_is_alphabetic(ch: char) -> bool;

/// What `char::to_lowercase` gives for a character: its lower case form,
/// which may be several characters long.
pub uninterp spec fn spec_to_lowercase(ch: char) -> Seq<char>;

/// What `char::to_uppercase` gives for a character: its upper case form,
/// which may be several characters long.
pub uninterp spec fn spec_to_uppercase(ch: char) -> Seq<char>;

/// `char::is_alphabetic`: the result depends on the character alone.
pub assume_specification[ char::is_alphabetic ](ch: char) -> (r: bool)
    ensures
        r == spec_is_alphabetic(ch),
;

/// `char::to_lowercase`, its characters gathered in a string: the result
/// depends on the character alone.
#[verifier::external_body]
pub(crate) fn to_lowercase(ch: char) -> (r: String)
    ensures
        r@ == spec_to_lowercase(ch),
{
    ch.to_lowercase().collect()
}

/// `char::to_uppercase`, its characters gathered in a string: the result
/// depends on the character alone.
#[verifier::external_body]
pub(crate) fn to_uppercase(ch: char) -> (r: String)
    ensures
        r@ == spec_to_uppercase(ch),
{
    ch.to_uppercase().collect()
}

/// Equality of string slices: they are equal when they hold the same
/// characters.
pub assume_specification[ <str as PartialEq>::eq ](a: &str, b: &str) -> (r: bool)
    ensures
        r == (a@ == b@),
;

/// `String::push` appends one character to the end of the string.
pub assume_specification[ String::push ](s: &mut String, ch: char)
    ensures
        final(s)@ == old(s)@.push(ch),
;

/// Whether a number is a Unicode scalar value: a code point that is no
/// surrogate.
pub open spec fn spec_is_scalar(code: int) -> bool {
    0 <= code <= 0xD7FF || 0xE000 <= code <= 0x10FFFF
}

/// `char::from_u32` gives the character with the given number where the
/// number is a Unicode scalar value, and nothing otherwise.
pub assume_specification[ char::from_u32 ](code: u32) -> (r: Option<char>)
    ensures
        r is Some <==> spec_is_scalar(code as int),
        r matches Some(ch) ==> ch as u32 == code,
;

/// The character that stands for a code point handed over as a signed
/// number: the character with that number, or U+FFFD where the number is
/// negative, a surrogate or past the last code point.
pub fn char_from_code_point(code: i32) -> (ch: char)
    ensures
        spec_is_scalar(code as int) ==> ch as u32 == code,
        !spec_is_scalar(code as int) ==> ch == '\u{FFFD}',
{
    if code < 0 {
        '\u{FFFD}'
    } else {
        match char::from_u32(code as u32) {
            Some(ch) => ch,
            None => '\u{FFFD}',
        }
    }
}

/// The characters of a string, in order.
pub fn str_to_chars(s: &str) -> (chars: Vec<char>)
    ensures
        chars@ == s@,
{
    let mut chars: Vec<char> = Vec::new();
    for ch in it: s.chars()
        invariant
            it.seq() == s@,
            chars@ == it.seq().take(it.index() as int),
    {
        chars.push(ch);
        assert(it.seq().take(it.index() + 1) =~= it.seq().take(it.index() as int).push(ch));
    }
    assert(chars@ =~= s@);
    chars
}

/// The string made of the given characters, in order.
pub fn chars_to_string(chars: &[char]) -> (s: String)
    ensures
        s@ == chars@,
{
    let mut s = String::new();
    let mut i: usize = 0;
    while i < chars.len()
        invariant
            i <= chars.len(),
            s@ == chars@.take(i as int),
        decreases chars.len() - i,
    {
        s.push(chars[i]);
        assert(chars@.take(i + 1) =~= chars@.take(i as int).push(chars@[i as int]));
        i = i + 1;
    }
    assert(chars@.take(chars.len() as int) =~= chars@);
    s
}

/// The place of the first `ch` in `s`: the length of `s` where it holds
/// none.
pub open spec fn spec_index_of(s: Seq<char>, ch: char) -> nat
    decreases s.len(),
{
    if s.len() == 0 || s[0] == ch {
        0
    } else {
        1 + spec_index_of(s.drop_first(), ch)
    }
}

/// The place of the first `ch` lies within `s`, holds `ch` where it is not
/// the end, and no `ch` comes before it.
pub proof fn lemma_index_of(s: Seq<char>, ch: char)
    ensures
        spec_index_of(s, ch) <= s.len(),
        spec_index_of(s, ch) < s.len() ==> s[spec_index_of(s, ch) as int] == ch,
        forall|i: int| 0 <= i < spec_index_of(s, ch) ==> s[i] != ch,
    decreases s.len(),
{
    if s.len() == 0 || s[0] == ch {
    } else {
        lemma_index_of(s.drop_first(), ch);
        assert forall|i: int| 0 <= i < spec_index_of(s, ch) implies s[i] != ch by {
            if i > 0 {
                assert(s[i] == s.drop_first()[i - 1]);
            }
        }
    }
}

/// The place of the first `ch` at or after `start`: the length of `s` where
/// there is none.
pub fn index_of(s: &[char], start: usize, ch: char) -> (end: usize)
    requires
        start <= s@.len(),
    ensures
        end == start + spec_index_of(s@.skip(start as int), ch),
        start <= end <= s@.len(),
{
    let ghost rest = s@.skip(start as int);
    proof {
        lemma_index_of(rest, ch);
    }
    let mut end: usize = start;
    while end < s.len() && s[end] != ch
        invariant
            start <= end <= s.len(),
            rest == s@.skip(start as int),
            forall|i: int| 0 <= i < end - start ==> rest[i] != ch,
        decreases s.len() - end,
    {
        end = end + 1;
    }
    proof {
        let n = spec_index_of(rest, ch);
        if end - start < n {
            assert(rest[end - start] == s@[end as int]);
        }
    }
    end
}

/// Whether two byte strings are the same.
pub fn bytes_eq(a: &[u8], b: &[u8]) -> (r: bool)
    ensures
        r == (a@ == b@),
{
    if a.len() != b.len() {
        return false;
    }
    let mut i: usize = 0;
    while i < a.len()
        invariant
            i <= a.len(),
            a.len() == b.len(),
            forall|j: int| 0 <= j < i ==> a@[j] == b@[j],
        decreases a.len() - i,
    {
        if a[i] != b[i] {
            return false;
        }
        i = i + 1;
    }
    assert(a@ =~= b@);
    true
}

/// What can be wrong with bytes that should be a text.
#[derive(Debug, Clone, Copy, PartialEq, Eq, Structural)]
pub enum InputError {
    /// The bytes are not the UTF-8 encoding of a character.
    InvalidUtf8,
    /// The bytes end in the middle of a character.
    UnexpectedEof,
}

/// The number of bytes that are taken for a character with the given first
/// byte: the number of its leading one bits, but at least one and at most
/// four.
pub open spec fn spec_char_len(first: u8) -> usize {
    if u8_leading_ones(first) == 0 {
        1
    } else if u8_leading_ones(first) > 4 {
        4
    } else {
        u8_leading_ones(first) as usize
    }
}

/// The character whose UTF-8 encoding starts at `pos`, and the number of
/// bytes it takes; nothing at the end of the bytes.
pub open spec fn spec_read_char(bytes: Seq<u8>, pos: int) -> Result<Option<(char, usize)>, InputError> {
    if pos < 0 || pos >= bytes.len() {
        Ok(None)
    } else if pos + spec_char_len(bytes[pos]) > bytes.len() {
        Err(InputError::UnexpectedEof)
    } else if valid_utf8(bytes.subrange(pos, pos + spec_char_len(bytes[pos]))) {
        Ok(
            Some(
                (
                    decode_utf8(bytes.subrange(pos, pos + spec_char_len(bytes[pos])))[0],
                    spec_char_len(bytes[pos]),
                ),
            ),
        )
    } else {
        Err(InputError::InvalidUtf8)
    }
}

/// A text read from bytes, and the error that cut it short, if any.
pub struct TextRead {
    pub chars: Seq<char>,
    pub error: Option<InputError>,
}

/// The characters that the bytes hold from `pos` on, up to their end or to
/// the first bytes that are no character.
pub open spec fn spec_read_chars(bytes: Seq<u8>, pos: int) -> TextRead
    decreases bytes.len() - pos,
{
    match spec_read_char(bytes, pos) {
        Err(e) => TextRead { chars: Seq::empty(), error: Some(e) },
        Ok(None) => TextRead { chars: Seq::empty(), error: None },
        Ok(Some((ch, len))) => {
            if len == 0 || pos + len > bytes.len() {
                TextRead { chars: Seq::empty(), error: Some(InputError::InvalidUtf8) }
            } else {
                let rest = spec_read_chars(bytes, pos + len);
                TextRead { chars: seq![ch] + rest.chars, error: rest.error }
            }
        },
    }
}

/// Reads characters from bytes, one at a time.
pub struct CharRead<'a> {
    bytes: &'a [u8],
    pos: usize,
    error: Option<InputError>,
}

impl<'a> CharRead<'a> {
    /// The bytes that are read.
    pub closed spec fn bytes(&self) -> Seq<u8> {
        self.bytes@
    }

    /// The place of the next character.
    pub closed spec fn pos(&self) -> int {
        self.pos as int
    }

    /// The error that ended the reading, if one did.
    pub closed spec fn spec_error(&self) -> Option<InputError> {
        self.error
    }

    /// A reader at the first of the bytes.
    pub fn new(bytes: &'a [u8]) -> (reader: CharRead<'a>)
        ensures
            reader.bytes() == bytes@,
            reader.pos() == 0,
            reader.spec_error() is None,
    {
        CharRead { bytes, pos: 0, error: None }
    }

    /// The error that ended the reading, if one did.
    pub fn error(&self) -> (error: Option<InputError>)
        ensures
            error == self.spec_error(),
    {
        self.error
    }

    /// Reads the next character: nothing at the end of the bytes.
    pub fn read_char(&mut self) -> (r: Result<Option<char>, InputError>)
        ensures
            final(self).bytes() == old(self).bytes(),
            final(self).spec_error() == old(self).spec_error(),
            final(self).pos() <= old(self).bytes().len() || final(self).pos() == old(self).pos(),
            match spec_read_char(old(self).bytes(), old(self).pos()) {
                Ok(Some((ch, len))) => {
                    &&& r == Ok::<Option<char>, InputError>(Some(ch))
                    &&& len >= 1
                    &&& final(self).pos() == old(self).pos() + len
                },
                Ok(None) => {
                    &&& r == Ok::<Option<char>, InputError>(None)
                    &&& final(self).pos() == old(self).pos()
                },
                Err(e) => {
                    &&& r == Err::<Option<char>, InputError>(e)
                    &&& final(self).pos() == old(self).pos()
                },
            },
    {
        if self.pos >= self.bytes.len() {
            return Ok(None);
        }
        let first = self.bytes[self.pos];
        let ones = first.leading_ones();
        proof {
            vstd::std_specs::bits::axiom_u8_leading_ones(first);
        }
        let utf8_len: usize = if ones == 0 {
            1
        } else if ones > 4 {
            4
        } else {
            ones as usize
        };
        if utf8_len > self.bytes.len() - self.pos {
            return Err(InputError::UnexpectedEof);
        }
        let ch_data = slice_subrange(self.bytes, self.pos, self.pos + utf8_len);
        match str_from_utf8(ch_data) {
            None => Err(InputError::InvalidUtf8),
            Some(s) => {
                proof {
                    vstd::utf8::encode_utf8_decode_utf8(s@);
                    if s@.len() == 0 {
                        assert(encode_utf8(s@).len() == 0);
                    }
                }
                let ch = s.get_char(0);
                self.pos = self.pos + utf8_len;
                Ok(Some(ch))
            },
        }
    }

    /// The next character of the text: nothing at its end, and nothing
    /// where the bytes are no character, which is then kept as the error.
    pub fn next(&mut self) -> (r: Option<char>)
        ensures
            final(self).bytes() == old(self).bytes(),
            final(self).pos() <= old(self).bytes().len() || final(self).pos() == old(self).pos(),
            match spec_read_char(old(self).bytes(), old(self).pos()) {
                Ok(Some((ch, len))) => {
                    &&& r == Some(ch)
                    &&& len >= 1
                    &&& final(self).pos() == old(self).pos() + len
                    &&& final(self).spec_error() == old(self).spec_error()
                },
                Ok(None) => {
                    &&& r is None
                    &&& final(self).pos() == old(self).pos()
                    &&& final(self).spec_error() == old(self).spec_error()
                },
                Err(e) => {
                    &&& r is None
                    &&& final(self).pos() == old(self).pos()
                    &&& final(self).spec_error() == Some(e)
                },
            },
    {
        match self.read_char() {
            Err(e) => {
                self.error = Some(e);
                None
            },
            Ok(c) => c,
        }
    }
}

/// Reads the text that the bytes hold and appends it to `output`, up to
/// the end of the bytes or to the first bytes that are no character.
pub fn read_chars(bytes: &[u8], output: &mut String) -> (r: Result<(), InputError>)
    ensures
        final(output)@ == old(output)@ + spec_read_chars(bytes@, 0).chars,
        match spec_read_chars(bytes@, 0).error {
            None => r == Ok::<(), InputError>(()),
            Some(e) => r == Err::<(), InputError>(e),
        },
{
    let ghost goal = spec_read_chars(bytes@, 0);
    let ghost before = output@;
    let mut reader = CharRead::new(bytes);
    loop
        invariant
            reader.bytes() == bytes@,
            0 <= reader.pos(),
            reader.spec_error() is None,
            before == old(output)@,
            goal == spec_read_chars(bytes@, 0),
            goal.error == spec_read_chars(bytes@, reader.pos()).error,
            before + goal.chars == output@ + spec_read_chars(bytes@, reader.pos()).chars,
        decreases bytes@.len() - reader.pos(),
    {
        let ghost rest = spec_read_chars(bytes@, reader.pos());
        match reader.next() {
            Some(ch) => {
                proof {
                    let tail = spec_read_chars(bytes@, reader.pos());
                    assert(output@ + (seq![ch] + tail.chars) =~= output@.push(ch) + tail.chars);
                }
                output.push(ch);
            },
            None => {
                assert(output@ + Seq::<char>::empty() =~= output@);
                return match reader.error() {
                    None => Ok(()),
                    Some(e) => Err(e),
                };
            },
        }
    }
}

} // verus!
