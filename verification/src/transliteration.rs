//! Transliterating running text with a compiled dictionary: words are looked
//! up, the variant that fits the word before is chosen, and sentences, proper
//! nouns and the pronoun "I" get their capital letter.

use crate::dictionary;
use crate::dictionary::{
    extract_variant, find_word, spec_find_word, spec_variant_is_last, spec_variant_next,
    spec_variant_payload, spec_variant_translation, PathOutcome, PathWalker, Variant,
};
use crate::parts_of_speech::{pair_priority, spec_pair_priority, NP0, N_POS, PNP, START_OF_SENTENCE};
use crate::text::{
    chars_to_string, index_of, spec_index_of, spec_is_alphabetic, spec_to_lowercase,
    spec_to_uppercase, str_to_chars, to_lowercase, to_uppercase,
};
use std::cmp::Ordering;
use vstd::prelude::*;
use vstd::slice::slice_subrange;
use vstd::string::StringExecFns;

verus! {

/// Why a transliteration stopped.
#[derive(Debug, Clone, Copy, PartialEq, Eq, Structural)]
pub enum Error {
    /// The dictionary is malformed.
    Dictionary(dictionary::Error),
    /// The place that takes the output refused it.
    Format,
}

impl Error {
    /// What went wrong, in words.
    pub fn to_string(&self) -> (message: String)
        ensures
            message@ == (match self {
                Error::Dictionary(e) => (match e {
                    dictionary::Error::UnexpectedEof => "unexpected EOF"@,
                    dictionary::Error::InvalidLengthHeader => "invalid length header"@,
                    dictionary::Error::OffsetTooLong => "offset too long"@,
                    dictionary::Error::InvalidCharacter => "invalid character"@,
                    dictionary::Error::ChildIndexOutOfRange => "child index out of range"@,
                }),
                Error::Format => "an error occurred when formatting an argument"@,
            }),
    {
        match self {
            Error::Dictionary(e) => e.to_string(),
            Error::Format => "an error occurred when formatting an argument".to_owned(),
        }
    }
}

/// The score of the tag `right` straight after the tag `left`; a tag outside
/// the inventory scores nothing.
pub open spec fn spec_score_part_of_speech(left: u8, right: u8) -> u8 {
    if left >= N_POS || right >= N_POS {
        0
    } else {
        spec_pair_priority(left, right)
    }
}

/// Whether, after the tag `left`, the tag `candidate` is a better match than
/// the tag `best`.  After a tag outside the inventory none is better than
/// another.
pub open spec fn spec_prefers(left: u8, best: u8, candidate: u8) -> bool {
    left < N_POS && spec_score_part_of_speech(left, best) < spec_score_part_of_speech(
        left,
        candidate,
    )
}

/// The score of the tag `right` straight after the tag `left`.
pub fn score_part_of_speech(left: u8, right: u8) -> (score: u8)
    requires
        left < N_POS,
    ensures
        score == spec_score_part_of_speech(left, right),
{
    if right >= 40 {
        0
    } else {
        pair_priority(left, right)
    }
}

/// Compares two tags by their score after the tag `left`.
pub fn compare_parts_of_speech(left: u8, right_a: u8, right_b: u8) -> (r: Ordering)
    ensures
        (r == Ordering::Less) == spec_prefers(left, right_a, right_b),
        (r == Ordering::Greater) == spec_prefers(left, right_b, right_a),
{
    if left >= 40 {
        return Ordering::Equal;
    }
    let score_a = score_part_of_speech(left, right_a);
    let score_b = score_part_of_speech(left, right_b);
    if score_a < score_b {
        Ordering::Less
    } else if score_a > score_b {
        Ordering::Greater
    } else {
        Ordering::Equal
    }
}

/// Whether the tag `candidate` is a better match after `left` than `best`.
fn is_better_variant(left: u8, best: u8, candidate: u8) -> (r: bool)
    ensures
        r == spec_prefers(left, best, candidate),
{
    match compare_parts_of_speech(left, best, candidate) {
        Ordering::Less => true,
        _ => false,
    }
}

/// What writing a word gives: the characters written, the tag that the next
/// word will see before it, and the error that cut the writing short, if any.
pub struct WordOutcome {
    pub output: Seq<char>,
    pub last_pos: Option<u8>,
    pub error: Option<dictionary::Error>,
}

/// Whether a variant gets a capital: at the start of a sentence, for a
/// proper noun, and for the personal pronoun whose translation is the single
/// letter "i".
pub open spec fn spec_should_capitalize(
    last_pos: Option<u8>,
    payload: u8,
    translation: PathOutcome,
) -> Result<bool, dictionary::Error> {
    if last_pos == Some(START_OF_SENTENCE) {
        Ok(true)
    } else if payload == NP0 {
        Ok(true)
    } else if payload == PNP {
        if translation.chars.len() == 0 {
            match translation.error {
                Some(e) => Err(e),
                None => Ok(false),
            }
        } else {
            Ok(translation.chars[0] == 'i' && translation.chars.len() == 1 && translation.error is None)
        }
    } else {
        Ok(false)
    }
}

/// The characters with the first in upper case, where a capital is asked
/// for.
pub open spec fn spec_capitalized(chars: Seq<char>, capitalize: bool) -> Seq<char> {
    if capitalize && chars.len() > 0 {
        spec_to_uppercase(chars[0]) + chars.drop_first()
    } else {
        chars
    }
}

/// Writing the variant at `pos`: its translation, as far as it can be read,
/// with a capital where it gets one.  Its tag is what the next word sees.
#[verifier::opaque]
pub open spec fn spec_write_variant(buf: Seq<u8>, pos: int, last_pos: Option<u8>) -> WordOutcome {
    let translation = spec_variant_translation(buf, pos);
    let payload = spec_variant_payload(buf, pos);
    match spec_should_capitalize(last_pos, payload, translation) {
        Err(e) => WordOutcome { output: Seq::empty(), last_pos, error: Some(e) },
        Ok(capitalize) => WordOutcome {
            output: spec_capitalized(translation.chars, capitalize),
            last_pos: Some(payload),
            error: translation.error,
        },
    }
}

/// The variant to use after the tag `left`, among the variant at `best` and
/// those that follow the variant at `pos`: a later one replaces the best so
/// far only where it scores higher, so of equals the first wins.
pub open spec fn spec_best_variant(buf: Seq<u8>, pos: int, best: int, left: u8) -> Result<
    int,
    dictionary::Error,
>
    decreases buf.len() - pos,
{
    match spec_variant_next(buf, pos) {
        Err(e) => Err(e),
        Ok(None) => Ok(best),
        Ok(Some(next)) => {
            if next + 3 > buf.len() {
                Err(dictionary::Error::UnexpectedEof)
            } else if spec_prefers(
                left,
                spec_variant_payload(buf, best),
                spec_variant_payload(buf, next),
            ) {
                spec_best_variant(buf, next, next, left)
            } else {
                spec_best_variant(buf, next, best, left)
            }
        },
    }
}

/// The variant to write of the word whose variants start at `pos`.  Where
/// the word before is unknown, or the word has one variant, it is the first
/// variant; else the best after the tag of the word before.
pub open spec fn spec_choose_variant(buf: Seq<u8>, pos: int, last_pos: Option<u8>) -> Result<
    int,
    dictionary::Error,
> {
    if pos < 0 || pos + 3 > buf.len() {
        Err(dictionary::Error::UnexpectedEof)
    } else {
        match last_pos {
            None => Ok(pos),
            Some(left) => {
                if spec_variant_is_last(buf, pos) {
                    Ok(pos)
                } else {
                    spec_best_variant(buf, pos, pos, left)
                }
            },
        }
    }
}

/// Writing the word whose variants start at `pos`: the variant that is
/// chosen for it is written.
#[verifier::opaque]
pub open spec fn spec_choose_and_write_variant(
    buf: Seq<u8>,
    pos: int,
    last_pos: Option<u8>,
) -> WordOutcome {
    match spec_choose_variant(buf, pos, last_pos) {
        Err(e) => WordOutcome { output: Seq::empty(), last_pos, error: Some(e) },
        Ok(best) => spec_write_variant(buf, best, last_pos),
    }
}

/// The length of what stands before the first hyphen of `word`: that of the
/// word where it has none.
pub open spec fn spec_first_part_len(word: Seq<char>) -> nat {
    spec_index_of(word, '-')
}

/// Writing one part of a word that is not in the dictionary as a whole: a
/// part that is in the dictionary is written like a word; one that is not is
/// written as it stands, and leaves the next word without a tag before it.
#[verifier::opaque]
pub open spec fn spec_write_part(buf: Seq<u8>, part: Seq<char>, last_pos: Option<u8>) -> WordOutcome {
    match spec_find_word(buf, part) {
        Err(e) => WordOutcome { output: Seq::empty(), last_pos, error: Some(e) },
        Ok(Some(pos)) => spec_choose_and_write_variant(buf, pos as int, last_pos),
        Ok(None) => WordOutcome { output: part, last_pos: None, error: None },
    }
}

/// Writing a word that is not in the dictionary as a whole: it is split at
/// its hyphens, the parts are written one by one, and the hyphens are put
/// back between them.
pub open spec fn spec_write_hyphenated_parts(
    buf: Seq<u8>,
    word: Seq<char>,
    last_pos: Option<u8>,
) -> WordOutcome
    decreases word.len(),
{
    let n = spec_first_part_len(word);
    let first = spec_write_part(buf, word.take(n as int), last_pos);
    if first.error is Some || n >= word.len() {
        first
    } else {
        let rest = spec_write_hyphenated_parts(buf, word.skip(n as int + 1), first.last_pos);
        WordOutcome {
            output: first.output.push('-') + rest.output,
            last_pos: rest.last_pos,
            error: rest.error,
        }
    }
}

/// Writing the word gathered so far, if there is one: by its entry in the
/// dictionary, or else part by part.
#[verifier::opaque]
pub open spec fn spec_flush_buf(buf: Seq<u8>, word: Seq<char>, last_pos: Option<u8>) -> WordOutcome {
    if word.len() == 0 {
        WordOutcome { output: Seq::empty(), last_pos, error: None }
    } else {
        match spec_find_word(buf, word) {
            Err(e) => WordOutcome { output: Seq::empty(), last_pos, error: Some(e) },
            Ok(Some(pos)) => spec_choose_and_write_variant(buf, pos as int, last_pos),
            Ok(None) => spec_write_hyphenated_parts(buf, word, last_pos),
        }
    }
}

/// Whether the character at `pos` of the input is a letter; false at the end
/// of the input.
pub open spec fn spec_next_is_alphabetic(input: Seq<char>, pos: int) -> bool {
    0 <= pos < input.len() && spec_is_alphabetic(input[pos])
}

/// Apostrophe, hyphen and right single quotation mark: they belong to a word
/// when they stand between two of its letters.
pub open spec fn spec_is_glue(ch: char) -> bool {
    ch == '\'' || ch == '-' || ch == '\u{2019}'
}

/// What a transliteration gives: the text written, and the error that cut it
/// short, if any.
pub struct RunOutcome {
    pub output: Seq<char>,
    pub error: Option<dictionary::Error>,
}

/// The transliteration of the input from `pos` on, with `word` gathered so
/// far and `last_pos` the tag of the word before.  Letters are gathered in
/// lower case.  A glue character between letters joins the word, a right
/// single quotation mark as an apostrophe.  Any other character ends the
/// word, which is written, and is then written itself; a full stop that no
/// letter follows starts a new sentence.
pub open spec fn spec_run(
    buf: Seq<u8>,
    input: Seq<char>,
    pos: int,
    word: Seq<char>,
    last_pos: Option<u8>,
) -> RunOutcome
    decreases input.len() - pos,
{
    if pos < 0 || pos >= input.len() {
        let flushed = spec_flush_buf(buf, word, last_pos);
        RunOutcome { output: flushed.output, error: flushed.error }
    } else {
        let ch = input[pos];
        if spec_is_alphabetic(ch) {
            spec_run(buf, input, pos + 1, word + spec_to_lowercase(ch), last_pos)
        } else if word.len() > 0 && spec_is_glue(ch) && spec_next_is_alphabetic(input, pos + 1) {
            spec_run(
                buf,
                input,
                pos + 1,
                word.push(
                    if ch == '\u{2019}' {
                        '\''
                    } else {
                        ch
                    },
                ),
                last_pos,
            )
        } else {
            let flushed = spec_flush_buf(buf, word, last_pos);
            if flushed.error is Some {
                RunOutcome { output: flushed.output, error: flushed.error }
            } else {
                let rest = spec_run(
                    buf,
                    input,
                    pos + 1,
                    Seq::empty(),
                    if ch == '.' && !spec_next_is_alphabetic(input, pos + 1) {
                        Some(START_OF_SENTENCE)
                    } else {
                        flushed.last_pos
                    },
                );
                RunOutcome { output: flushed.output.push(ch) + rest.output, error: rest.error }
            }
        }
    }
}

/// The transliteration of a text that starts a sentence.
pub open spec fn spec_transliterate(buf: Seq<u8>, input: Seq<char>) -> RunOutcome {
    spec_run(buf, input, 0, Seq::empty(), Some(START_OF_SENTENCE))
}

/// Whether the character at `pos` of the input is a letter.
pub fn next_is_alphabetic(input: &[char], pos: usize) -> (r: bool)
    ensures
        r == spec_next_is_alphabetic(input@, pos as int),
{
    pos < input.len() && input[pos].is_alphabetic()
}

/// Chooses the variant to write of the word whose variants start at
/// `variant_pos`, after a word with the tag `last_pos`: the place of the
/// first variant where the word before is unknown or the word has one
/// variant, and else that of the variant with the highest score, the first
/// of those that have it.
#[verifier::loop_isolation(false)]
pub fn choose_variant(dictionary: &[u8], variant_pos: usize, last_pos: Option<u8>) -> (r: Result<
    usize,
    dictionary::Error,
>)
    ensures
        match r {
            Ok(best) => {
                &&& spec_choose_variant(dictionary@, variant_pos as int, last_pos) == Ok::<
                    int,
                    dictionary::Error,
                >(best as int)
                &&& best + 3 <= dictionary@.len()
            },
            Err(e) => spec_choose_variant(dictionary@, variant_pos as int, last_pos) == Err::<
                int,
                dictionary::Error,
            >(e),
        },
{
    let ghost buf = dictionary@;
    let first = match extract_variant(dictionary, variant_pos) {
        Ok(variant) => variant,
        Err(e) => {
            return Err(e);
        },
    };
    let left = match last_pos {
        None => {
            return Ok(variant_pos);
        },
        Some(left) => left,
    };
    if first.is_last {
        return Ok(variant_pos);
    }
    let mut variant = first;
    let mut best_variant = first;
    loop
        invariant
            variant.wf(),
            variant.is_fresh(),
            variant.translation.buf() == buf,
            variant.is_last == spec_variant_is_last(buf, variant.pos as int),
            best_variant.wf(),
            best_variant.translation.buf() == buf,
            best_variant.payload == spec_variant_payload(buf, best_variant.pos as int),
            spec_best_variant(buf, variant_pos as int, variant_pos as int, left)
                == spec_best_variant(buf, variant.pos as int, best_variant.pos as int, left),
        decreases buf.len() - variant.pos,
    {
        let next_pos = match variant.into_next_offset() {
            Ok(Some(next_pos)) => next_pos,
            Ok(None) => {
                break ;
            },
            Err(e) => {
                return Err(e);
            },
        };
        variant = match extract_variant(dictionary, next_pos) {
            Ok(variant) => variant,
            Err(e) => {
                return Err(e);
            },
        };
        if is_better_variant(left, best_variant.payload, variant.payload) {
            best_variant = variant;
        }
    }
    Ok(best_variant.pos)
}

/// The state of a transliteration: the word gathered so far, the tag of the
/// word before, and what was written.
struct Transliterater<'a> {
    dictionary: &'a [u8],
    output: String,
    buf: String,
    last_pos: Option<u8>,
}

impl<'a> Transliterater<'a> {
    /// A transliteration at the start of a sentence.
    fn new(dictionary: &'a [u8]) -> (t: Self)
        ensures
            t.dictionary == dictionary,
            t.output@ == Seq::<char>::empty(),
            t.buf@ == Seq::<char>::empty(),
            t.last_pos == Some(START_OF_SENTENCE),
    {
        Transliterater {
            dictionary,
            output: String::new(),
            buf: String::new(),
            last_pos: Some(START_OF_SENTENCE),
        }
    }

    /// Writes the rest of a translation, with a capital where one is asked for.
    fn write_path(&mut self, path: PathWalker<'a>, capitalize: bool) -> (r: Result<
        (),
        dictionary::Error,
    >)
        requires
            path.wf(),
        ensures
            final(self).dictionary == old(self).dictionary,
            final(self).buf == old(self).buf,
            final(self).last_pos == old(self).last_pos,
            final(self).output@ == old(self).output@ + spec_capitalized(
                path.rest().chars,
                capitalize,
            ),
            match r {
                Ok(()) => path.rest().error is None,
                Err(e) => path.rest().error == Some(e),
            },
    {
        let mut walker = path;
        let ghost goal = self.output@ + spec_capitalized(path.rest().chars, capitalize);
        if capitalize {
            match walker.next() {
                None => {
                    assert(goal =~= self.output@);
                    return Ok(());
                },
                Some(Err(e)) => {
                    assert(goal =~= self.output@);
                    return Err(e);
                },
                Some(Ok(ch)) => {
                    let upper = to_uppercase(ch);
                    self.output.append(upper.as_str());
                },
            }
        }
        assert(goal =~= self.output@ + walker.rest().chars);
        loop
            invariant
                walker.wf(),
                self.dictionary == old(self).dictionary,
                self.buf == old(self).buf,
                self.last_pos == old(self).last_pos,
                walker.rest().error == path.rest().error,
                goal == old(self).output@ + spec_capitalized(path.rest().chars, capitalize),
                goal == self.output@ + walker.rest().chars,
            decreases walker.buf().len() - walker.node_pos(),
        {
            let ghost left = walker.rest().chars;
            match walker.next() {
                None => {
                    assert(self.output@ + left =~= self.output@);
                    return Ok(());
                },
                Some(Err(e)) => {
                    assert(self.output@ + left =~= self.output@);
                    return Err(e);
                },
                Some(Ok(ch)) => {
                    assert(self.output@.push(ch) + left.drop_first() =~= self.output@ + left);
                    self.output.push(ch);
                },
            }
        }
    }

    /// Whether a variant gets a capital.
    fn should_capitalize(&self, variant: &Variant<'a>) -> (r: Result<bool, dictionary::Error>)
        requires
            variant.translation.wf(),
        ensures
            r == spec_should_capitalize(
                self.last_pos,
                variant.payload,
                variant.translation.rest(),
            ),
    {
        if let Some(pos) = self.last_pos {
            if pos == START_OF_SENTENCE {
                return Ok(true);
            }
        }
        if variant.payload == NP0 {
            return Ok(true);
        }
        if variant.payload == PNP {
            let mut translation = variant.translation;
            match translation.next() {
                None => {
                    return Ok(false);
                },
                Some(Err(e)) => {
                    return Err(e);
                },
                Some(Ok(first_letter)) => {
                    if first_letter != 'i' {
                        return Ok(false);
                    }
                    return Ok(translation.next().is_none());
                },
            }
        }
        Ok(false)
    }

    /// Writes a variant and takes its tag as that of the word before.
    fn write_variant(&mut self, variant: Variant<'a>) -> (r: Result<(), dictionary::Error>)
        requires
            variant.wf(),
            variant.is_fresh(),
            variant.translation.buf() == old(self).dictionary@,
            variant.payload == spec_variant_payload(old(self).dictionary@, variant.pos as int),
        ensures
            final(self).dictionary == old(self).dictionary,
            final(self).buf == old(self).buf,
            final(self).output@ == old(self).output@ + spec_write_variant(
                old(self).dictionary@,
                variant.pos as int,
                old(self).last_pos,
            ).output,
            final(self).last_pos == spec_write_variant(
                old(self).dictionary@,
                variant.pos as int,
                old(self).last_pos,
            ).last_pos,
            match r {
                Ok(()) => spec_write_variant(
                    old(self).dictionary@,
                    variant.pos as int,
                    old(self).last_pos,
                ).error is None,
                Err(e) => spec_write_variant(
                    old(self).dictionary@,
                    variant.pos as int,
                    old(self).last_pos,
                ).error == Some(e),
            },
    {
        proof {
            reveal(spec_write_variant);
            variant.lemma_fresh_rest();
        }
        let capitalize = match self.should_capitalize(&variant) {
            Ok(capitalize) => capitalize,
            Err(e) => {
                assert(self.output@ + Seq::<char>::empty() =~= self.output@);
                return Err(e);
            },
        };
        self.last_pos = Some(variant.payload);
        self.write_path(variant.translation, capitalize)
    }

    /// Writes the word whose variants start at `variant_pos`: the variant that
    /// fits the word before.
    fn choose_and_write_variant(&mut self, variant_pos: usize) -> (r: Result<
        (),
        dictionary::Error,
    >)
        ensures
            final(self).dictionary == old(self).dictionary,
            final(self).buf == old(self).buf,
            final(self).output@ == old(self).output@ + spec_choose_and_write_variant(
                old(self).dictionary@,
                variant_pos as int,
                old(self).last_pos,
            ).output,
            final(self).last_pos == spec_choose_and_write_variant(
                old(self).dictionary@,
                variant_pos as int,
                old(self).last_pos,
            ).last_pos,
            match r {
                Ok(()) => spec_choose_and_write_variant(
                    old(self).dictionary@,
                    variant_pos as int,
                    old(self).last_pos,
                ).error is None,
                Err(e) => spec_choose_and_write_variant(
                    old(self).dictionary@,
                    variant_pos as int,
                    old(self).last_pos,
                ).error == Some(e),
            },
    {
        proof {
            reveal(spec_choose_and_write_variant);
        }
        let best = match choose_variant(self.dictionary, variant_pos, self.last_pos) {
            Ok(best) => best,
            Err(e) => {
                assert(self.output@ + Seq::<char>::empty() =~= self.output@);
                return Err(e);
            },
        };
        match extract_variant(self.dictionary, best) {
            Ok(variant) => self.write_variant(variant),
            Err(e) => Err(e),
        }
    }

    /// Writes one part of a word that is not in the dictionary as a whole.
    fn write_part(&mut self, part: &[char]) -> (r: Result<(), dictionary::Error>)
        ensures
            final(self).dictionary == old(self).dictionary,
            final(self).buf == old(self).buf,
            final(self).output@ == old(self).output@ + spec_write_part(
                old(self).dictionary@,
                part@,
                old(self).last_pos,
            ).output,
            final(self).last_pos == spec_write_part(
                old(self).dictionary@,
                part@,
                old(self).last_pos,
            ).last_pos,
            match r {
                Ok(()) => spec_write_part(old(self).dictionary@, part@, old(self).last_pos).error
                    is None,
                Err(e) => spec_write_part(old(self).dictionary@, part@, old(self).last_pos).error
                    == Some(e),
            },
    {
        proof {
            reveal(spec_write_part);
        }
        let part = chars_to_string(part);
        match find_word(self.dictionary, part.as_str()) {
            Err(e) => {
                assert(self.output@ + Seq::<char>::empty() =~= self.output@);
                Err(e)
            },
            Ok(Some(variant_pos)) => self.choose_and_write_variant(variant_pos),
            Ok(None) => {
                self.last_pos = None;
                self.output.append(part.as_str());
                Ok(())
            },
        }
    }

    /// Writes a word that is not in the dictionary as a whole, part by part.
    #[verifier::loop_isolation(false)]
    fn write_hyphenated_parts(&mut self, word: &[char]) -> (r: Result<(), dictionary::Error>)
        ensures
            final(self).dictionary == old(self).dictionary,
            final(self).buf == old(self).buf,
            final(self).output@ == old(self).output@ + spec_write_hyphenated_parts(
                old(self).dictionary@,
                word@,
                old(self).last_pos,
            ).output,
            final(self).last_pos == spec_write_hyphenated_parts(
                old(self).dictionary@,
                word@,
                old(self).last_pos,
            ).last_pos,
            match r {
                Ok(()) => spec_write_hyphenated_parts(
                    old(self).dictionary@,
                    word@,
                    old(self).last_pos,
                ).error is None,
                Err(e) => spec_write_hyphenated_parts(
                    old(self).dictionary@,
                    word@,
                    old(self).last_pos,
                ).error == Some(e),
            },
    {
        let ghost buf = self.dictionary@;
        let ghost goal = spec_write_hyphenated_parts(buf, word@, self.last_pos);
        let ghost before = self.output@;
        let mut start: usize = 0;
        assert(word@.skip(0) =~= word@);
        assert(before + Seq::<char>::empty() =~= before);
        loop
            invariant
                start <= word.len(),
                self.dictionary@ == buf,
                self.dictionary == old(self).dictionary,
                self.buf == old(self).buf,
                goal.last_pos == spec_write_hyphenated_parts(
                    buf,
                    word@.skip(start as int),
                    self.last_pos,
                ).last_pos,
                goal.error == spec_write_hyphenated_parts(
                    buf,
                    word@.skip(start as int),
                    self.last_pos,
                ).error,
                before + goal.output == self.output@ + spec_write_hyphenated_parts(
                    buf,
                    word@.skip(start as int),
                    self.last_pos,
                ).output,
            decreases word.len() - start,
        {
            let ghost rest = word@.skip(start as int);
            let ghost out0 = self.output@;
            let ghost last0 = self.last_pos;
            let end = index_of(word, start, '-');
            proof {
                let n = spec_first_part_len(rest);
                assert(n == end - start);
                assert(rest.take(n as int) =~= word@.subrange(start as int, end as int));
                if n < rest.len() {
                    assert(rest.skip(n as int + 1) =~= word@.skip(end + 1));
                }
            }
            let part = slice_subrange(word, start, end);
            let ghost first = spec_write_part(buf, part@, last0);
            match self.write_part(part) {
                Ok(()) => {},
                Err(e) => {
                    return Err(e);
                },
            }
            if end >= word.len() {
                return Ok(());
            }
            self.output.push('-');
            proof {
                let tail = spec_write_hyphenated_parts(buf, word@.skip(end + 1), self.last_pos);
                assert(out0 + (first.output.push('-') + tail.output) =~= (out0
                    + first.output).push('-') + tail.output);
            }
            start = end + 1;
        }
    }

    /// Writes the word gathered so far, if there is one.
    fn flush_buf(&mut self) -> (r: Result<(), dictionary::Error>)
        ensures
            final(self).dictionary == old(self).dictionary,
            final(self).buf@ == Seq::<char>::empty(),
            final(self).output@ == old(self).output@ + spec_flush_buf(
                old(self).dictionary@,
                old(self).buf@,
                old(self).last_pos,
            ).output,
            final(self).last_pos == spec_flush_buf(
                old(self).dictionary@,
                old(self).buf@,
                old(self).last_pos,
            ).last_pos,
            match r {
                Ok(()) => spec_flush_buf(
                    old(self).dictionary@,
                    old(self).buf@,
                    old(self).last_pos,
                ).error is None,
                Err(e) => spec_flush_buf(
                    old(self).dictionary@,
                    old(self).buf@,
                    old(self).last_pos,
                ).error == Some(e),
            },
    {
        proof {
            reveal(spec_flush_buf);
        }
        let mut word = String::new();
        std::mem::swap(&mut word, &mut self.buf);
        if word.as_str().is_empty() {
            assert(self.output@ + Seq::<char>::empty() =~= self.output@);
            return Ok(());
        }
        match find_word(self.dictionary, word.as_str()) {
            Err(e) => {
                assert(self.output@ + Seq::<char>::empty() =~= self.output@);
                Err(e)
            },
            Ok(Some(variant_pos)) => self.choose_and_write_variant(variant_pos),
            Ok(None) => {
                let chars = str_to_chars(word.as_str());
                self.write_hyphenated_parts(chars.as_slice())
            },
        }
    }

    /// Transliterates the input.
    #[verifier::loop_isolation(false)]
    fn run(&mut self, input: &[char]) -> (r: Result<(), dictionary::Error>)
        ensures
            final(self).dictionary == old(self).dictionary,
            final(self).output@ == old(self).output@ + spec_run(
                old(self).dictionary@,
                input@,
                0,
                old(self).buf@,
                old(self).last_pos,
            ).output,
            match r {
                Ok(()) => spec_run(
                    old(self).dictionary@,
                    input@,
                    0,
                    old(self).buf@,
                    old(self).last_pos,
                ).error is None,
                Err(e) => spec_run(
                    old(self).dictionary@,
                    input@,
                    0,
                    old(self).buf@,
                    old(self).last_pos,
                ).error == Some(e),
            },
    {
        let ghost buf = self.dictionary@;
        let ghost goal = spec_run(buf, input@, 0, self.buf@, self.last_pos);
        let ghost before = self.output@;
        let mut pos: usize = 0;
        assert(before + Seq::<char>::empty() =~= before);
        while pos < input.len()
            invariant
                pos <= input.len(),
                self.dictionary@ == buf,
                self.dictionary == old(self).dictionary,
                goal.error == spec_run(buf, input@, pos as int, self.buf@, self.last_pos).error,
                before + goal.output == self.output@ + spec_run(
                    buf,
                    input@,
                    pos as int,
                    self.buf@,
                    self.last_pos,
                ).output,
            decreases input.len() - pos,
        {
            let ch = input[pos];
            if ch.is_alphabetic() {
                let lower = to_lowercase(ch);
                self.buf.append(lower.as_str());
            } else if !self.buf.as_str().is_empty() && (ch == '\'' || ch == '-' || ch == '\u{2019}')
                && next_is_alphabetic(input, pos + 1) {
                self.buf.push(
                    if ch == '\u{2019}' {
                        '\''
                    } else {
                        ch
                    },
                );
            } else {
                let ghost out0 = self.output@;
                let ghost flushed = spec_flush_buf(buf, self.buf@, self.last_pos);
                match self.flush_buf() {
                    Ok(()) => {},
                    Err(e) => {
                        return Err(e);
                    },
                }
                self.output.push(ch);
                if ch == '.' && !next_is_alphabetic(input, pos + 1) {
                    self.last_pos = Some(START_OF_SENTENCE);
                }
                proof {
                    let rest = spec_run(buf, input@, pos + 1, self.buf@, self.last_pos);
                    assert(out0 + (flushed.output.push(ch) + rest.output) =~= (out0
                        + flushed.output).push(ch) + rest.output);
                }
            }
            pos = pos + 1;
        }
        self.flush_buf()
    }
}

/// Writes one word, gathered in lower case, after a word with the tag
/// `last_pos`: by its entry in the dictionary, or else part by part, split
/// at its hyphens.  Gives the tag that the next word will see before it, and
/// the error that cut the writing short, if any; what was written until then
/// stays written.
pub fn write_word(dictionary: &[u8], word: &[char], last_pos: Option<u8>, output: &mut String) -> (r:
    (Option<u8>, Result<(), dictionary::Error>))
    ensures
        final(output)@ == old(output)@ + spec_flush_buf(dictionary@, word@, last_pos).output,
        r.0 == spec_flush_buf(dictionary@, word@, last_pos).last_pos,
        match r.1 {
            Ok(()) => spec_flush_buf(dictionary@, word@, last_pos).error is None,
            Err(e) => spec_flush_buf(dictionary@, word@, last_pos).error == Some(e),
        },
{
    let mut transliterater = Transliterater {
        dictionary,
        output: String::new(),
        buf: chars_to_string(word),
        last_pos,
    };
    let result = transliterater.flush_buf();
    assert(Seq::<char>::empty() + spec_flush_buf(dictionary@, word@, last_pos).output
        =~= spec_flush_buf(dictionary@, word@, last_pos).output);
    output.append(transliterater.output.as_str());
    (transliterater.last_pos, result)
}

/// Transliterates `input` with the dictionary and appends the result to
/// `output`.  Where the dictionary turns out to be malformed, what was
/// written up to there stays in `output`.
pub fn transliterate(dictionary: &[u8], input: &str, output: &mut String) -> (r: Result<
    (),
    Error,
>)
    ensures
        final(output)@ == old(output)@ + spec_transliterate(dictionary@, input@).output,
        match spec_transliterate(dictionary@, input@).error {
            None => r == Ok::<(), Error>(()),
            Some(e) => r == Err::<(), Error>(Error::Dictionary(e)),
        },
{
    let chars = str_to_chars(input);
    let mut transliterater = Transliterater::new(dictionary);
    let result = transliterater.run(chars.as_slice());
    assert(Seq::<char>::empty() + spec_transliterate(dictionary@, input@).output
        =~= spec_transliterate(dictionary@, input@).output);
    output.append(transliterater.output.as_str());
    match result {
        Ok(()) => Ok(()),
        Err(e) => Err(Error::Dictionary(e)),
    }
}

} // verus!
