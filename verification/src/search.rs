//! Listing what a dictionary holds: the words that start with a prefix, as
//! records or as text.

use crate::dictionary::{
    check_length, extract_variant, find_prefix, lemma_variant_end_bounds,
    lemma_walker_next_decreases, root_pos, spec_check_length, spec_find_prefix,
    spec_variant_article, spec_variant_end, spec_variant_is_last, spec_variant_payload,
    spec_variant_translation, spec_walker_next, stack_weight, DictionaryWalker, Error, WalkEntry,
};
use vstd::prelude::*;
use vstd::string::StringExecFns;

verus! {

/// One translation of one word.
pub struct SearchResult {
    pub word: String,
    pub translation: String,
    pub pos: u8,
    pub article_num: u16,
}

/// One translation of one word, as sequences.
pub struct SearchResultModel {
    pub word: Seq<char>,
    pub translation: Seq<char>,
    pub pos: u8,
    pub article_num: u16,
}

impl SearchResult {
    /// The record as sequences.
    pub open spec fn view(&self) -> SearchResultModel {
        SearchResultModel {
            word: self.word@,
            translation: self.translation@,
            pos: self.pos,
            article_num: self.article_num,
        }
    }
}

/// The records, as sequences.
pub open spec fn results_view(results: Seq<SearchResult>) -> Seq<SearchResultModel> {
    results.map_values(|result: SearchResult| result@)
}

/// The records of some variants, and the error that stopped the reading,
/// if any.
pub struct VariantsOutcome {
    pub results: Seq<SearchResultModel>,
    pub error: Option<Error>,
}

/// The record of the variant at `pos` of the word `word`.
pub open spec fn spec_variant_result(buf: Seq<u8>, pos: int, word: Seq<char>) -> SearchResultModel {
    SearchResultModel {
        word,
        translation: spec_variant_translation(buf, pos).chars,
        pos: spec_variant_payload(buf, pos),
        article_num: spec_variant_article(buf, pos),
    }
}

/// The records of the variants of `word` from the one at `pos` on, up to
/// `limit` of them.
pub open spec fn spec_variant_results(buf: Seq<u8>, pos: int, word: Seq<char>, limit: nat) -> VariantsOutcome
    decreases buf.len() - pos,
{
    if limit == 0 {
        VariantsOutcome { results: Seq::empty(), error: None }
    } else if pos < 0 || pos + 3 > buf.len() {
        VariantsOutcome { results: Seq::empty(), error: Some(Error::UnexpectedEof) }
    } else if spec_variant_translation(buf, pos).error is Some {
        VariantsOutcome { results: Seq::empty(), error: spec_variant_translation(buf, pos).error }
    } else if spec_variant_is_last(buf, pos) {
        VariantsOutcome { results: seq![spec_variant_result(buf, pos, word)], error: None }
    } else {
        proof {
            lemma_variant_end_bounds(buf, pos);
        }
        let rest = spec_variant_results(
            buf,
            spec_variant_end(buf, pos),
            word,
            (limit - 1) as nat,
        );
        VariantsOutcome {
            results: seq![spec_variant_result(buf, pos, word)] + rest.results,
            error: rest.error,
        }
    }
}

/// The records of the words that the walk has yet to give, each word with
/// `prefix` before it, up to `limit` records.
pub open spec fn spec_search_from(
    buf: Seq<u8>,
    stack: Seq<WalkEntry>,
    word: Seq<char>,
    prefix: Seq<char>,
    limit: nat,
) -> Result<Seq<SearchResultModel>, Error>
    decreases stack_weight(buf.len(), stack),
{
    if limit == 0 {
        Ok(Seq::empty())
    } else {
        let outcome = spec_walker_next(buf, stack, word);
        match outcome.result {
            Err(e) => Err(e),
            Ok(None) => Ok(Seq::empty()),
            Ok(Some(found)) => {
                let variants = spec_variant_results(buf, found.1, prefix + found.0, limit);
                match variants.error {
                    Some(e) => Err(e),
                    None => {
                        proof {
                            lemma_walker_next_decreases(buf, stack, word);
                        }
                        match spec_search_from(
                            buf,
                            outcome.stack,
                            outcome.word,
                            prefix,
                            (limit - variants.results.len()) as nat,
                        ) {
                            Err(e) => Err(e),
                            Ok(rest) => Ok(variants.results + rest),
                        }
                    },
                }
            },
        }
    }
}

/// The records of the words that start with `prefix`, in the order of the
/// walk through the dictionary, up to `capacity` records.
pub open spec fn spec_search(buf: Seq<u8>, prefix: Seq<char>, capacity: nat) -> Result<
    Seq<SearchResultModel>,
    Error,
> {
    match spec_find_prefix(buf, prefix) {
        Err(e) => Err(e),
        Ok(None) => Ok(Seq::empty()),
        Ok(Some(pos)) => spec_search_from(
            buf,
            seq![WalkEntry { word_length: 0, pos: pos as int }],
            Seq::empty(),
            prefix,
            capacity,
        ),
    }
}

/// A word that can be read has at least one record, and no more than the
/// limit.
pub proof fn lemma_variant_results_len(buf: Seq<u8>, pos: int, word: Seq<char>, limit: nat)
    ensures
        spec_variant_results(buf, pos, word, limit).results.len() <= limit,
        limit > 0 && spec_variant_results(buf, pos, word, limit).error is None
            ==> spec_variant_results(buf, pos, word, limit).results.len() >= 1,
    decreases buf.len() - pos,
{
    if limit == 0 {
    } else if pos < 0 || pos + 3 > buf.len() {
    } else if spec_variant_translation(buf, pos).error is Some {
    } else if spec_variant_is_last(buf, pos) {
    } else {
        lemma_variant_end_bounds(buf, pos);
        lemma_variant_results_len(buf, spec_variant_end(buf, pos), word, (limit - 1) as nat);
    }
}

/// Appends the records of the variants of `word` from the one at
/// `first_pos` on, up to `limit` of them.
fn add_variants(
    dictionary: &[u8],
    word: &str,
    first_pos: usize,
    results: &mut Vec<SearchResult>,
    limit: usize,
) -> (r: Result<(), Error>)
    ensures
        match spec_variant_results(dictionary@, first_pos as int, word@, limit as nat).error {
            None => r == Ok::<(), Error>(()) && results_view(final(results)@) == results_view(
                old(results)@,
            ) + spec_variant_results(dictionary@, first_pos as int, word@, limit as nat).results,
            Some(e) => r == Err::<(), Error>(e),
        },
{
    let ghost buf = dictionary@;
    let ghost goal = spec_variant_results(buf, first_pos as int, word@, limit as nat);
    let ghost before = results_view(results@);
    let mut variant_pos = first_pos;
    let mut left = limit;
    assert(before + goal.results =~= results_view(results@) + goal.results);
    while left > 0
        invariant
            buf == dictionary@,
            before == results_view(old(results)@),
            goal == spec_variant_results(buf, first_pos as int, word@, limit as nat),
            goal.error == spec_variant_results(buf, variant_pos as int, word@, left as nat).error,
            before + goal.results == results_view(results@) + spec_variant_results(
                buf,
                variant_pos as int,
                word@,
                left as nat,
            ).results,
        decreases left,
    {
        let mut variant = match extract_variant(dictionary, variant_pos) {
            Ok(variant) => variant,
            Err(e) => {
                return Err(e);
            },
        };
        proof {
            variant.lemma_fresh_rest();
            lemma_variant_end_bounds(buf, variant_pos as int);
            vstd::slice::axiom_spec_len(dictionary);
        }
        let mut translation = String::new();
        match variant.translation.read_to_end(&mut translation) {
            Ok(()) => {},
            Err(e) => {
                return Err(e);
            },
        }
        assert(translation@ =~= spec_variant_translation(buf, variant_pos as int).chars);
        assert(variant.translation.rest().bit_pos == spec_variant_translation(
            buf,
            variant_pos as int,
        ).bit_pos);
        assert(variant.translation.rest().error is None);
        let result = SearchResult {
            word: String::from_str(word),
            translation,
            pos: variant.payload,
            article_num: variant.article_num,
        };
        assert(result@ == spec_variant_result(buf, variant_pos as int, word@));
        let ghost out0 = results_view(results@);
        proof {
            let rest = spec_variant_results(
                buf,
                spec_variant_end(buf, variant_pos as int),
                word@,
                (left - 1) as nat,
            );
            assert(out0 + (seq![result@] + rest.results) =~= out0.push(result@) + rest.results);
            assert(out0 + seq![result@] =~= out0.push(result@));
            assert(results_view(results@.push(result)) =~= out0.push(result@));
        }
        results.push(result);
        left = left - 1;
        match variant.into_next_offset() {
            Ok(Some(pos)) => {
                assert(pos == spec_variant_end(buf, variant_pos as int));
                variant_pos = pos;
            },
            Ok(None) => {
                assert(results_view(results@) + Seq::<SearchResultModel>::empty()
                    =~= results_view(results@));
                return Ok(());
            },
            Err(e) => {
                return Err(e);
            },
        }
    }
    assert(results_view(results@) + Seq::<SearchResultModel>::empty() =~= results_view(results@));
    Ok(())
}

/// Lists the words below the sibling list at `prefix_pos`, each with
/// `prefix` before it: one record for each variant of each word, up to
/// `capacity` records.
fn find_results(dictionary: &[u8], prefix: &str, prefix_pos: usize, capacity: usize) -> (r: Result<
    Vec<SearchResult>,
    Error,
>)
    ensures
        match r {
            Ok(results) => spec_search_from(
                dictionary@,
                seq![WalkEntry { word_length: 0, pos: prefix_pos as int }],
                Seq::empty(),
                prefix@,
                capacity as nat,
            ) == Ok::<Seq<SearchResultModel>, Error>(results_view(results@)) && results@.len()
                <= capacity,
            Err(e) => spec_search_from(
                dictionary@,
                seq![WalkEntry { word_length: 0, pos: prefix_pos as int }],
                Seq::empty(),
                prefix@,
                capacity as nat,
            ) == Err::<Seq<SearchResultModel>, Error>(e),
        },
{
    let ghost buf = dictionary@;
    let mut results: Vec<SearchResult> = Vec::new();
    let mut walker = DictionaryWalker::start_from(dictionary, prefix_pos);
    let ghost goal = spec_search_from(
        buf,
        walker.stack(),
        walker.word(),
        prefix@,
        capacity as nat,
    );
    assert(results_view(results@) =~= Seq::empty());
    assert(goal is Ok ==> results_view(results@) + goal->Ok_0 =~= goal->Ok_0);
    while results.len() < capacity
        invariant
            buf == dictionary@,
            walker.buf() == buf,
            results@.len() <= capacity,
            goal == spec_search_from(
                buf,
                seq![WalkEntry { word_length: 0, pos: prefix_pos as int }],
                Seq::empty(),
                prefix@,
                capacity as nat,
            ),
            match spec_search_from(
                buf,
                walker.stack(),
                walker.word(),
                prefix@,
                (capacity - results@.len()) as nat,
            ) {
                Ok(rest) => goal == Ok::<Seq<SearchResultModel>, Error>(
                    results_view(results@) + rest,
                ),
                Err(e) => goal == Err::<Seq<SearchResultModel>, Error>(e),
            },
        decreases walker.weight(),
    {
        let ghost stack0 = walker.stack();
        let ghost word0 = walker.word();
        let ghost out0 = results_view(results@);
        let ghost left = (capacity - results@.len()) as nat;
        let (word, variant_pos) = match walker.next() {
            Ok(Some(found)) => found,
            Ok(None) => {
                assert(out0 + Seq::<SearchResultModel>::empty() =~= out0);
                return Ok(results);
            },
            Err(e) => {
                return Err(e);
            },
        };
        let mut full_word = String::from_str(prefix);
        full_word.append(word.as_str());
        proof {
            lemma_variant_results_len(buf, variant_pos as int, full_word@, left);
        }
        let room = capacity - results.len();
        match add_variants(dictionary, full_word.as_str(), variant_pos, &mut results, room) {
            Ok(()) => {},
            Err(e) => {
                return Err(e);
            },
        }
        proof {
            let variants = spec_variant_results(buf, variant_pos as int, full_word@, left);
            assert(results_view(results@).len() == out0.len() + variants.results.len());
            let rest = spec_search_from(
                buf,
                walker.stack(),
                walker.word(),
                prefix@,
                (left - variants.results.len()) as nat,
            );
            if rest is Ok {
                assert(out0 + (variants.results + rest->Ok_0) =~= results_view(results@)
                    + rest->Ok_0);
            }
        }
    }
    assert(results_view(results@) + Seq::<SearchResultModel>::empty() =~= results_view(results@));
    Ok(results)
}

/// Lists the words that start with `prefix`, with their translations: one
/// record for each variant of each word, up to `capacity` records.
pub fn search(dictionary: &[u8], prefix: &str, capacity: usize) -> (r: Result<
    Vec<SearchResult>,
    Error,
>)
    ensures
        match r {
            Ok(results) => spec_search(dictionary@, prefix@, capacity as nat) == Ok::<
                Seq<SearchResultModel>,
                Error,
            >(results_view(results@)) && results@.len() <= capacity,
            Err(e) => spec_search(dictionary@, prefix@, capacity as nat) == Err::<
                Seq<SearchResultModel>,
                Error,
            >(e),
        },
{
    match find_prefix(dictionary, prefix) {
        Ok(Some(prefix_pos)) => find_results(dictionary, prefix, prefix_pos, capacity),
        Ok(None) => {
            let results: Vec<SearchResult> = Vec::new();
            assert(results_view(results@) =~= Seq::empty());
            Ok(results)
        },
        Err(e) => Err(e),
    }
}

/// The digits of numbers to the base ten.
pub const DECIMAL_DIGITS: [char; 10] = ['0', '1', '2', '3', '4', '5', '6', '7', '8', '9'];

/// The number `n` to the base ten.
pub open spec fn spec_decimal(n: nat) -> Seq<char>
    decreases n,
{
    if n < 10 {
        seq![DECIMAL_DIGITS[n as int]]
    } else {
        spec_decimal(n / 10).push(DECIMAL_DIGITS[(n % 10) as int])
    }
}

/// Appends `n` to the base ten.
fn push_decimal(n: usize, output: &mut String)
    ensures
        final(output)@ == old(output)@ + spec_decimal(n as nat),
    decreases n,
{
    let ghost before = output@;
    if n < 10 {
        output.push(DECIMAL_DIGITS[n]);
    } else {
        push_decimal(n / 10, output);
        output.push(DECIMAL_DIGITS[n % 10]);
    }
    assert(output@ =~= before + spec_decimal(n as nat));
}

/// A text, and the error that cut it short, if any.
pub struct TextOutcome {
    pub text: Seq<char>,
    pub error: Option<Error>,
}

/// What stands before the translation of the variant at `pos`: its tag and
/// its article number, in brackets that the translation will close.
pub open spec fn spec_dump_variant_head(buf: Seq<u8>, pos: int) -> Seq<char> {
    seq![' ', '('] + spec_decimal(spec_variant_payload(buf, pos) as nat) + seq![',', ' ']
        + spec_decimal(spec_variant_article(buf, pos) as nat) + seq![',', ' ']
}

/// The text of the variants of a word from the one at `pos` on: for each,
/// in brackets, its tag, its article number and its translation.
pub open spec fn spec_dump_variants(buf: Seq<u8>, pos: int) -> TextOutcome
    decreases buf.len() - pos,
{
    if pos < 0 || pos + 3 > buf.len() {
        TextOutcome { text: Seq::empty(), error: Some(Error::UnexpectedEof) }
    } else if spec_variant_translation(buf, pos).error is Some {
        TextOutcome {
            text: spec_dump_variant_head(buf, pos) + spec_variant_translation(buf, pos).chars,
            error: spec_variant_translation(buf, pos).error,
        }
    } else if spec_variant_is_last(buf, pos) {
        TextOutcome {
            text: (spec_dump_variant_head(buf, pos) + spec_variant_translation(
                buf,
                pos,
            ).chars).push(')'),
            error: None,
        }
    } else {
        proof {
            lemma_variant_end_bounds(buf, pos);
        }
        let rest = spec_dump_variants(buf, spec_variant_end(buf, pos));
        TextOutcome {
            text: (spec_dump_variant_head(buf, pos) + spec_variant_translation(
                buf,
                pos,
            ).chars).push(')') + rest.text,
            error: rest.error,
        }
    }
}

/// The text of the words that the walk has yet to give: one line for each
/// word, with `prefix` before it and its variants after it.
pub open spec fn spec_dump_from(
    buf: Seq<u8>,
    stack: Seq<WalkEntry>,
    word: Seq<char>,
    prefix: Seq<char>,
) -> TextOutcome
    decreases stack_weight(buf.len(), stack),
{
    let outcome = spec_walker_next(buf, stack, word);
    match outcome.result {
        Err(e) => TextOutcome { text: Seq::empty(), error: Some(e) },
        Ok(None) => TextOutcome { text: Seq::empty(), error: None },
        Ok(Some(found)) => {
            let variants = spec_dump_variants(buf, found.1);
            if variants.error is Some {
                TextOutcome { text: prefix + found.0 + variants.text, error: variants.error }
            } else {
                proof {
                    lemma_walker_next_decreases(buf, stack, word);
                }
                let rest = spec_dump_from(buf, outcome.stack, outcome.word, prefix);
                TextOutcome {
                    text: (prefix + found.0 + variants.text).push('\n') + rest.text,
                    error: rest.error,
                }
            }
        },
    }
}

/// The text of a dictionary: a line for each word, or for each word that
/// starts with the prefix where one is given.  A dictionary whose length
/// header does not match gives no text.
pub open spec fn spec_dump_dictionary(buf: Seq<u8>, prefix: Option<Seq<char>>) -> TextOutcome {
    match spec_check_length(buf) {
        Err(e) => TextOutcome { text: Seq::empty(), error: Some(e) },
        Ok(()) => match prefix {
            None => spec_dump_from(
                buf,
                seq![WalkEntry { word_length: 0, pos: root_pos() as int }],
                Seq::empty(),
                Seq::empty(),
            ),
            Some(prefix) => match spec_find_prefix(buf, prefix) {
                Err(e) => TextOutcome { text: Seq::empty(), error: Some(e) },
                Ok(None) => TextOutcome { text: Seq::empty(), error: None },
                Ok(Some(pos)) => spec_dump_from(
                    buf,
                    seq![WalkEntry { word_length: 0, pos: pos as int }],
                    Seq::empty(),
                    prefix,
                ),
            },
        },
    }
}

/// Appends the text of the variants of a word from the one at `first_pos`
/// on.
fn dump_variants(dictionary: &[u8], first_pos: usize, output: &mut String) -> (r: Result<
    (),
    Error,
>)
    ensures
        final(output)@ == old(output)@ + spec_dump_variants(dictionary@, first_pos as int).text,
        match spec_dump_variants(dictionary@, first_pos as int).error {
            None => r == Ok::<(), Error>(()),
            Some(e) => r == Err::<(), Error>(e),
        },
{
    let ghost buf = dictionary@;
    let ghost goal = spec_dump_variants(buf, first_pos as int);
    let ghost before = output@;
    let mut variant_pos = first_pos;
    loop
        invariant
            buf == dictionary@,
            before == old(output)@,
            goal == spec_dump_variants(buf, first_pos as int),
            goal.error == spec_dump_variants(buf, variant_pos as int).error,
            before + goal.text == output@ + spec_dump_variants(buf, variant_pos as int).text,
        decreases buf.len() - variant_pos,
    {
        let ghost out0 = output@;
        let mut variant = match extract_variant(dictionary, variant_pos) {
            Ok(variant) => variant,
            Err(e) => {
                assert(out0 + Seq::<char>::empty() =~= out0);
                return Err(e);
            },
        };
        proof {
            variant.lemma_fresh_rest();
            lemma_variant_end_bounds(buf, variant_pos as int);
            vstd::slice::axiom_spec_len(dictionary);
        }
        let ghost translation = spec_variant_translation(buf, variant_pos as int);
        output.push(' ');
        output.push('(');
        push_decimal(variant.payload as usize, output);
        output.push(',');
        output.push(' ');
        push_decimal(variant.article_num as usize, output);
        output.push(',');
        output.push(' ');
        assert(output@ =~= out0 + spec_dump_variant_head(buf, variant_pos as int));
        match variant.translation.read_to_end(output) {
            Ok(()) => {},
            Err(e) => {
                assert(output@ =~= out0 + (spec_dump_variant_head(buf, variant_pos as int)
                    + translation.chars));
                return Err(e);
            },
        }
        output.push(')');
        let ghost text = (spec_dump_variant_head(buf, variant_pos as int)
            + translation.chars).push(')');
        assert(output@ =~= out0 + text);
        assert(variant.translation.rest().bit_pos == translation.bit_pos);
        match variant.into_next_offset() {
            Ok(Some(pos)) => {
                proof {
                    let rest = spec_dump_variants(buf, pos as int);
                    assert(out0 + (text + rest.text) =~= output@ + rest.text);
                }
                variant_pos = pos;
            },
            Ok(None) => {
                return Ok(());
            },
            Err(e) => {
                return Err(e);
            },
        }
    }
}

/// Appends the text of a dictionary to `output`: a line for each word, or
/// for each word that starts with `prefix` where one is given.  What was
/// written before an error stays in `output`.
pub fn dump_dictionary(dictionary: &[u8], prefix: Option<&str>, output: &mut String) -> (r: Result<
    (),
    Error,
>)
    ensures
        final(output)@ == old(output)@ + spec_dump_dictionary(
            dictionary@,
            match prefix {
                Some(prefix) => Some(prefix@),
                None => None,
            },
        ).text,
        match spec_dump_dictionary(
            dictionary@,
            match prefix {
                Some(prefix) => Some(prefix@),
                None => None,
            },
        ).error {
            None => r == Ok::<(), Error>(()),
            Some(e) => r == Err::<(), Error>(e),
        },
{
    let ghost buf = dictionary@;
    let ghost before = output@;
    assert(before + Seq::<char>::empty() =~= before);
    match check_length(dictionary) {
        Ok(()) => {},
        Err(e) => {
            return Err(e);
        },
    }
    let mut walker = match prefix {
        Some(prefix) => {
            let start_pos = match find_prefix(dictionary, prefix) {
                Ok(Some(pos)) => pos,
                Ok(None) => {
                    return Ok(());
                },
                Err(e) => {
                    return Err(e);
                },
            };
            DictionaryWalker::start_from(dictionary, start_pos)
        },
        None => DictionaryWalker::new(dictionary),
    };
    let ghost lead: Seq<char> = match prefix {
        Some(prefix) => prefix@,
        None => Seq::empty(),
    };
    let ghost goal = spec_dump_from(buf, walker.stack(), walker.word(), lead);
    loop
        invariant
            buf == dictionary@,
            walker.buf() == buf,
            lead == (match prefix {
                Some(prefix) => prefix@,
                None => Seq::<char>::empty(),
            }),
            goal.error == spec_dump_from(buf, walker.stack(), walker.word(), lead).error,
            before + goal.text == output@ + spec_dump_from(
                buf,
                walker.stack(),
                walker.word(),
                lead,
            ).text,
            before == old(output)@,
            goal == spec_dump_dictionary(
                buf,
                match prefix {
                    Some(prefix) => Some(prefix@),
                    None => None,
                },
            ),
        decreases walker.weight(),
    {
        let ghost out0 = output@;
        let (word, variant_pos) = match walker.next() {
            Ok(Some(found)) => found,
            Ok(None) => {
                assert(out0 + Seq::<char>::empty() =~= out0);
                return Ok(());
            },
            Err(e) => {
                assert(out0 + Seq::<char>::empty() =~= out0);
                return Err(e);
            },
        };
        if let Some(prefix) = prefix {
            output.append(prefix);
        }
        output.append(word.as_str());
        assert(output@ =~= out0 + (lead + word@));
        let ghost variants = spec_dump_variants(buf, variant_pos as int);
        match dump_variants(dictionary, variant_pos, output) {
            Ok(()) => {},
            Err(e) => {
                assert(output@ =~= out0 + (lead + word@ + variants.text));
                return Err(e);
            },
        }
        output.push('\n');
        proof {
            let rest = spec_dump_from(buf, walker.stack(), walker.word(), lead);
            assert(out0 + ((lead + word@ + variants.text).push('\n') + rest.text) =~= output@
                + rest.text);
        }
    }
}

} // verus!
