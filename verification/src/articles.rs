//! From the entries of a lexicon to the files of a dictionary: the trie of
//! the words, and the articles in groups.

use crate::dictionary::spec_check_length;
use crate::parts_of_speech::NAMES;
use crate::text::{bytes_eq, chars_to_string, index_of, lemma_index_of, spec_index_of, str_to_chars};
use crate::trie_builder;
use crate::trie_builder::{
    spec_add_entry, spec_dictionary_bytes, spec_empty_trie, spec_file_trie, spec_fits_file,
    NodeModel, TrieBuilder,
};
use vstd::prelude::*;
use vstd::slice::{slice_subrange, slice_to_vec};
use vstd::utf8::encode_utf8;

verus! {

/// The tags that stand for another tag of the inventory: the code that
/// misses a letter, the forms of "to be", "to do" and "to have", which are
/// verbs like any other, and the infinitive, which goes with the base form.
pub const PARTS_OF_SPEECH_REMAP: [(&'static str, &'static str); 20] = [
    ("P0", "NP0"),
    ("VBB", "VVB"),
    ("VBD", "VVD"),
    ("VBG", "VVG"),
    ("VBI", "VVB"),
    ("VBN", "VVN"),
    ("VBZ", "VVZ"),
    ("VDB", "VVB"),
    ("VDD", "VVD"),
    ("VDG", "VVG"),
    ("VDI", "VVB"),
    ("VDN", "VVN"),
    ("VDZ", "VVZ"),
    ("VHB", "VVB"),
    ("VHD", "VVD"),
    ("VHG", "VVG"),
    ("VHI", "VVB"),
    ("VHN", "VVN"),
    ("VHZ", "VVZ"),
    ("VVI", "VVB"),
];

/// The labels of the variations of pronunciation, in the order of their
/// numbers.
pub const VARIATIONS: [&'static str; 6] = ["GenAm", "GenAus", "RRP", "RRPVar", "SSB", "TrapBath"];

/// The number of articles that go into one file.
pub const ARTICLES_PER_FILE: usize = 128;

/// What can be wrong with an entry of the lexicon; the number is the place
/// of the entry in its list.
#[derive(Debug, Clone, Copy, PartialEq, Eq, Structural)]
pub enum Error {
    UnknownPartOfSpeech(usize),
    UnknownVariation(usize),
    /// A word holds the character that marks the end of a word in the trie.
    NulCharacter(usize),
}

/// Why the files of a dictionary cannot be made.
#[derive(Debug, Clone, Copy, PartialEq, Eq, Structural)]
pub enum BuildError {
    /// An entry of the article with the given number is wrong.
    Article(usize, Error),
    /// The trie cannot be laid out.
    Trie(trie_builder::Error),
}

/// One entry of the lexicon.
pub struct Entry {
    pub latin: String,
    pub shavian: String,
    pub pos: String,
    pub ipa: String,
    pub var: String,
    pub freq: u32,
}

/// One entry of the lexicon, as sequences of characters.
pub struct EntryModel {
    pub latin: Seq<char>,
    pub shavian: Seq<char>,
    pub pos: Seq<char>,
    pub ipa: Seq<char>,
    pub var: Seq<char>,
    pub freq: u32,
}

impl Entry {
    /// The entry as sequences of characters.
    pub open spec fn view(&self) -> EntryModel {
        EntryModel {
            latin: self.latin@,
            shavian: self.shavian@,
            pos: self.pos@,
            ipa: self.ipa@,
            var: self.var@,
            freq: self.freq,
        }
    }
}

/// The entries of an article, as sequences of characters.
pub open spec fn entries_view(entries: Seq<Entry>) -> Seq<EntryModel> {
    entries.map_values(|entry: Entry| entry@)
}

/// An entry with its tags looked up.
pub struct FilteredEntry<'a> {
    pub latin: &'a str,
    pub shavian: &'a str,
    pub pos: Vec<u8>,
    pub ipa: &'a str,
    pub var: &'a str,
    pub freq: u32,
}

/// An entry with its tags looked up, as sequences.
pub struct FilteredModel {
    pub latin: Seq<char>,
    pub shavian: Seq<char>,
    pub pos: Seq<u8>,
    pub ipa: Seq<char>,
    pub var: Seq<char>,
    pub freq: u32,
}

/// The entry with the given tags.
pub open spec fn spec_filtered(entry: EntryModel, pos: Seq<u8>) -> FilteredModel {
    FilteredModel {
        latin: entry.latin,
        shavian: entry.shavian,
        pos,
        ipa: entry.ipa,
        var: entry.var,
        freq: entry.freq,
    }
}

/// Whether a filtered entry says the same as `entry` with the tags `pos`,
/// whatever their frequencies.
pub open spec fn spec_matches(filtered: FilteredModel, entry: EntryModel, pos: Seq<u8>) -> bool {
    &&& filtered.latin == entry.latin
    &&& filtered.shavian == entry.shavian
    &&& filtered.pos == pos
    &&& filtered.ipa == entry.ipa
    &&& filtered.var == entry.var
}

impl<'a> FilteredEntry<'a> {
    /// The entry as sequences.
    pub open spec fn view(&self) -> FilteredModel {
        FilteredModel {
            latin: self.latin@,
            shavian: self.shavian@,
            pos: self.pos@,
            ipa: self.ipa@,
            var: self.var@,
            freq: self.freq,
        }
    }

    /// The entry with its tags looked up.
    pub fn new(entry: &'a Entry, pos: Vec<u8>) -> (filtered: FilteredEntry<'a>)
        ensures
            filtered@ == spec_filtered(entry@, pos@),
    {
        FilteredEntry {
            latin: entry.latin.as_str(),
            shavian: entry.shavian.as_str(),
            pos,
            ipa: entry.ipa.as_str(),
            var: entry.var.as_str(),
            freq: entry.freq,
        }
    }

    /// Whether this entry says the same as `entry` with the tags `pos`, whatever
    /// their frequencies.
    pub fn matches(&self, entry: &Entry, pos: &Vec<u8>) -> (r: bool)
        ensures
            r == spec_matches(self@, entry@, pos@),
    {
        self.latin.eq(entry.latin.as_str()) && self.shavian.eq(entry.shavian.as_str()) && bytes_eq(
            self.pos.as_slice(),
            pos.as_slice(),
        ) && self.ipa.eq(entry.ipa.as_str()) && self.var.eq(entry.var.as_str())
    }
}

/// What the tag `name` stands for: the tag that the table gives for it, from
/// entry `i` of the table on, or the tag itself.
pub open spec fn spec_remap_name(name: Seq<char>, i: int) -> Seq<char>
    decreases 20 - i,
{
    if i < 0 || i >= 20 {
        name
    } else if PARTS_OF_SPEECH_REMAP[i].0@ == name {
        PARTS_OF_SPEECH_REMAP[i].1@
    } else {
        spec_remap_name(name, i + 1)
    }
}

/// The number of the tag `name` in the inventory, looked for from tag `i`
/// on.
pub open spec fn spec_name_index(name: Seq<char>, i: int) -> Option<u8>
    decreases 39 - i,
{
    if i < 0 || i >= 39 {
        None
    } else if NAMES[i]@ == name {
        Some(i as u8)
    } else {
        spec_name_index(name, i + 1)
    }
}

/// The number of the tag that `pos` names: of several tags joined by `+` the
/// first counts; a tag that stands for another gives that one.
pub open spec fn spec_remap_pos(pos: Seq<char>) -> Option<u8> {
    spec_name_index(spec_remap_name(pos.take(spec_index_of(pos, '+') as int), 0), 0)
}

/// A tag that is found has a number of the inventory.
pub proof fn lemma_name_index_bound(name: Seq<char>, i: int)
    ensures
        spec_name_index(name, i) matches Some(index) ==> index < 39,
    decreases 39 - i,
{
    if 0 <= i < 39 && NAMES[i]@ != name {
        lemma_name_index_bound(name, i + 1);
    }
}

/// Looks up the first of the tags that `pos` names.
pub fn remap_pos(pos: &str) -> (r: Option<u8>)
    ensures
        r == spec_remap_pos(pos@),
        r matches Some(index) ==> index < 39,
{
    let chars = str_to_chars(pos);
    let end = index_of(chars.as_slice(), 0, '+');
    assert(chars@.skip(0) =~= chars@);
    let first_pos = chars_to_string(slice_subrange(chars.as_slice(), 0, end));
    let ghost name = first_pos@;
    assert(name =~= pos@.take(spec_index_of(pos@, '+') as int));
    let mut i: usize = 0;
    while i < 20 && !PARTS_OF_SPEECH_REMAP[i].0.eq(first_pos.as_str())
        invariant
            i <= 20,
            first_pos@ == name,
            spec_remap_name(name, 0) == spec_remap_name(name, i as int),
        decreases 20 - i,
    {
        i = i + 1;
    }
    let name_str: &str = if i < 20 {
        PARTS_OF_SPEECH_REMAP[i].1
    } else {
        first_pos.as_str()
    };
    let ghost remapped = name_str@;
    assert(remapped == spec_remap_name(name, 0));
    proof {
        lemma_name_index_bound(remapped, 0);
    }
    let mut j: usize = 0;
    while j < 39
        invariant
            j <= 39,
            name_str@ == remapped,
            spec_remap_pos(pos@) == spec_name_index(remapped, 0),
            spec_name_index(remapped, 0) == spec_name_index(remapped, j as int),
        decreases 39 - j,
    {
        if NAMES[j].eq(name_str) {
            return Some(j as u8);
        }
        j = j + 1;
    }
    None
}

/// The numbers of all the tags that `pos` names, where each is known.
pub open spec fn spec_lookup_pos(pos: Seq<char>) -> Option<Seq<u8>>
    decreases pos.len(),
{
    let n = spec_index_of(pos, '+') as int;
    match spec_remap_pos(pos.take(n)) {
        None => None,
        Some(first) => {
            if n >= pos.len() {
                Some(seq![first])
            } else {
                match spec_lookup_pos(pos.skip(n + 1)) {
                    None => None,
                    Some(rest) => Some(seq![first] + rest),
                }
            }
        },
    }
}

/// The tags that were looked up are at least one, and all of the
/// inventory.
pub proof fn lemma_lookup_pos_bounds(pos: Seq<char>)
    ensures
        spec_lookup_pos(pos) matches Some(tags) ==> tags.len() >= 1 && forall|i: int|
            0 <= i < tags.len() ==> tags[i] < 39,
    decreases pos.len(),
{
    let n = spec_index_of(pos, '+') as int;
    lemma_index_of(pos, '+');
    let name = spec_remap_name(pos.take(n).take(spec_index_of(pos.take(n), '+') as int), 0);
    lemma_name_index_bound(name, 0);
    if n < pos.len() {
        lemma_lookup_pos_bounds(pos.skip(n + 1));
    }
}

/// Looks up all the tags that `pos` names, joined by `+`.
pub fn lookup_pos(pos: &str) -> (r: Option<Vec<u8>>)
    ensures
        match r {
            Some(tags) => spec_lookup_pos(pos@) == Some(tags@),
            None => spec_lookup_pos(pos@) is None,
        },
{
    let chars = str_to_chars(pos);
    let mut result: Vec<u8> = Vec::new();
    let mut start: usize = 0;
    assert(chars@.skip(0) =~= chars@);
    loop
        invariant
            start <= chars.len(),
            chars@ == pos@,
            match spec_lookup_pos(chars@.skip(start as int)) {
                Some(rest) => spec_lookup_pos(pos@) == Some(result@ + rest),
                None => spec_lookup_pos(pos@) is None,
            },
        decreases chars.len() - start,
    {
        let ghost rest = chars@.skip(start as int);
        let end = index_of(chars.as_slice(), start, '+');
        let part = chars_to_string(slice_subrange(chars.as_slice(), start, end));
        proof {
            assert(part@ =~= rest.take(spec_index_of(rest, '+') as int));
            if end < chars.len() {
                assert(rest.skip(end - start + 1) =~= chars@.skip(end + 1));
            }
        }
        match remap_pos(part.as_str()) {
            Some(tag) => {
                proof {
                    if end < chars.len() {
                        let tail = spec_lookup_pos(chars@.skip(end + 1));
                        if tail is Some {
                            assert(result@ + (seq![tag] + tail->0) =~= result@.push(tag)
                                + tail->0);
                        }
                    } else {
                        assert(result@ + seq![tag] =~= result@.push(tag));
                    }
                }
                result.push(tag);
            },
            None => {
                return None;
            },
        }
        if end >= chars.len() {
            return Some(result);
        }
        start = end + 1;
    }
}

/// The number of the variation `var`, looked for from variation `i` on.
pub open spec fn spec_var_index(var: Seq<char>, i: int) -> Option<u8>
    decreases 6 - i,
{
    if i < 0 || i >= 6 {
        None
    } else if VARIATIONS[i]@ == var {
        Some(i as u8)
    } else {
        spec_var_index(var, i + 1)
    }
}

/// The number of the variation `var`.
pub open spec fn spec_lookup_var(var: Seq<char>) -> Option<u8> {
    spec_var_index(var, 0)
}

/// Looks up the number of a variation of pronunciation.
pub fn lookup_var(var: &str) -> (r: Option<u8>)
    ensures
        r == spec_lookup_var(var@),
{
    let mut i: usize = 0;
    while i < 6
        invariant
            i <= 6,
            spec_var_index(var@, 0) == spec_var_index(var@, i as int),
        decreases 6 - i,
    {
        if VARIATIONS[i].eq(var) {
            return Some(i as u8);
        }
        i = i + 1;
    }
    None
}

/// What a character of a pronunciation is written as: five letters stand
/// for a sound that was left open, and get their usual value.
pub open spec fn spec_remap_ipa_char(ch: char) -> Seq<char> {
    if ch == 'I' {
        seq!['\u{259}']
    } else if ch == 'R' {
        seq!['(', 'r', ')']
    } else if ch == '\u{c6}' {
        seq!['\u{e6}']
    } else if ch == '\u{18f}' {
        seq!['\u{259}']
    } else if ch == '\u{2c6d}' {
        seq!['\u{251}']
    } else {
        seq![ch]
    }
}

/// A pronunciation with each character written out.
pub open spec fn spec_remap_ipa(ipa: Seq<char>) -> Seq<char>
    decreases ipa.len(),
{
    if ipa.len() == 0 {
        Seq::empty()
    } else {
        spec_remap_ipa(ipa.drop_last()) + spec_remap_ipa_char(ipa.last())
    }
}

/// Writes out the letters of a pronunciation that stand for a sound that
/// was left open.
pub fn remap_ipa(ipa: &str) -> (r: String)
    ensures
        r@ == spec_remap_ipa(ipa@),
{
    let chars = str_to_chars(ipa);
    let mut buf = String::new();
    let mut i: usize = 0;
    while i < chars.len()
        invariant
            i <= chars.len(),
            chars@ == ipa@,
            buf@ == spec_remap_ipa(chars@.take(i as int)),
        decreases chars.len() - i,
    {
        let ch = chars[i];
        let ghost before = buf@;
        if ch == 'I' {
            buf.push('\u{259}');
        } else if ch == 'R' {
            buf.push('(');
            buf.push('r');
            buf.push(')');
        } else if ch == '\u{c6}' {
            buf.push('\u{e6}');
        } else if ch == '\u{18f}' {
            buf.push('\u{259}');
        } else if ch == '\u{2c6d}' {
            buf.push('\u{251}');
        } else {
            buf.push(ch);
        }
        proof {
            assert(chars@.take(i + 1).drop_last() =~= chars@.take(i as int));
            assert(buf@ =~= before + spec_remap_ipa_char(ch));
        }
        i = i + 1;
    }
    assert(chars@.take(chars.len() as int) =~= chars@);
    buf
}

/// The place of the first of the filtered entries, from place `i` on, that
/// says the same as `entry` with the tags `pos`.
pub open spec fn spec_find_match(
    out: Seq<FilteredModel>,
    entry: EntryModel,
    pos: Seq<u8>,
    i: int,
) -> Option<int>
    decreases out.len() - i,
{
    if i < 0 || i >= out.len() {
        None
    } else if spec_matches(out[i], entry, pos) {
        Some(i)
    } else {
        spec_find_match(out, entry, pos, i + 1)
    }
}

/// The filtered entries with one more entry taken in: an entry that was
/// there before only passes on its frequency, where that is higher.
pub open spec fn spec_filter_step(out: Seq<FilteredModel>, entry: EntryModel, pos: Seq<u8>) -> Seq<
    FilteredModel,
> {
    match spec_find_match(out, entry, pos, 0) {
        Some(k) => out.update(
            k,
            FilteredModel {
                freq: if out[k].freq < entry.freq {
                    entry.freq
                } else {
                    out[k].freq
                },
                ..out[k]
            },
        ),
        None => out.push(spec_filtered(entry, pos)),
    }
}

/// The filtered entries with the entries from place `i` on taken in.  An
/// entry with a tag that is not known stops it.
pub open spec fn spec_filter_entries_from(
    entries: Seq<EntryModel>,
    i: int,
    out: Seq<FilteredModel>,
) -> Result<Seq<FilteredModel>, Error>
    decreases entries.len() - i,
{
    if i < 0 || i >= entries.len() {
        Ok(out)
    } else {
        match spec_lookup_pos(entries[i].pos) {
            None => Err(Error::UnknownPartOfSpeech(i as usize)),
            Some(pos) => spec_filter_entries_from(
                entries,
                i + 1,
                spec_filter_step(out, entries[i], pos),
            ),
        }
    }
}

/// The entries with their tags looked up, and without the entries that say
/// what an earlier one says.
#[verifier::opaque]
pub open spec fn spec_filter_entries(entries: Seq<EntryModel>) -> Result<Seq<FilteredModel>, Error> {
    spec_filter_entries_from(entries, 0, Seq::empty())
}

/// The filtered entries, as sequences.
pub open spec fn filtered_view(entries: Seq<FilteredEntry<'_>>) -> Seq<FilteredModel> {
    entries.map_values(|entry: FilteredEntry| entry@)
}

/// Whether each filtered entry has a first tag, and one that a byte of a
/// variant can hold.
pub open spec fn spec_tags_ok(entries: Seq<FilteredModel>) -> bool {
    forall|i: int|
        0 <= i < entries.len() ==> (#[trigger] entries[i]).pos.len() >= 1 && entries[i].pos[0] < 39
}

/// Looks up the tags of the entries and drops the entries that say what an
/// earlier one says.
pub fn filter_entries<'a>(entries_in: &'a [Entry]) -> (r: Result<Vec<FilteredEntry<'a>>, Error>)
    ensures
        match r {
            Ok(entries_out) => spec_filter_entries(entries_view(entries_in@)) == Ok::<
                Seq<FilteredModel>,
                Error,
            >(filtered_view(entries_out@)) && spec_tags_ok(filtered_view(entries_out@)),
            Err(e) => spec_filter_entries(entries_view(entries_in@)) == Err::<
                Seq<FilteredModel>,
                Error,
            >(e),
        },
{
    let ghost entries = entries_view(entries_in@);
    proof {
        reveal(spec_filter_entries);
    }
    let mut entries_out: Vec<FilteredEntry<'a>> = Vec::new();
    let mut i: usize = 0;
    assert(filtered_view(entries_out@) =~= Seq::empty());
    while i < entries_in.len()
        invariant
            i <= entries_in.len(),
            entries == entries_view(entries_in@),
            spec_filter_entries(entries) == spec_filter_entries_from(
                entries,
                i as int,
                filtered_view(entries_out@),
            ),
            spec_tags_ok(filtered_view(entries_out@)),
        decreases entries_in.len() - i,
    {
        let new_entry = &entries_in[i];
        assert(entries[i as int] == new_entry@);
        let pos = match lookup_pos(new_entry.pos.as_str()) {
            Some(pos) => pos,
            None => {
                return Err(Error::UnknownPartOfSpeech(i));
            },
        };
        proof {
            lemma_lookup_pos_bounds(new_entry.pos@);
        }
        let ghost out0 = filtered_view(entries_out@);
        let mut k: usize = 0;
        while k < entries_out.len() && !entries_out[k].matches(new_entry, &pos)
            invariant
                k <= entries_out.len(),
                out0 == filtered_view(entries_out@),
                spec_find_match(out0, new_entry@, pos@, 0) == spec_find_match(
                    out0,
                    new_entry@,
                    pos@,
                    k as int,
                ),
            decreases entries_out.len() - k,
        {
            k = k + 1;
        }
        let ghost expected = spec_filter_step(out0, new_entry@, pos@);
        if k < entries_out.len() {
            assert(spec_find_match(out0, new_entry@, pos@, 0) == Some(k as int));
            if entries_out[k].freq < new_entry.freq {
                entries_out[k].freq = new_entry.freq;
            }
            assert(filtered_view(entries_out@) =~= expected);
        } else {
            assert(spec_find_match(out0, new_entry@, pos@, 0) is None);
            entries_out.push(FilteredEntry::new(new_entry, pos));
            assert(filtered_view(entries_out@) =~= expected);
        }
        proof {
            assert forall|j: int| 0 <= j < expected.len() implies (#[trigger] expected[j]).pos.len()
                >= 1 && expected[j].pos[0] < 39 by {
                if j < out0.len() {
                    assert(out0[j].pos == expected[j].pos);
                }
            }
        }
        i = i + 1;
    }
    Ok(entries_out)
}

/// One way to say a word.
pub struct ArticleVariant<'a> {
    pub shavian: &'a str,
    pub ipa: String,
    pub var: u8,
}

/// One way to say a word, as sequences.
pub struct VariantModel {
    pub shavian: Seq<char>,
    pub ipa: Seq<char>,
    pub var: u8,
}

impl<'a> ArticleVariant<'a> {
    /// The variant as sequences.
    pub open spec fn view(&self) -> VariantModel {
        VariantModel { shavian: self.shavian@, ipa: self.ipa@, var: self.var }
    }
}

/// A word with its tags and all the ways to say it.
pub struct ArticleEntry<'a> {
    pub latin: &'a str,
    pub pos: Vec<u8>,
    pub variants: Vec<ArticleVariant<'a>>,
}

/// A word with its tags and all the ways to say it, as sequences.
pub struct ArticleEntryModel {
    pub latin: Seq<char>,
    pub pos: Seq<u8>,
    pub variants: Seq<VariantModel>,
}

impl<'a> ArticleEntry<'a> {
    /// The entry as sequences.
    pub open spec fn view(&self) -> ArticleEntryModel {
        ArticleEntryModel {
            latin: self.latin@,
            pos: self.pos@,
            variants: self.variants@.map_values(|variant: ArticleVariant| variant@),
        }
    }
}

/// The entries of an article, as sequences.
pub open spec fn article_view(entries: Seq<ArticleEntry<'_>>) -> Seq<ArticleEntryModel> {
    entries.map_values(|entry: ArticleEntry| entry@)
}

/// The entries of an article with one more filtered entry taken in: it
/// joins the last entry where that one has the same word and the same tags,
/// and else starts an entry of its own.
pub open spec fn spec_combine_step(
    out: Seq<ArticleEntryModel>,
    filtered: FilteredModel,
    var: u8,
) -> Seq<ArticleEntryModel> {
    let variant = VariantModel {
        shavian: filtered.shavian,
        ipa: spec_remap_ipa(filtered.ipa),
        var,
    };
    if out.len() > 0 && out.last().latin == filtered.latin && out.last().pos == filtered.pos {
        out.update(
            out.len() - 1,
            ArticleEntryModel { variants: out.last().variants.push(variant), ..out.last() },
        )
    } else {
        out.push(
            ArticleEntryModel { latin: filtered.latin, pos: filtered.pos, variants: seq![variant] },
        )
    }
}

/// The entries of an article with the filtered entries from place `i` on
/// taken in.  A variation that is not known stops it.
pub open spec fn spec_combine_from(
    filtered: Seq<FilteredModel>,
    i: int,
    out: Seq<ArticleEntryModel>,
) -> Result<Seq<ArticleEntryModel>, Error>
    decreases filtered.len() - i,
{
    if i < 0 || i >= filtered.len() {
        Ok(out)
    } else {
        match spec_lookup_var(filtered[i].var) {
            None => Err(Error::UnknownVariation(i as usize)),
            Some(var) => spec_combine_from(
                filtered,
                i + 1,
                spec_combine_step(out, filtered[i], var),
            ),
        }
    }
}

/// The entries of an article: the entries of the lexicon filtered, and
/// those that follow one another with the same word and tags joined.
pub open spec fn spec_combine_variants(article: Seq<EntryModel>) -> Result<
    Seq<ArticleEntryModel>,
    Error,
> {
    match spec_filter_entries(article) {
        Err(e) => Err(e),
        Ok(filtered) => spec_combine_from(filtered, 0, Seq::empty()),
    }
}

/// Filters the entries of an article and joins those that follow one
/// another with the same word and tags.
pub fn combine_variants<'a>(article: &'a [Entry]) -> (r: Result<Vec<ArticleEntry<'a>>, Error>)
    ensures
        match r {
            Ok(entries) => spec_combine_variants(entries_view(article@)) == Ok::<
                Seq<ArticleEntryModel>,
                Error,
            >(article_view(entries@)),
            Err(e) => spec_combine_variants(entries_view(article@)) == Err::<
                Seq<ArticleEntryModel>,
                Error,
            >(e),
        },
{
    let filtered = match filter_entries(article) {
        Ok(filtered) => filtered,
        Err(e) => {
            return Err(e);
        },
    };
    let ghost models = filtered_view(filtered@);
    let mut entries: Vec<ArticleEntry<'a>> = Vec::new();
    let mut i: usize = 0;
    assert(article_view(entries@) =~= Seq::empty());
    while i < filtered.len()
        invariant
            i <= filtered.len(),
            models == filtered_view(filtered@),
            spec_combine_variants(entries_view(article@)) == spec_combine_from(
                models,
                i as int,
                article_view(entries@),
            ),
        decreases filtered.len() - i,
    {
        let entry = &filtered[i];
        assert(models[i as int] == entry@);
        let ipa = remap_ipa(entry.ipa);
        let var = match lookup_var(entry.var) {
            Some(var) => var,
            None => {
                return Err(Error::UnknownVariation(i));
            },
        };
        let variant = ArticleVariant { shavian: entry.shavian, ipa, var };
        let ghost out0 = article_view(entries@);
        let ghost expected = spec_combine_step(out0, entry@, var);
        let n = entries.len();
        if n > 0 && entries[n - 1].latin.eq(entry.latin) && bytes_eq(
            entries[n - 1].pos.as_slice(),
            entry.pos.as_slice(),
        ) {
            assert(out0[n - 1] == entries@[n - 1]@);
            entries[n - 1].variants.push(variant);
            assert(entries@[n - 1]@.variants =~= expected[n - 1].variants);
            assert(article_view(entries@) =~= expected);
        } else {
            if n > 0 {
                assert(out0[n - 1] == entries@[n - 1]@);
            }
            let mut variants: Vec<ArticleVariant<'a>> = Vec::new();
            variants.push(variant);
            let new_entry = ArticleEntry {
                latin: entry.latin,
                pos: slice_to_vec(entry.pos.as_slice()),
                variants,
            };
            assert(new_entry@.variants =~= seq![variant@]);
            entries.push(new_entry);
            assert(article_view(entries@) =~= expected);
        }
        i = i + 1;
    }
    Ok(entries)
}

/// A string as it stands in an article: a byte that holds its length in
/// bytes, as far as a byte can, and its UTF-8 bytes.
pub open spec fn spec_string_bytes(s: Seq<char>) -> Seq<u8> {
    seq![(encode_utf8(s).len() % 256) as u8] + encode_utf8(s)
}

/// Appends a string as it stands in an article.
pub fn write_string(s: &str, output: &mut Vec<u8>)
    ensures
        final(output)@ == old(output)@ + spec_string_bytes(s@),
{
    let bytes = s.as_bytes();
    let ghost before = output@;
    output.push((bytes.len() % 256) as u8);
    output.extend_from_slice(bytes);
    assert(output@ =~= before + spec_string_bytes(s@));
}

/// The bytes of the ways to say a word, from place `i` of the list on: for
/// each the number of its variation, the Shavian form and the
/// pronunciation.
pub open spec fn spec_variants_bytes(variants: Seq<VariantModel>, i: int) -> Seq<u8>
    decreases variants.len() - i,
{
    if i < 0 || i >= variants.len() {
        Seq::empty()
    } else {
        seq![variants[i].var] + spec_string_bytes(variants[i].shavian) + spec_string_bytes(
            variants[i].ipa,
        ) + spec_variants_bytes(variants, i + 1)
    }
}

/// The bytes of an entry of an article: the Latin form, the number of tags
/// and the tags, the number of ways to say the word and each of them.
pub open spec fn spec_entry_bytes(entry: ArticleEntryModel) -> Seq<u8> {
    spec_string_bytes(entry.latin) + seq![(entry.pos.len() % 256) as u8] + entry.pos + seq![
        (entry.variants.len() % 256) as u8,
    ] + spec_variants_bytes(entry.variants, 0)
}

/// The bytes of the entries of an article from place `i` of the list on.
pub open spec fn spec_entries_bytes(entries: Seq<ArticleEntryModel>, i: int) -> Seq<u8>
    decreases entries.len() - i,
{
    if i < 0 || i >= entries.len() {
        Seq::empty()
    } else {
        spec_entry_bytes(entries[i]) + spec_entries_bytes(entries, i + 1)
    }
}

/// The two bytes at the front of an article: the number of bytes that
/// follow them, as far as two bytes can hold it, the lower byte first.
pub open spec fn spec_article_header(len: nat) -> Seq<u8> {
    seq![(len % 256) as u8, (len / 256 % 256) as u8]
}

/// The bytes of an article: its length, then its entries.
#[verifier::opaque]
pub open spec fn spec_article_bytes(article: Seq<EntryModel>) -> Result<Seq<u8>, Error> {
    match spec_combine_variants(article) {
        Err(e) => Err(e),
        Ok(entries) => Ok(
            spec_article_header(spec_entries_bytes(entries, 0).len()) + spec_entries_bytes(
                entries,
                0,
            ),
        ),
    }
}

/// Appends the bytes of the ways to say a word.
fn write_variants(variants: &[ArticleVariant<'_>], output: &mut Vec<u8>)
    ensures
        final(output)@ == old(output)@ + spec_variants_bytes(
            variants@.map_values(|variant: ArticleVariant| variant@),
            0,
        ),
{
    let ghost models = variants@.map_values(|variant: ArticleVariant| variant@);
    let ghost before = output@;
    let mut i: usize = 0;
    assert(before + spec_variants_bytes(models, 0) =~= output@ + spec_variants_bytes(models, 0));
    while i < variants.len()
        invariant
            i <= variants.len(),
            models == variants@.map_values(|variant: ArticleVariant| variant@),
            before + spec_variants_bytes(models, 0) == output@ + spec_variants_bytes(
                models,
                i as int,
            ),
        decreases variants.len() - i,
    {
        let variant = &variants[i];
        assert(models[i as int] == variant@);
        let ghost out0 = output@;
        output.push(variant.var);
        write_string(variant.shavian, output);
        write_string(variant.ipa.as_str(), output);
        assert(output@ + spec_variants_bytes(models, i + 1) =~= out0 + spec_variants_bytes(
            models,
            i as int,
        ));
        i = i + 1;
    }
    assert(output@ + Seq::<u8>::empty() =~= output@);
}

/// Appends the bytes of an entry of an article.
fn write_entry(entry: &ArticleEntry<'_>, output: &mut Vec<u8>)
    ensures
        final(output)@ == old(output)@ + spec_entry_bytes(entry@),
{
    let ghost before = output@;
    write_string(entry.latin, output);
    output.push((entry.pos.len() % 256) as u8);
    output.extend_from_slice(entry.pos.as_slice());
    output.push((entry.variants.len() % 256) as u8);
    let ghost head = output@;
    assert(head =~= before + spec_string_bytes(entry@.latin) + seq![
        (entry@.pos.len() % 256) as u8,
    ] + entry@.pos + seq![(entry@.variants.len() % 256) as u8]);
    write_variants(entry.variants.as_slice(), output);
    assert(output@ =~= before + spec_entry_bytes(entry@));
}

/// Appends the bytes of an article.  Nothing is written where an entry of
/// the article is wrong.
pub fn write_article(article: &[Entry], output: &mut Vec<u8>) -> (r: Result<(), Error>)
    ensures
        match spec_article_bytes(entries_view(article@)) {
            Ok(bytes) => r == Ok::<(), Error>(()) && final(output)@ == old(output)@ + bytes,
            Err(e) => r == Err::<(), Error>(e) && final(output)@ == old(output)@,
        },
{
    proof {
        reveal(spec_article_bytes);
    }
    let entries = match combine_variants(article) {
        Ok(entries) => entries,
        Err(e) => {
            return Err(e);
        },
    };
    let ghost models = article_view(entries@);
    let mut body: Vec<u8> = Vec::new();
    let mut i: usize = 0;
    assert(spec_entries_bytes(models, 0) =~= body@ + spec_entries_bytes(models, 0));
    while i < entries.len()
        invariant
            i <= entries.len(),
            models == article_view(entries@),
            spec_entries_bytes(models, 0) == body@ + spec_entries_bytes(models, i as int),
        decreases entries.len() - i,
    {
        assert(models[i as int] == entries@[i as int]@);
        let ghost body0 = body@;
        write_entry(&entries[i], &mut body);
        assert(body@ + spec_entries_bytes(models, i + 1) =~= body0 + spec_entries_bytes(
            models,
            i as int,
        ));
        i = i + 1;
    }
    assert(body@ + Seq::<u8>::empty() =~= body@);
    let article_len = body.len();
    let ghost before = output@;
    output.push((article_len % 256) as u8);
    output.push((article_len / 256 % 256) as u8);
    output.append(&mut body);
    assert(output@ =~= before + (spec_article_header(article_len as nat) + spec_entries_bytes(
        models,
        0,
    )));
    Ok(())
}

/// The digits of numbers to the base sixteen.
pub const HEX_DIGITS: [char; 16] = [
    '0', '1', '2', '3', '4', '5', '6', '7', '8', '9', 'a', 'b', 'c', 'd', 'e', 'f',
];

/// The number `n` to the base sixteen, in lower case and in at least
/// `min_width` digits.
pub open spec fn spec_hex(n: nat, min_width: nat) -> Seq<char>
    decreases n, min_width,
{
    if n < 16 && min_width <= 1 {
        seq![HEX_DIGITS[n as int]]
    } else {
        spec_hex(
            n / 16,
            if min_width > 0 {
                (min_width - 1) as nat
            } else {
                0
            },
        ).push(HEX_DIGITS[(n % 16) as int])
    }
}

/// Appends `n` to the base sixteen, in at least `min_width` digits.
fn push_hex(n: usize, min_width: usize, output: &mut String)
    ensures
        final(output)@ == old(output)@ + spec_hex(n as nat, min_width as nat),
    decreases n, min_width,
{
    let ghost before = output@;
    if n < 16 && min_width <= 1 {
        output.push(HEX_DIGITS[n]);
        assert(output@ =~= before + spec_hex(n as nat, min_width as nat));
    } else {
        let rest_width = if min_width > 0 {
            min_width - 1
        } else {
            0
        };
        push_hex(n / 16, rest_width, output);
        output.push(HEX_DIGITS[n % 16]);
        assert(output@ =~= before + spec_hex(n as nat, min_width as nat));
    }
}

/// The name of the file whose first article has the number `first`.
pub open spec fn spec_article_file_name(first: nat) -> Seq<char> {
    seq!['a', 'r', 't', 'i', 'c', 'l', 'e', '-'] + spec_hex(first, 4) + seq!['.', 'b', 'i', 'n']
}

/// The name of the file whose first article has the number `first`:
/// `article-`, the number in four digits to the base sixteen, and `.bin`.
pub fn article_file_name(first: usize) -> (name: String)
    ensures
        name@ == spec_article_file_name(first as nat),
{
    let mut name = String::new();
    name.push('a');
    name.push('r');
    name.push('t');
    name.push('i');
    name.push('c');
    name.push('l');
    name.push('e');
    name.push('-');
    push_hex(first, 4, &mut name);
    name.push('.');
    name.push('b');
    name.push('i');
    name.push('n');
    assert(name@ =~= spec_article_file_name(first as nat));
    name
}

/// The articles of a lexicon, as sequences.
pub open spec fn articles_view(articles: Seq<Vec<Entry>>) -> Seq<Seq<EntryModel>> {
    articles.map_values(|article: Vec<Entry>| entries_view(article@))
}

/// One file of articles.
pub struct ArticleFile {
    pub name: String,
    pub contents: Vec<u8>,
}

/// One file of articles, as sequences.
pub struct ArticleFileModel {
    pub name: Seq<char>,
    pub contents: Seq<u8>,
}

impl ArticleFile {
    /// The file as sequences.
    pub open spec fn view(&self) -> ArticleFileModel {
        ArticleFileModel { name: self.name@, contents: self.contents@ }
    }
}

/// The files of articles, as sequences.
pub open spec fn files_view(files: Seq<ArticleFile>) -> Seq<ArticleFileModel> {
    files.map_values(|file: ArticleFile| file@)
}

/// The bytes of the articles from number `from` up to number `to`, one
/// after another.
pub open spec fn spec_articles_bytes(articles: Seq<Seq<EntryModel>>, from: int, to: int) -> Result<
    Seq<u8>,
    BuildError,
>
    decreases to - from,
{
    if from < 0 || from >= to || from >= articles.len() {
        Ok(Seq::empty())
    } else {
        match spec_article_bytes(articles[from]) {
            Err(e) => Err(BuildError::Article(from as usize, e)),
            Ok(bytes) => match spec_articles_bytes(articles, from + 1, to) {
                Err(e) => Err(e),
                Ok(rest) => Ok(bytes + rest),
            },
        }
    }
}

/// The files that hold the articles from number `from` on: each holds up
/// to `ARTICLES_PER_FILE` articles that follow one another, and is named
/// after the first.
pub open spec fn spec_article_files_from(articles: Seq<Seq<EntryModel>>, from: int) -> Result<
    Seq<ArticleFileModel>,
    BuildError,
>
    decreases articles.len() - from,
{
    if from < 0 || from >= articles.len() {
        Ok(Seq::empty())
    } else {
        match spec_articles_bytes(articles, from, from + ARTICLES_PER_FILE) {
            Err(e) => Err(e),
            Ok(contents) => {
                let file = ArticleFileModel { name: spec_article_file_name(from as nat), contents };
                if from + ARTICLES_PER_FILE >= articles.len() {
                    Ok(seq![file])
                } else {
                    match spec_article_files_from(articles, from + ARTICLES_PER_FILE) {
                        Err(e) => Err(e),
                        Ok(rest) => Ok(seq![file] + rest),
                    }
                }
            },
        }
    }
}

/// The files that hold the articles.
pub open spec fn spec_article_files(articles: Seq<Seq<EntryModel>>) -> Result<
    Seq<ArticleFileModel>,
    BuildError,
> {
    spec_article_files_from(articles, 0)
}

/// Appends the bytes of the articles from number `from` up to number `to`.
fn write_articles(articles: &[Vec<Entry>], from: usize, to: usize, output: &mut Vec<u8>) -> (r:
    Result<(), BuildError>)
    requires
        from <= to <= articles@.len(),
    ensures
        match spec_articles_bytes(articles_view(articles@), from as int, to as int) {
            Ok(bytes) => r == Ok::<(), BuildError>(()) && final(output)@ == old(output)@ + bytes,
            Err(e) => r == Err::<(), BuildError>(e),
        },
{
    let ghost models = articles_view(articles@);
    let ghost goal = spec_articles_bytes(models, from as int, to as int);
    let ghost before = output@;
    let mut i: usize = from;
    assert(before + Seq::<u8>::empty() =~= before);
    assert(goal is Ok ==> before + goal->Ok_0 =~= output@ + goal->Ok_0);
    while i < to
        invariant
            from <= i <= to <= articles@.len(),
            models == articles_view(articles@),
            goal == spec_articles_bytes(models, from as int, to as int),
            before == old(output)@,
            match spec_articles_bytes(models, i as int, to as int) {
                Ok(rest) => goal is Ok && before + goal->Ok_0 == output@ + rest,
                Err(e) => goal == Err::<Seq<u8>, BuildError>(e),
            },
        decreases to - i,
    {
        assert(models[i as int] == entries_view(articles@[i as int]@));
        let ghost out0 = output@;
        match write_article(articles[i].as_slice(), output) {
            Ok(()) => {},
            Err(e) => {
                return Err(BuildError::Article(i, e));
            },
        }
        proof {
            let bytes = spec_article_bytes(models[i as int])->Ok_0;
            let rest = spec_articles_bytes(models, i + 1, to as int);
            if rest is Ok {
                assert(out0 + (bytes + rest->Ok_0) =~= output@ + rest->Ok_0);
            }
        }
        i = i + 1;
    }
    assert(output@ + Seq::<u8>::empty() =~= output@);
    Ok(())
}

/// Makes the files of articles: their names and what they hold.
pub fn build_articles(articles: &[Vec<Entry>]) -> (r: Result<Vec<ArticleFile>, BuildError>)
    ensures
        match r {
            Ok(files) => spec_article_files(articles_view(articles@)) == Ok::<
                Seq<ArticleFileModel>,
                BuildError,
            >(files_view(files@)),
            Err(e) => spec_article_files(articles_view(articles@)) == Err::<
                Seq<ArticleFileModel>,
                BuildError,
            >(e),
        },
{
    let ghost models = articles_view(articles@);
    let n = articles.len();
    let mut files: Vec<ArticleFile> = Vec::new();
    let mut start: usize = 0;
    assert(files_view(files@) =~= Seq::empty());
    assert(Seq::<ArticleFileModel>::empty() + Seq::<ArticleFileModel>::empty() =~= Seq::empty());
    assert(spec_article_files_from(models, 0) is Ok ==> Seq::<ArticleFileModel>::empty()
        + spec_article_files_from(models, 0)->Ok_0 =~= spec_article_files_from(models, 0)->Ok_0);
    while start < n
        invariant
            n == articles.len(),
            models == articles_view(articles@),
            match spec_article_files_from(models, start as int) {
                Ok(rest) => spec_article_files(models) == Ok::<Seq<ArticleFileModel>, BuildError>(
                    files_view(files@) + rest,
                ),
                Err(e) => spec_article_files(models) == Err::<Seq<ArticleFileModel>, BuildError>(
                    e,
                ),
            },
        decreases n - start,
    {
        let last = n - start <= ARTICLES_PER_FILE;
        let end: usize = if last {
            n
        } else {
            start + ARTICLES_PER_FILE
        };
        let mut contents: Vec<u8> = Vec::new();
        proof {
            lemma_articles_bytes_end(models, start as int, end as int, start + ARTICLES_PER_FILE);
        }
        match write_articles(articles, start, end, &mut contents) {
            Ok(()) => {},
            Err(e) => {
                return Err(e);
            },
        }
        let name = article_file_name(start);
        let file = ArticleFile { name, contents };
        proof {
            let bytes = spec_articles_bytes(models, start as int, start + ARTICLES_PER_FILE);
            assert(Seq::<u8>::empty() + bytes->Ok_0 =~= bytes->Ok_0);
            assert(files_view(files@.push(file)) =~= files_view(files@).push(file@));
            if last {
                assert(files_view(files@) + seq![file@] =~= files_view(files@).push(file@));
            } else {
                let rest = spec_article_files_from(models, start + ARTICLES_PER_FILE);
                if rest is Ok {
                    assert(files_view(files@) + (seq![file@] + rest->Ok_0) =~= files_view(
                        files@,
                    ).push(file@) + rest->Ok_0);
                }
            }
        }
        files.push(file);
        if last {
            return Ok(files);
        }
        start = start + ARTICLES_PER_FILE;
    }
    assert(files_view(files@) + Seq::<ArticleFileModel>::empty() =~= files_view(files@));
    Ok(files)
}

/// The bytes of the articles up to number `to` are those up to the last
/// article, where `to` lies past it.
pub proof fn lemma_articles_bytes_end(
    articles: Seq<Seq<EntryModel>>,
    from: int,
    end: int,
    to: int,
)
    requires
        0 <= from <= end <= to,
        end == to || end == articles.len(),
    ensures
        spec_articles_bytes(articles, from, end) == spec_articles_bytes(articles, from, to),
    decreases end - from,
{
    if from < end {
        lemma_articles_bytes_end(articles, from + 1, end, to);
    }
}

/// Whether a word holds the character that marks the end of a word in the
/// trie.
pub fn has_nul(s: &str) -> (r: bool)
    ensures
        r == s@.contains('\0'),
{
    let chars = str_to_chars(s);
    let end = index_of(chars.as_slice(), 0, '\0');
    proof {
        assert(chars@.skip(0) =~= chars@);
        lemma_index_of(chars@, '\0');
    }
    end < chars.len()
}

/// The rank of an entry among the translations of a word: the more
/// frequent, the smaller the number and the higher the rank.
pub open spec fn spec_priority(freq: u32) -> u32 {
    (0xffff_ffff - freq) as u32
}

/// The trie with the filtered entries from place `i` on added: the Shavian
/// form and the Latin form of each as a pair of words, with the first tag of
/// the entry, the number of the article and the rank that the frequency
/// gives.  An entry whose word holds the character `'\0'` stops it.
pub open spec fn spec_add_entries(
    model: Seq<NodeModel>,
    filtered: Seq<FilteredModel>,
    i: int,
    article_num: u16,
) -> Result<Seq<NodeModel>, Error>
    decreases filtered.len() - i,
{
    if i < 0 || i >= filtered.len() {
        Ok(model)
    } else if filtered[i].shavian.contains('\0') || filtered[i].latin.contains('\0') {
        Err(Error::NulCharacter(i as usize))
    } else {
        spec_add_entries(
            spec_add_entry(
                model,
                filtered[i].shavian,
                filtered[i].latin,
                filtered[i].pos[0],
                article_num,
                spec_priority(filtered[i].freq),
            ),
            filtered,
            i + 1,
            article_num,
        )
    }
}

/// The number of an article as a translation holds it: the place of the
/// article in the lexicon, as far as two bytes can hold it.
pub open spec fn spec_article_num(article: int) -> u16 {
    (article % 0x1_0000) as u16
}

/// The trie with the words of the articles from number `i` on added.
pub open spec fn spec_build_trie_from(
    articles: Seq<Seq<EntryModel>>,
    i: int,
    model: Seq<NodeModel>,
) -> Result<Seq<NodeModel>, BuildError>
    decreases articles.len() - i,
{
    if i < 0 || i >= articles.len() {
        Ok(model)
    } else {
        match spec_filter_entries(articles[i]) {
            Err(e) => Err(BuildError::Article(i as usize, e)),
            Ok(filtered) => match spec_add_entries(model, filtered, 0, spec_article_num(i)) {
                Err(e) => Err(BuildError::Article(i as usize, e)),
                Ok(next) => spec_build_trie_from(articles, i + 1, next),
            },
        }
    }
}

/// The file of the dictionary of a lexicon: the trie of the words of all
/// its articles, laid out as a dictionary file.
pub open spec fn spec_build_trie(articles: Seq<Seq<EntryModel>>) -> Result<Seq<u8>, BuildError> {
    match spec_build_trie_from(articles, 0, spec_empty_trie()) {
        Err(e) => Err(e),
        Ok(model) => {
            if !spec_fits_file(model) {
                Err(BuildError::Trie(trie_builder::Error::TooLarge))
            } else {
                Ok(spec_dictionary_bytes(model))
            }
        },
    }
}

/// The length header of a dictionary file matches the file: a dictionary
/// that the builder laid out passes the check of its length.
pub proof fn law_dictionary_file_length(model: Seq<NodeModel>)
    requires
        spec_fits_file(model),
    ensures
        spec_check_length(spec_dictionary_bytes(model)) == Ok::<(), crate::dictionary::Error>(()),
{
    let trie = spec_file_trie(model);
    let file = spec_dictionary_bytes(model);
    assert(file.len() == trie.len() + 4);
    assert(file[0] == (trie.len() % 256) as u8);
    assert(file[1] == (trie.len() / 0x100 % 256) as u8);
    assert(file[2] == (trie.len() / 0x1_0000 % 256) as u8);
    assert(file[3] == (trie.len() / 0x100_0000 % 256) as u8);
}

/// Adds the words of the filtered entries of an article to the trie.
fn add_entries(builder: &mut TrieBuilder, filtered: &[FilteredEntry<'_>], article_num: u16) -> (r:
    Result<(), Error>)
    requires
        old(builder).wf(),
        spec_tags_ok(filtered_view(filtered@)),
    ensures
        final(builder).wf(),
        match r {
            Ok(()) => spec_add_entries(
                old(builder).model(),
                filtered_view(filtered@),
                0,
                article_num,
            ) == Ok::<Seq<NodeModel>, Error>(final(builder).model()),
            Err(e) => spec_add_entries(
                old(builder).model(),
                filtered_view(filtered@),
                0,
                article_num,
            ) == Err::<Seq<NodeModel>, Error>(e),
        },
{
    let ghost models = filtered_view(filtered@);
    let ghost goal = spec_add_entries(builder.model(), models, 0, article_num);
    let mut i: usize = 0;
    while i < filtered.len()
        invariant
            i <= filtered.len(),
            builder.wf(),
            models == filtered_view(filtered@),
            spec_tags_ok(models),
            goal == spec_add_entries(old(builder).model(), models, 0, article_num),
            goal == spec_add_entries(builder.model(), models, i as int, article_num),
        decreases filtered.len() - i,
    {
        let entry = &filtered[i];
        assert(models[i as int] == entry@);
        if has_nul(entry.shavian) || has_nul(entry.latin) {
            return Err(Error::NulCharacter(i));
        }
        assert(models[i as int].pos.len() >= 1 && models[i as int].pos[0] < 39);
        builder.add_entry(
            entry.shavian,
            entry.latin,
            entry.pos[0],
            article_num,
            u32::MAX - entry.freq,
        );
        i = i + 1;
    }
    Ok(())
}

/// Makes the file of the dictionary: the trie of the words of all the
/// articles, laid out as a dictionary file.
pub fn build_trie(articles: &[Vec<Entry>]) -> (r: Result<Vec<u8>, BuildError>)
    ensures
        match r {
            Ok(file) => spec_build_trie(articles_view(articles@)) == Ok::<Seq<u8>, BuildError>(
                file@,
            ),
            Err(e) => spec_build_trie(articles_view(articles@)) == Err::<Seq<u8>, BuildError>(e),
        },
{
    let ghost models = articles_view(articles@);
    let mut builder = TrieBuilder::new();
    let mut i: usize = 0;
    while i < articles.len()
        invariant
            i <= articles.len(),
            builder.wf(),
            models == articles_view(articles@),
            spec_build_trie_from(models, 0, spec_empty_trie()) == spec_build_trie_from(
                models,
                i as int,
                builder.model(),
            ),
        decreases articles.len() - i,
    {
        assert(models[i as int] == entries_view(articles@[i as int]@));
        let filtered = match filter_entries(articles[i].as_slice()) {
            Ok(filtered) => filtered,
            Err(e) => {
                return Err(BuildError::Article(i, e));
            },
        };
        let article_num: u16 = (i % 0x1_0000) as u16;
        match add_entries(&mut builder, filtered.as_slice(), article_num) {
            Ok(()) => {},
            Err(e) => {
                return Err(BuildError::Article(i, e));
            },
        }
        i = i + 1;
    }
    let mut file: Vec<u8> = Vec::new();
    match builder.into_dictionary(&mut file) {
        Ok(()) => {},
        Err(e) => {
            return Err(BuildError::Trie(e));
        },
    }
    assert(file@ =~= spec_dictionary_bytes(builder.model()));
    Ok(file)
}

} // verus!
