//! Building the trie of a dictionary and laying it out in bytes.
//!
//! A node is laid out as a number of variable length, then the UTF-8 bytes
//! of its character, then what belongs to it: the nodes of its children, or
//! for a terminator the translations of the word that ends there.  The
//! lowest bit of the number says whether the node has children; the rest of
//! it is the distance in bytes from the end of the number to the next
//! sibling, or zero for the last sibling.
//!
//! The character `'\0'` marks a terminator: the characters on the way from
//! the root to it are a word.  Each translation of the word starts with a
//! byte that holds its tag in the low seven bits and, in the top bit,
//! whether another translation follows.  Then come the number of its article
//! in two bytes, the lower first, and the path to the translation in the
//! trie: for each node on the way, the index of the child to take, in as
//! many bits as the largest index among its siblings needs.  The path is
//! padded with zero bits to a whole byte.
//!
//! A dictionary file starts with the length of the trie in four bytes, the
//! lowest first; the children of the root follow, and the root itself is not
//! laid out.

use crate::bit_writer::BitWriter;
use crate::bits::{bits_of_bytes, lemma_pow2_32, lemma_pow2_bound, low_bits, pack, pow2};
use crate::dictionary;
use crate::dictionary::{bit_length, lemma_pow128_values, pow128, spec_bit_length, spec_offset_from};
use crate::text::str_to_chars;
use crate::trie_laws::{
    law_add_entry_keeps_paths, law_add_entry_keeps_tree, law_add_word_comes_last, spec_labelled,
    spec_pair_comes_last, spec_tree,
};
use vstd::prelude::*;
use vstd::string::StrSliceExecFns;
use vstd::utf8::encode_utf8;

verus! {

/// The number of bytes that the variable-length encoding of `size` takes:
/// one for every seven bits, and at least one.
pub open spec fn spec_n_bytes_for_size(size: nat) -> nat
    decreases size,
{
    if size < 0x80 {
        1
    } else {
        1 + spec_n_bytes_for_size(size / 0x80)
    }
}

/// The variable-length encoding of a number: seven bits to a byte, the
/// lowest first, and the top bit set in every byte but the last.
pub open spec fn spec_encode_offset(offset: nat) -> Seq<u8>
    decreases offset,
{
    if offset < 0x80 {
        seq![offset as u8]
    } else {
        seq![(offset % 0x80 + 0x80) as u8] + spec_encode_offset(offset / 0x80)
    }
}

/// The encoding of a number is as long as counted.
pub proof fn lemma_encode_offset_len(offset: nat)
    ensures
        spec_encode_offset(offset).len() == spec_n_bytes_for_size(offset),
    decreases offset,
{
    if offset >= 0x80 {
        lemma_encode_offset_len(offset / 0x80);
    }
}

/// The boundaries of the variable-length encoding: a number takes no more
/// than `bytes` bytes exactly when it is below 128 to the power `bytes`.  So
/// one byte holds the numbers up to `0x7f`, two hold those up to `0x3fff`,
/// and so on.
pub proof fn law_n_bytes_for_size(size: nat, bytes: nat)
    requires
        bytes >= 1,
    ensures
        spec_n_bytes_for_size(size) <= bytes <==> size < pow128(bytes),
    decreases bytes,
{
    reveal_with_fuel(pow128, 2);
    lemma_encode_offset_len(size / 0x80);
    let rest = pow128((bytes - 1) as nat) as int;
    lemma_pow128_positive((bytes - 1) as nat);
    assert(pow128(bytes) == 128 * rest);
    if bytes > 1 {
        law_n_bytes_for_size(size / 0x80, (bytes - 1) as nat);
        assert((size / 0x80 < rest) == (size < 128 * rest)) by (nonlinear_arith)
            requires
                rest >= 1,
                size >= 0,
        ;
    }
}

/// The powers of 128 are positive.
pub proof fn lemma_pow128_positive(n: nat)
    ensures
        pow128(n) >= 1,
    decreases n,
{
    if n > 0 {
        lemma_pow128_positive((n - 1) as nat);
    }
}

/// The number of bytes that the variable-length encoding of `size` takes.
pub fn n_bytes_for_size(size: usize) -> (n: usize)
    ensures
        n == spec_n_bytes_for_size(size as nat),
        1 <= n <= 10,
{
    let mut n: usize = 1;
    let mut rest: usize = size;
    proof {
        lemma_pow128_values();
        assert(rest * pow128(0) == rest);
    }
    while rest >= 0x80
        invariant
            1 <= n <= 10,
            spec_n_bytes_for_size(size as nat) == n - 1 + spec_n_bytes_for_size(rest as nat),
            rest * pow128((n - 1) as nat) <= size,
        decreases rest,
    {
        proof {
            lemma_pow128_values();
            reveal_with_fuel(pow128, 2);
            let p = pow128((n - 1) as nat) as int;
            assert((rest / 0x80) * (128 * p) <= rest * p) by (nonlinear_arith)
                requires
                    rest >= 0,
                    p >= 0,
            ;
            if n == 10 {
                assert(rest * p >= 128 * p) by (nonlinear_arith)
                    requires
                        rest >= 128,
                        p >= 0,
                ;
            }
        }
        rest = rest / 0x80;
        n = n + 1;
    }
    n
}

/// Appends the variable-length encoding of `offset` to `output`.
pub fn write_offset(offset: usize, output: &mut Vec<u8>)
    ensures
        final(output)@ == old(output)@ + spec_encode_offset(offset as nat),
{
    let mut rest: usize = offset;
    let ghost before = output@;
    assert(before + Seq::<u8>::empty() =~= before);
    let ghost mut written: Seq<u8> = Seq::empty();
    while rest >= 0x80
        invariant
            output@ == before + written,
            written + spec_encode_offset(rest as nat) == spec_encode_offset(offset as nat),
        decreases rest,
    {
        let byte: u8 = (rest % 0x80 + 0x80) as u8;
        proof {
            assert(written.push(byte) + spec_encode_offset((rest / 0x80) as nat) =~= written
                + spec_encode_offset(rest as nat));
            assert(output@.push(byte) =~= before + written.push(byte));
            written = written.push(byte);
        }
        output.push(byte);
        rest = rest / 0x80;
    }
    proof {
        assert(output@.push(rest as u8) =~= before + (written + spec_encode_offset(rest as nat)));
    }
    output.push(rest as u8);
}

/// Reading back what `write_offset` wrote: the number that was written,
/// and the number of bytes it took, provided that it has no more bits than
/// the encoding of a machine word may hold.
pub proof fn law_offset_round_trip(offset: nat, rest: Seq<u8>)
    requires
        spec_n_bytes_for_size(offset) * 7 <= usize::BITS,
    ensures
        spec_offset_from(spec_encode_offset(offset) + rest, 0, 0) == Ok::<
            (nat, nat),
            dictionary::Error,
        >((offset, spec_n_bytes_for_size(offset))),
{
    lemma_offset_round_trip_from(offset, Seq::empty(), rest);
    assert(Seq::<u8>::empty() + spec_encode_offset(offset) + rest =~= spec_encode_offset(offset)
        + rest);
}

/// Reading a number from a byte on, where the rest of its encoding starts
/// there, gives the number.
proof fn lemma_offset_round_trip_from(offset: nat, before: Seq<u8>, rest: Seq<u8>)
    requires
        (before.len() + spec_n_bytes_for_size(offset)) * 7 <= usize::BITS,
    ensures
        spec_offset_from(before + spec_encode_offset(offset) + rest, 0, before.len())
            == Ok::<(nat, nat), dictionary::Error>(
            (offset, before.len() + spec_n_bytes_for_size(offset)),
        ),
    decreases offset,
{
    let buf = before + spec_encode_offset(offset) + rest;
    let i = before.len();
    assert(buf[i as int] == spec_encode_offset(offset)[0]);
    if offset >= 0x80 {
        let byte = (offset % 0x80 + 0x80) as u8;
        lemma_offset_round_trip_from(offset / 0x80, before.push(byte), rest);
        assert(before.push(byte) + spec_encode_offset(offset / 0x80) + rest =~= buf);
    }
}

/// One translation of a word.
pub struct TranslationModel {
    /// The tag of the translation: a number below 128.
    pub payload_byte: u8,
    /// The number of the article that tells more of the word.
    pub article_num: u16,
    /// The rank of the translation among those of its word: one with a
    /// smaller number comes first.
    pub priority: u32,
    pub value: Seq<char>,
}

/// One node of the trie.
pub struct NodeModel {
    /// The character of the node: `'\0'` for a terminator.
    pub ch: char,
    pub is_terminator: bool,
    /// For a terminator, the translations of the word that ends there, in
    /// the order of their ranks, and those of one rank in the order in which
    /// they were added.
    pub translations: Seq<TranslationModel>,
    /// The places of the children in the trie, in the order of their
    /// characters.
    pub children: Seq<usize>,
}

/// The character of the child `k` of a list of children.
pub open spec fn child_ch(model: Seq<NodeModel>, children: Seq<usize>, k: int) -> char {
    model[children[k] as int].ch
}

/// What holds of every trie: the root is at the front; children come after
/// their parent; the children of a node are in the strict order of their
/// characters; a terminator has the character `'\0'` and no children, and
/// below the root no other node has that character; only terminators have
/// translations.
pub open spec fn wf_model(model: Seq<NodeModel>) -> bool {
    &&& model.len() >= 1
    &&& !model[0].is_terminator
    &&& forall|i: int, k: int|
        0 <= i < model.len() && 0 <= k < model[i].children.len() ==> i < (
        #[trigger] model[i].children[k]) < model.len()
    &&& forall|i: int, a: int, b: int|
        0 <= i < model.len() && 0 <= a < b < model[i].children.len() ==> (#[trigger] child_ch(
            model,
            model[i].children,
            a,
        )) < (#[trigger] child_ch(model, model[i].children, b))
    &&& forall|i: int|
        0 <= i < model.len() && (#[trigger] model[i]).is_terminator ==> model[i].ch == '\0'
            && model[i].children.len() == 0
    &&& forall|i: int|
        0 < i < model.len() && !(#[trigger] model[i]).is_terminator ==> model[i].ch != '\0'
            && model[i].translations.len() == 0
    &&& model[0].translations.len() == 0
}

/// The number of children, counted from the front of the list, whose
/// character comes before `ch`: where a child with `ch` stands, or would.
pub open spec fn spec_lower_bound(model: Seq<NodeModel>, children: Seq<usize>, ch: char) -> nat
    decreases children.len(),
{
    if children.len() == 0 || child_ch(model, children, 0) >= ch {
        0
    } else {
        1 + spec_lower_bound(model, children.drop_first(), ch)
    }
}

/// The place that a search through sorted children comes to is the lower
/// bound.
pub proof fn lemma_lower_bound(model: Seq<NodeModel>, children: Seq<usize>, ch: char, k: int)
    requires
        0 <= k <= children.len(),
        forall|j: int| 0 <= j < k ==> (#[trigger] child_ch(model, children, j)) < ch,
        k < children.len() ==> child_ch(model, children, k) >= ch,
    ensures
        spec_lower_bound(model, children, ch) == k,
    decreases children.len(),
{
    if k > 0 {
        let rest = children.drop_first();
        assert forall|j: int| 0 <= j < k - 1 implies (#[trigger] child_ch(model, rest, j))
            < ch by {
            assert(child_ch(model, rest, j) == child_ch(model, children, j + 1));
        }
        if k < children.len() {
            assert(child_ch(model, rest, k - 1) == child_ch(model, children, k));
        }
        assert(child_ch(model, children, 0) < ch);
        lemma_lower_bound(model, rest, ch, k - 1);
    }
}

/// A node with no children yet and no translations.
pub open spec fn spec_new_node(ch: char, is_terminator: bool) -> NodeModel {
    NodeModel { ch, is_terminator, translations: Seq::empty(), children: Seq::empty() }
}

/// The trie with `child` put at place `k` among the children of `parent`.
pub open spec fn spec_with_child(model: Seq<NodeModel>, parent: int, k: int, child: usize) -> Seq<
    NodeModel,
> {
    model.update(
        parent,
        NodeModel { children: model[parent].children.insert(k, child), ..model[parent] },
    )
}

/// The child of `parent` with the character `ch`, and the trie that holds
/// it: where `parent` has no such child, a new node joins the trie at its end
/// and the children of `parent` at its place in their order.
pub open spec fn spec_child_for(
    model: Seq<NodeModel>,
    parent: int,
    ch: char,
    is_terminator: bool,
) -> (Seq<NodeModel>, int) {
    let children = model[parent].children;
    let k = spec_lower_bound(model, children, ch) as int;
    if k < children.len() && child_ch(model, children, k) == ch {
        (model, children[k] as int)
    } else {
        (
            spec_with_child(
                model.push(spec_new_node(ch, is_terminator)),
                parent,
                k,
                model.len() as usize,
            ),
            model.len() as int,
        )
    }
}

/// Where a translation with the rank `priority` joins a list of
/// translations: after those at the front of the list whose rank is no
/// greater, so that where the ranks are the same the order is that of
/// arrival.
pub open spec fn spec_priority_position(translations: Seq<TranslationModel>, priority: u32) -> nat
    decreases translations.len(),
{
    if translations.len() == 0 || translations[0].priority > priority {
        0
    } else {
        1 + spec_priority_position(translations.drop_first(), priority)
    }
}

/// The place that a search through the translations comes to is the place
/// where the new one joins.
pub proof fn lemma_priority_position(
    translations: Seq<TranslationModel>,
    priority: u32,
    k: int,
)
    requires
        0 <= k <= translations.len(),
        forall|j: int| 0 <= j < k ==> (#[trigger] translations[j]).priority <= priority,
        k < translations.len() ==> translations[k].priority > priority,
    ensures
        spec_priority_position(translations, priority) == k,
    decreases translations.len(),
{
    if k > 0 {
        let rest = translations.drop_first();
        assert forall|j: int| 0 <= j < k - 1 implies (#[trigger] rest[j]).priority
            <= priority by {
            assert(rest[j] == translations[j + 1]);
        }
        if k < translations.len() {
            assert(rest[k - 1] == translations[k]);
        }
        assert(translations[0].priority <= priority);
        lemma_priority_position(rest, priority, k - 1);
    }
}

/// The place where a translation joins lies within the list, or at its end.
pub proof fn lemma_priority_position_bound(translations: Seq<TranslationModel>, priority: u32)
    ensures
        spec_priority_position(translations, priority) <= translations.len(),
    decreases translations.len(),
{
    if translations.len() > 0 && translations[0].priority <= priority {
        lemma_priority_position_bound(translations.drop_first(), priority);
    }
}

/// The trie with `translation` added to the translations of the terminator
/// at `node`, at the place that its rank gives it.
pub open spec fn spec_with_translation(
    model: Seq<NodeModel>,
    node: int,
    translation: TranslationModel,
) -> Seq<NodeModel> {
    model.update(
        node,
        NodeModel {
            translations: model[node].translations.insert(
                spec_priority_position(model[node].translations, translation.priority) as int,
                translation,
            ),
            ..model[node]
        },
    )
}

/// The trie after `word` was put in below `node`, with `translation` added
/// to the translations at its end: for each character the child with that
/// character is taken, or made; the terminator below the last one takes the
/// translation.
pub open spec fn spec_insert(
    model: Seq<NodeModel>,
    node: int,
    word: Seq<char>,
    translation: TranslationModel,
) -> Seq<NodeModel>
    decreases word.len(),
{
    if word.len() == 0 {
        let (with_end, end) = spec_child_for(model, node, '\0', true);
        spec_with_translation(with_end, end, translation)
    } else {
        let (with_child, child) = spec_child_for(model, node, word[0], false);
        spec_insert(with_child, child, word.drop_first(), translation)
    }
}

/// The trie after a pair of words was added: each of the two is put in as a
/// word, with the other as its translation, the same tag, the same article
/// and the same rank.
pub open spec fn spec_add_entry(
    model: Seq<NodeModel>,
    word: Seq<char>,
    translation: Seq<char>,
    payload_byte: u8,
    article_num: u16,
    priority: u32,
) -> Seq<NodeModel> {
    spec_insert(
        spec_insert(
            model,
            0,
            word,
            TranslationModel { payload_byte, article_num, priority, value: translation },
        ),
        0,
        translation,
        TranslationModel { payload_byte, article_num, priority, value: word },
    )
}

/// The rank of a pair of words that was added without one: the last.
pub open spec fn spec_last_priority() -> u32 {
    0xffff_ffff
}

/// The trie after a pair of words was added without a rank: each of the two
/// comes after the translations that the other word has.
pub open spec fn spec_add_word(
    model: Seq<NodeModel>,
    word: Seq<char>,
    translation: Seq<char>,
    payload_byte: u8,
    article_num: u16,
) -> Seq<NodeModel> {
    spec_add_entry(model, word, translation, payload_byte, article_num, spec_last_priority())
}

/// The trie with nothing in it but the root, whose character stands for
/// nothing.
pub open spec fn spec_empty_trie() -> Seq<NodeModel> {
    seq![spec_new_node('*', false)]
}

/// Where the child of `node` with the character `ch` stands among the
/// children of `node`, if there is one.
pub open spec fn spec_child_index(model: Seq<NodeModel>, node: int, ch: char) -> Option<nat> {
    let children = model[node].children;
    let k = spec_lower_bound(model, children, ch);
    if k < children.len() && child_ch(model, children, k as int) == ch {
        Some(k)
    } else {
        None
    }
}

/// The bits that spell `index` in a path, `width` of them, the lowest
/// first.
pub open spec fn spec_index_bits(index: nat, width: nat) -> Seq<bool> {
    if width <= 32 {
        low_bits(index as u32, width)
    } else {
        low_bits((index % 0x1_0000_0000) as u32, 32) + low_bits(
            (index / 0x1_0000_0000) as u32,
            (width - 32) as nat,
        )
    }
}

/// The number of bits that the index of a child of `node` takes in a path.
pub open spec fn spec_child_index_width(model: Seq<NodeModel>, node: int) -> nat {
    spec_bit_length((model[node].children.len() - 1) as nat)
}

/// The path from `node` to the terminator of `word`: for each character of
/// the word, and then for the terminator, the index of the child to take.
/// Nothing where the trie does not hold the word below `node`.
pub open spec fn spec_path_bits(model: Seq<NodeModel>, node: int, word: Seq<char>) -> Option<
    Seq<bool>,
>
    decreases word.len(),
{
    let ch = if word.len() == 0 {
        '\0'
    } else {
        word[0]
    };
    match spec_child_index(model, node, ch) {
        None => None,
        Some(k) => {
            let bits = spec_index_bits(k, spec_child_index_width(model, node));
            if word.len() == 0 {
                Some(bits)
            } else {
                match spec_path_bits(
                    model,
                    model[node].children[k as int] as int,
                    word.drop_first(),
                ) {
                    None => None,
                    Some(rest) => Some(bits + rest),
                }
            }
        },
    }
}

/// Whether each entry of the list, starting at place `i`, is itself a word
/// of the trie.
pub open spec fn spec_translations_present(
    model: Seq<NodeModel>,
    translations: Seq<TranslationModel>,
    i: int,
) -> bool
    decreases translations.len() - i,
{
    i < 0 || i >= translations.len() || (spec_path_bits(model, 0, translations[i].value) is Some
        && spec_translations_present(model, translations, i + 1))
}

/// Whether every translation in the trie is itself a word of the trie, so
/// that there is a path to it.
pub open spec fn spec_paths_present(model: Seq<NodeModel>) -> bool {
    forall|i: int|
        0 <= i < model.len() ==> spec_translations_present(
            model,
            (#[trigger] model[i]).translations,
            0,
        )
}

/// Whether every node but the root and the terminators has a child: every
/// way down the trie leads to a terminator.
pub open spec fn spec_no_dead_ends(model: Seq<NodeModel>) -> bool {
    forall|i: int|
        0 < i < model.len() && !(#[trigger] model[i]).is_terminator ==> model[i].children.len() > 0
}

/// Whether the tag of every translation leaves the top bit of its byte
/// free.
pub open spec fn spec_payload_bytes_ok(model: Seq<NodeModel>) -> bool {
    forall|i: int, j: int|
        0 <= i < model.len() && 0 <= j < model[i].translations.len() ==> (
        #[trigger] model[i].translations[j]).payload_byte < 0x80
}

/// The first byte of a translation: its tag, with the top bit set where
/// another translation follows.
pub open spec fn spec_framing_byte(payload_byte: u8, more: bool) -> u8 {
    if more {
        payload_byte | 0x80
    } else {
        payload_byte
    }
}

/// The number of an article as a translation holds it: in two bytes, the
/// lower byte first.
pub open spec fn spec_article_bytes(article_num: u16) -> Seq<u8> {
    seq![(article_num % 256) as u8, (article_num / 256) as u8]
}

/// The bytes of the entries of the list, starting at place `i`: for each its
/// first byte, the number of its article, then its
/// path, padded to a whole byte.
pub open spec fn spec_payload_from(
    model: Seq<NodeModel>,
    translations: Seq<TranslationModel>,
    i: int,
) -> Seq<u8>
    decreases translations.len() - i,
{
    if i < 0 || i >= translations.len() {
        Seq::empty()
    } else {
        seq![spec_framing_byte(translations[i].payload_byte, i + 1 < translations.len())]
            + spec_article_bytes(translations[i].article_num) + pack(
            match spec_path_bits(model, 0, translations[i].value) {
                Some(bits) => bits,
                None => Seq::empty(),
            },
        ) + spec_payload_from(model, translations, i + 1)
    }
}

/// The number that stands at the front of a node: twice the distance to the
/// next sibling, plus one where the node has children.  The distance is the
/// length of what follows the number, or zero for the last sibling.
pub open spec fn spec_node_data_number(body_len: nat, is_last: bool, has_children: bool) -> nat {
    let sibling_offset = if is_last {
        0
    } else {
        body_len
    };
    2 * sibling_offset + (if has_children {
        1nat
    } else {
        0nat
    })
}

/// What follows the number at the front of `node`: the bytes of its
/// character, then its translations or its children.
pub open spec fn spec_body(model: Seq<NodeModel>, node: int) -> Seq<u8>
    decreases model.len() - node, model[node].children.len() + 1,
{
    encode_utf8(seq![model[node].ch]) + (if model[node].is_terminator {
        spec_payload_from(model, model[node].translations, 0)
    } else {
        spec_children_bytes(model, node, 0)
    })
}

/// The bytes of the children of `node` from child `k` on, one after
/// another.
pub open spec fn spec_children_bytes(model: Seq<NodeModel>, node: int, k: int) -> Seq<
    u8,
>
    decreases model.len() - node, model[node].children.len() - k,
{
    let children = model[node].children;
    if k < 0 || k >= children.len() || children[k] <= node || children[k] >= model.len() {
        Seq::empty()
    } else {
        spec_subtree(model, children[k] as int, k + 1 == children.len())
            + spec_children_bytes(model, node, k + 1)
    }
}

/// The bytes of `node` and of all that lies below it.
pub open spec fn spec_subtree(model: Seq<NodeModel>, node: int, is_last: bool) -> Seq<
    u8,
>
    decreases model.len() - node, model[node].children.len() + 2,
{
    spec_encode_offset(
        spec_node_data_number(
            spec_body(model, node).len(),
            is_last,
            model[node].children.len() > 0,
        ),
    ) + spec_body(model, node)
}

/// The four bytes that spell `len`, the lowest byte first.
pub open spec fn spec_length_header(len: nat) -> Seq<u8> {
    seq![
        (len % 256) as u8,
        (len / 0x100 % 256) as u8,
        (len / 0x1_0000 % 256) as u8,
        (len / 0x100_0000 % 256) as u8,
    ]
}

/// The bytes of the trie in a dictionary file: the children of the root and
/// all that lies below them.
pub open spec fn spec_file_trie(model: Seq<NodeModel>) -> Seq<u8> {
    spec_children_bytes(model, 0, 0)
}

/// The bytes of a dictionary file: the length of the trie in four bytes,
/// and the trie.
pub open spec fn spec_dictionary_bytes(model: Seq<NodeModel>) -> Seq<u8> {
    spec_length_header(spec_file_trie(model).len()) + spec_file_trie(model)
}

/// The largest number that may stand at the front of `node`.
pub open spec fn spec_largest_number(model: Seq<NodeModel>, node: int) -> nat {
    spec_node_data_number(spec_body(model, node).len(), false, true)
}

/// Whether a number may stand at the front of a node: it fits a machine
/// word, and its encoding is no longer than the reader takes.
pub open spec fn spec_number_fits(number: nat) -> bool {
    number <= usize::MAX && spec_n_bytes_for_size(number) * 7 <= usize::BITS
}

/// Whether the number at the front of every node may stand there.
pub open spec fn spec_fits(model: Seq<NodeModel>) -> bool {
    forall|i: int|
        0 <= i < model.len() ==> spec_number_fits(
            #[trigger] spec_largest_number(model, i),
        )
}

/// Whether the trie can be laid out as a dictionary file: the number at the
/// front of every node may stand there, and the length of the trie fits the
/// four bytes of the header.
pub open spec fn spec_fits_file(model: Seq<NodeModel>) -> bool {
    spec_fits(model) && spec_file_trie(model).len() <= u32::MAX
}

/// Why a trie cannot be laid out.
#[derive(Debug, Clone, Copy, PartialEq, Eq, Structural)]
pub enum Error {
    /// The trie takes more bytes than the number at the front of a node, or
    /// the length header of a file, can say.
    TooLarge,
}

/// A number with at most `width` binary digits is below two to the power
/// `width`.
pub proof fn lemma_bit_length_bound(m: nat, width: nat)
    requires
        spec_bit_length(m) <= width,
    ensures
        m < pow2(width),
    decreases m,
{
    lemma_pow2_bound(0, width);
    if m > 0 {
        lemma_bit_length_bound(m / 2, (width - 1) as nat);
    }
}

/// A smaller number has no more binary digits.
pub proof fn lemma_bit_length_monotone(a: nat, b: nat)
    requires
        a <= b,
    ensures
        spec_bit_length(a) <= spec_bit_length(b),
    decreases b,
{
    if a > 0 {
        lemma_bit_length_monotone(a / 2, b / 2);
    }
}

/// Appends the four bytes that spell `len`, the lowest byte first.
fn write_length_header(len: usize, output: &mut Vec<u8>)
    requires
        len <= 0xffff_ffff,
    ensures
        final(output)@ == old(output)@ + spec_length_header(len as nat),
{
    let ghost before = output@;
    output.push((len % 256) as u8);
    output.push((len / 0x100 % 256) as u8);
    output.push((len / 0x1_0000 % 256) as u8);
    output.push((len / 0x100_0000 % 256) as u8);
    assert(output@ =~= before + spec_length_header(len as nat));
}

/// The UTF-8 bytes of a character.
fn char_bytes(ch: char) -> (bytes: Vec<u8>)
    ensures
        bytes@ == encode_utf8(seq![ch]),
{
    let mut s = String::new();
    s.push(ch);
    assert(s@ =~= seq![ch]);
    s.as_str().as_bytes_vec()
}

/// Appends `index` to a path as `width` bits.
fn write_index(writer: &mut BitWriter, index: usize, width: u8)
    requires
        old(writer).wf(),
        width <= 64,
        spec_bit_length(index as nat) <= width,
    ensures
        final(writer).wf(),
        final(writer).stream() == old(writer).stream() + spec_index_bits(
            index as nat,
            width as nat,
        ),
{
    if width <= 32 {
        proof {
            lemma_bit_length_bound(index as nat, 32);
            lemma_bit_length_monotone(index as nat, index as nat);
            lemma_pow2_32();
            if spec_bit_length(index as nat) <= width {
                lemma_bit_length_bound(index as nat, width as nat);
                lemma_pow2_bound(width as nat, 32);
            }
        }
        writer.add_bits(index as u32, width);
    } else {
        let wide = index as u64;
        let low = (wide % 0x1_0000_0000) as u32;
        let high = (wide / 0x1_0000_0000) as u32;
        let ghost before = writer.stream();
        writer.add_bits(low, 32);
        writer.add_bits(high, width - 32);
        assert(writer.stream() =~= before + spec_index_bits(index as nat, width as nat));
    }
}

/// The bytes of the children from a later child on are no more than those
/// from an earlier child on.
pub proof fn lemma_children_bytes_monotone(
    model: Seq<NodeModel>,
    node: int,
    a: int,
    b: int,
)
    requires
        wf_model(model),
        0 <= node < model.len(),
        0 <= a <= b,
    ensures
        spec_children_bytes(model, node, b).len() <= spec_children_bytes(
            model,
            node,
            a,
        ).len(),
    decreases b - a,
{
    if a < b {
        lemma_children_bytes_monotone(model, node, a + 1, b);
        if a < model[node].children.len() {
            assert(node < model[node].children[a] < model.len());
        }
    }
}

/// One translation of a word, as the builder holds it.
struct Translation {
    payload_byte: u8,
    article_num: u16,
    priority: u32,
    value: Vec<char>,
}

impl Translation {
    /// The translation as the trie holds it.
    spec fn view(&self) -> TranslationModel {
        TranslationModel {
            payload_byte: self.payload_byte,
            article_num: self.article_num,
            priority: self.priority,
            value: self.value@,
        }
    }
}

/// What belongs to a terminator: the translations, and their bytes once they
/// are worked out.
struct Terminator {
    translations: Vec<Translation>,
    payload: Vec<u8>,
}

impl Terminator {
    /// A terminator without translations.
    fn new() -> (terminator: Terminator)
        ensures
            terminator.translations@.len() == 0,
            terminator.payload@.len() == 0,
    {
        Terminator { translations: Vec::new(), payload: Vec::new() }
    }
}

/// What a node stands for: a character, or the end of a word.
enum NodeData {
    Char(char),
    Terminator(Terminator),
}

impl NodeData {
    /// The character of the node.
    spec fn spec_ch(&self) -> char {
        match self {
            NodeData::Char(ch) => *ch,
            NodeData::Terminator(_) => '\0',
        }
    }

    /// The character of the node: `'\0'` for a terminator.
    fn ch(&self) -> (ch: char)
        ensures
            ch == self.spec_ch(),
    {
        match self {
            NodeData::Char(ch) => *ch,
            NodeData::Terminator(_) => '\0',
        }
    }
}

/// One node of the trie, as the builder holds it.
struct Node {
    data: NodeData,
    // The number of bytes that the node takes after its header: set by
    // `calculate_size`.
    size: usize,
    children: Vec<usize>,
}

impl Node {
    /// The node as the trie holds it.
    spec fn view(&self) -> NodeModel {
        NodeModel {
            ch: self.data.spec_ch(),
            is_terminator: self.data is Terminator,
            translations: match self.data {
                NodeData::Char(_) => Seq::empty(),
                NodeData::Terminator(terminator) => terminator.translations@.map_values(
                    |t: Translation| t@,
                ),
            },
            children: self.children@,
        }
    }

    /// A node without children.
    fn new(data: NodeData) -> (node: Node)
        requires
            data matches NodeData::Terminator(terminator) ==> terminator.translations@.len() == 0,
        ensures
            node@ == spec_new_node(data.spec_ch(), data is Terminator),
            node.data == data,
    {
        let node = Node { data, size: 0, children: Vec::new() };
        assert(node@.translations =~= Seq::empty());
        node
    }
}

/// Gathers pairs of words and lays them out as a trie in which each word
/// leads to the other.
pub struct TrieBuilder {
    nodes: Vec<Node>,
}

impl TrieBuilder {
    /// The trie gathered so far.
    pub closed spec fn model(&self) -> Seq<NodeModel> {
        self.nodes@.map_values(|node: Node| node@)
    }

    /// The trie is a well-formed tree, every way down leads to a terminator,
    /// every translation in it is itself a word of it, and every tag leaves
    /// the top bit of its byte free.
    pub open spec fn wf(&self) -> bool {
        &&& wf_model(self.model())
        &&& spec_tree(self.model())
        &&& spec_no_dead_ends(self.model())
        &&& spec_paths_present(self.model())
        &&& spec_payload_bytes_ok(self.model())
    }

    /// A builder with nothing in it.
    pub fn new() -> (builder: TrieBuilder)
        ensures
            builder.wf(),
            builder.model() == spec_empty_trie(),
    {
        let mut nodes: Vec<Node> = Vec::new();
        nodes.push(Node::new(NodeData::Char('*')));
        let builder = TrieBuilder { nodes };
        assert(builder.model() =~= spec_empty_trie());
        assert(spec_translations_present(builder.model(), builder.model()[0].translations, 0));
        assert(spec_labelled(builder.model(), seq![Seq::<char>::empty()]));
        builder
    }

    /// Takes the child of `parent` with the character of `data`, or makes it.
    fn child_for(&mut self, parent: usize, data: NodeData) -> (child: usize)
        requires
            wf_model(old(self).model()),
            parent < old(self).model().len(),
            !old(self).model()[parent as int].is_terminator,
            data matches NodeData::Terminator(terminator) ==> terminator.translations@.len() == 0,
            data matches NodeData::Char(ch) ==> ch != '\0',
        ensures
            wf_model(final(self).model()),
            (final(self).model(), child as int) == spec_child_for(
                old(self).model(),
                parent as int,
                data.spec_ch(),
                data is Terminator,
            ),
            child < final(self).model().len(),
            final(self).model()[child as int].is_terminator == (data is Terminator),
            old(self).model().len() <= final(self).model().len(),
    {
        let ghost model0 = self.model();
        let ghost children0 = model0[parent as int].children;
        let ch = data.ch();
        let n = self.nodes[parent].children.len();
        let k = self.lower_bound(parent, ch);
        if k < n && self.nodes[self.nodes[parent].children[k]].data.ch() == ch {
            let child = self.nodes[parent].children[k];
            assert(child_ch(model0, children0, k as int) == ch);
            assert(model0[child as int].is_terminator == (data is Terminator));
            return child;
        }
        let new_node_pos = self.nodes.len();
        let ghost is_terminator = data is Terminator;
        let new_node = Node::new(data);
        self.nodes.push(new_node);
        self.nodes[parent].children.insert(k, new_node_pos);
        proof {
            let expected = spec_with_child(
                model0.push(spec_new_node(ch, is_terminator)),
                parent as int,
                k as int,
                new_node_pos,
            );
            assert(self.model() =~= expected);
            assert forall|i: int, a: int, b: int|
                0 <= i < expected.len() && 0 <= a < b < expected[i].children.len() implies (
            #[trigger] child_ch(expected, expected[i].children, a)) < (#[trigger] child_ch(
                expected,
                expected[i].children,
                b,
            )) by {
                if i == parent {
                    let old_a = if a < k {
                        a
                    } else {
                        a - 1
                    };
                    let old_b = if b < k {
                        b
                    } else {
                        b - 1
                    };
                    if a != k && b != k {
                        assert(child_ch(model0, children0, old_a) < child_ch(
                            model0,
                            children0,
                            old_b,
                        ));
                    } else if a == k {
                        assert(child_ch(model0, children0, k as int) <= child_ch(
                            model0,
                            children0,
                            old_b,
                        ) || old_b == k);
                    } else {
                        assert(child_ch(model0, children0, old_a) < ch);
                    }
                } else if i < model0.len() {
                    assert(child_ch(model0, model0[i].children, a) < child_ch(
                        model0,
                        model0[i].children,
                        b,
                    ));
                }
            }
            assert forall|i: int, j: int|
                0 <= i < expected.len() && 0 <= j < expected[i].children.len() implies i < (
            #[trigger] expected[i].children[j]) < expected.len() by {
                if i == parent {
                    if j < k {
                        assert(model0[i].children[j] == expected[i].children[j]);
                    } else if j > k {
                        assert(model0[i].children[j - 1] == expected[i].children[j]);
                    }
                } else if i < model0.len() {
                    assert(model0[i].children[j] == expected[i].children[j]);
                }
            }
        }
        new_node_pos
    }

    /// Puts `word` in and adds `translation` to the translations at its end.
    fn add_word_one_direction(
        &mut self,
        word: &[char],
        translation: Vec<char>,
        payload_byte: u8,
        article_num: u16,
        priority: u32,
    )
        requires
            wf_model(old(self).model()),
            forall|i: int| 0 <= i < word@.len() ==> word@[i] != '\0',
        ensures
            wf_model(final(self).model()),
            final(self).model() == spec_insert(
                old(self).model(),
                0,
                word@,
                TranslationModel { payload_byte, article_num, priority, value: translation@ },
            ),
    {
        let ghost model0 = self.model();
        let ghost added = TranslationModel {
            payload_byte,
            article_num,
            priority,
            value: translation@,
        };
        let mut node: usize = 0;
        let mut i: usize = 0;
        assert(word@.skip(0) =~= word@);
        while i < word.len()
            invariant
                wf_model(self.model()),
                i <= word.len(),
                node < self.model().len(),
                !self.model()[node as int].is_terminator,
                forall|j: int| 0 <= j < word@.len() ==> word@[j] != '\0',
                spec_insert(model0, 0, word@, added) == spec_insert(
                    self.model(),
                    node as int,
                    word@.skip(i as int),
                    added,
                ),
            decreases word.len() - i,
        {
            assert(word@.skip(i as int).drop_first() =~= word@.skip(i + 1));
            node = self.child_for(node, NodeData::Char(word[i]));
            i = i + 1;
        }
        let end = self.child_for(node, NodeData::Terminator(Terminator::new()));
        let ghost with_end = self.model();
        match &mut self.nodes[end].data {
            NodeData::Terminator(terminator) => {
                let ghost before = terminator.translations@.map_values(|t: Translation| t@);
                let n = terminator.translations.len();
                let mut k: usize = 0;
                while k < n && terminator.translations[k].priority <= priority
                    invariant
                        k <= n,
                        n == terminator.translations@.len(),
                        before == terminator.translations@.map_values(|t: Translation| t@),
                        forall|j: int| 0 <= j < k ==> (#[trigger] before[j]).priority <= priority,
                    decreases n - k,
                {
                    assert(before[k as int] == terminator.translations@[k as int]@);
                    k = k + 1;
                }
                proof {
                    if k < n {
                        assert(before[k as int] == terminator.translations@[k as int]@);
                    }
                    lemma_priority_position(before, priority, k as int);
                }
                let added_translation = Translation {
                    payload_byte,
                    article_num,
                    priority,
                    value: translation,
                };
                terminator.translations.insert(k, added_translation);
                assert(terminator.translations@.map_values(|t: Translation| t@) =~= before.insert(
                    k as int,
                    added,
                ));
            },
            NodeData::Char(_) => {},
        }
        proof {
            let expected = spec_with_translation(with_end, end as int, added);
            assert(self.model()[end as int].translations =~= expected[end as int].translations);
            assert(self.model() =~= expected);
            assert forall|i: int, a: int, b: int|
                0 <= i < expected.len() && 0 <= a < b < expected[i].children.len() implies (
            #[trigger] child_ch(expected, expected[i].children, a)) < (#[trigger] child_ch(
                expected,
                expected[i].children,
                b,
            )) by {
                assert(child_ch(with_end, with_end[i].children, a) < child_ch(
                    with_end,
                    with_end[i].children,
                    b,
                ));
            }
            assert forall|i: int, j: int|
                0 <= i < expected.len() && 0 <= j < expected[i].children.len() implies i < (
            #[trigger] expected[i].children[j]) < expected.len() by {
                assert(with_end[i].children[j] == expected[i].children[j]);
            }
            lemma_priority_position_bound(with_end[end as int].translations, priority);
        }
    }

    /// Whether the bytes of the translations of every terminator are
    /// worked out.
    spec fn payloads_done(&self) -> bool {
        forall|i: int|
            0 <= i < self.nodes@.len() ==> ((#[trigger] self.nodes@[i]).data matches NodeData::Terminator(
                terminator,
            ) ==> terminator.payload@ == spec_payload_from(
                self.model(),
                self.model()[i].translations,
                0,
            ))
    }

    /// Whether the size of every node from `from` on is worked out.
    spec fn sizes_done(&self, from: int) -> bool {
        forall|i: int|
            from <= i < self.nodes@.len() ==> (#[trigger] self.nodes@[i]).size == spec_body(
                self.model(),
                i,
            ).len() && spec_number_fits(spec_largest_number(self.model(), i))
    }

    /// The number of children of `parent`.
    fn n_children(&self, parent: usize) -> (count: usize)
        requires
            parent < self.model().len(),
        ensures
            count == self.model()[parent as int].children.len(),
    {
        self.nodes[parent].children.len()
    }

    /// The place among the children of `parent` where a child with `ch`
    /// stands, or would.
    fn lower_bound(&self, parent: usize, ch: char) -> (k: usize)
        requires
            wf_model(self.model()),
            parent < self.model().len(),
        ensures
            k == spec_lower_bound(self.model(), self.model()[parent as int].children, ch),
            k <= self.model()[parent as int].children.len(),
            forall|j: int|
                0 <= j < k ==> (#[trigger] child_ch(
                    self.model(),
                    self.model()[parent as int].children,
                    j,
                )) < ch,
            k < self.model()[parent as int].children.len() ==> child_ch(
                self.model(),
                self.model()[parent as int].children,
                k as int,
            ) >= ch,
    {
        let ghost model = self.model();
        let ghost children = model[parent as int].children;
        let n = self.nodes[parent].children.len();
        let mut k: usize = 0;
        while k < n && self.nodes[self.nodes[parent].children[k]].data.ch() < ch
            invariant
                self.model() == model,
                wf_model(self.model()),
                parent < model.len(),
                children == model[parent as int].children,
                n == children.len(),
                k <= n,
                forall|j: int| 0 <= j < k ==> (#[trigger] child_ch(model, children, j)) < ch,
            decreases n - k,
        {
            assert(child_ch(model, children, k as int) < ch);
            k = k + 1;
        }
        proof {
            if k < n {
                assert(child_ch(model, children, k as int) >= ch);
            }
            lemma_lower_bound(model, children, ch, k as int);
        }
        k
    }

    /// Appends the path to `word` to the bits of `writer`.
    fn write_path(&self, word: &[char], writer: &mut BitWriter)
        requires
            wf_model(self.model()),
            spec_path_bits(self.model(), 0, word@) is Some,
            old(writer).wf(),
        ensures
            final(writer).wf(),
            final(writer).stream() == old(writer).stream() + spec_path_bits(
                self.model(),
                0,
                word@,
            )->0,
    {
        let ghost model = self.model();
        let ghost goal = spec_path_bits(model, 0, word@)->0;
        let ghost stream0 = writer.stream();
        let ghost mut written: Seq<bool> = Seq::empty();
        let mut node: usize = 0;
        let mut i: usize = 0;
        assert(word@.skip(0) =~= word@);
        assert(stream0 + written =~= stream0);
        assert(written + goal =~= goal);
        loop
            invariant
                wf_model(self.model()),
                model == self.model(),
                goal == spec_path_bits(model, 0, word@)->0,
                i <= word.len(),
                node < model.len(),
                writer.wf(),
                stream0 == old(writer).stream(),
                writer.stream() == stream0 + written,
                spec_path_bits(model, node as int, word@.skip(i as int)) is Some,
                goal == written + spec_path_bits(model, node as int, word@.skip(i as int))->0,
            decreases word.len() - i,
        {
            let at_end = i >= word.len();
            let ch = if at_end {
                '\0'
            } else {
                word[i]
            };
            let n = self.n_children(node);
            let k = self.lower_bound(node, ch);
            let width = bit_length(n - 1);
            proof {
                lemma_bit_length_monotone(k as nat, (n - 1) as nat);
                if !at_end {
                    assert(word@.skip(i as int).drop_first() =~= word@.skip(i + 1));
                }
                let bits = spec_index_bits(k as nat, width as nat);
                if !at_end {
                    let tail = spec_path_bits(
                        model,
                        model[node as int].children[k as int] as int,
                        word@.skip(i + 1),
                    );
                    assert(written + (bits + tail->0) =~= (written + bits) + tail->0);
                }
                assert(stream0 + written + bits =~= stream0 + (written + bits));
                written = written + bits;
            }
            write_index(writer, k, width);
            if at_end {
                return ;
            }
            assert(node < model[node as int].children[k as int] < model.len());
            node = self.nodes[node].children[k];
            i = i + 1;
        }
    }

    /// Works out the bytes of the translations of a terminator.
    fn calculate_payload(&self, node: usize) -> (payload: Vec<u8>)
        requires
            wf_model(self.model()),
            node < self.model().len(),
            spec_translations_present(self.model(), self.model()[node as int].translations, 0),
        ensures
            payload@ == spec_payload_from(
                self.model(),
                self.model()[node as int].translations,
                0,
            ),
    {
        let ghost model = self.model();
        let ghost translations = model[node as int].translations;
        let mut payload: Vec<u8> = Vec::new();
        match &self.nodes[node].data {
            NodeData::Char(_) => {},
            NodeData::Terminator(terminator) => {
                let n = terminator.translations.len();
                let mut i: usize = 0;
                assert(payload@ + spec_payload_from(model, translations, 0)
                    =~= spec_payload_from(model, translations, 0));
                while i < n
                    invariant
                        wf_model(self.model()),
                        model == self.model(),
                        node < model.len(),
                        translations == model[node as int].translations,
                        translations == terminator.translations@.map_values(|t: Translation| t@),
                        n == translations.len(),
                        i <= n,
                        spec_translations_present(model, translations, i as int),
                        payload@ + spec_payload_from(model, translations, i as int)
                            == spec_payload_from(model, translations, 0),
                    decreases n - i,
                {
                    let translation = &terminator.translations[i];
                    assert(translation@ == translations[i as int]);
                    let mut payload_byte = translation.payload_byte;
                    if i + 1 < n {
                        payload_byte = payload_byte | 0x80;
                    }
                    let mut writer = BitWriter::new(Vec::new());
                    assert(bits_of_bytes(Seq::<u8>::empty()) =~= Seq::<bool>::empty());
                    self.write_path(translation.value.as_slice(), &mut writer);
                    let mut path = writer.done();
                    let ghost before = payload@;
                    payload.push(payload_byte);
                    payload.push((translation.article_num % 256) as u8);
                    payload.push((translation.article_num / 256) as u8);
                    proof {
                        let bits = spec_path_bits(model, 0, translations[i as int].value)->0;
                        assert(Seq::<bool>::empty() + bits =~= bits);
                        assert(payload@ =~= before.push(payload_byte) + spec_article_bytes(
                            translation.article_num,
                        ));
                        assert(payload@ + path@ + spec_payload_from(
                            model,
                            translations,
                            i + 1,
                        ) =~= before + spec_payload_from(model, translations, i as int));
                    }
                    payload.append(&mut path);
                    i = i + 1;
                }
            },
        }
        assert(payload@ + Seq::<u8>::empty() =~= payload@);
        payload
    }

    /// Works out the bytes of the translations of every terminator.
    fn calculate_payloads(&mut self)
        requires
            wf_model(old(self).model()),
            spec_paths_present(old(self).model()),
        ensures
            final(self).model() == old(self).model(),
            final(self).payloads_done(),
    {
        let ghost model = self.model();
        let n = self.nodes.len();
        let mut i: usize = 0;
        while i < n
            invariant
                self.model() == model,
                model == old(self).model(),
                wf_model(self.model()),
                spec_paths_present(model),
                n == self.nodes@.len(),
                i <= n,
                forall|j: int|
                    0 <= j < i ==> ((#[trigger] self.nodes@[j]).data matches NodeData::Terminator(
                        terminator,
                    ) ==> terminator.payload@ == spec_payload_from(
                        model,
                        model[j].translations,
                        0,
                    )),
            decreases n - i,
        {
            assert(spec_translations_present(model, model[i as int].translations, 0));
            let payload = self.calculate_payload(i);
            let ghost before = self.nodes@;
            match &mut self.nodes[i].data {
                NodeData::Terminator(terminator) => {
                    terminator.payload = payload;
                },
                NodeData::Char(_) => {},
            }
            proof {
                assert(self.nodes@[i as int]@ == before[i as int]@);
                assert(self.model() =~= model);
            }
            i = i + 1;
        }
    }

    /// The number at the front of a node.
    fn node_data_number(&self, index: usize, is_last: bool) -> (number: usize)
        requires
            index < self.nodes@.len(),
            spec_node_data_number(self.nodes@[index as int].size as nat, false, true)
                <= usize::MAX,
        ensures
            number == spec_node_data_number(
                self.nodes@[index as int].size as nat,
                is_last,
                self.model()[index as int].children.len() > 0,
            ),
    {
        let node = &self.nodes[index];
        let sibling_offset = if is_last {
            0
        } else {
            node.size
        };
        let mut data_number = 2 * sibling_offset;
        if node.children.len() > 0 {
            data_number = data_number + 1;
        }
        data_number
    }

    /// The number of bytes that the children of `node` take, or nothing
    /// where a machine word cannot hold it.
    fn children_size(&self, node: usize) -> (size: Option<usize>)
        requires
            wf_model(self.model()),
            node < self.nodes@.len(),
            self.sizes_done(node + 1),
        ensures
            match size {
                Some(size) => size == spec_children_bytes(self.model(), node as int, 0).len(),
                None => spec_children_bytes(self.model(), node as int, 0).len()
                    > usize::MAX,
            },
    {
        let ghost model = self.model();
        let n = self.nodes[node].children.len();
        let mut k: usize = n;
        let mut size: usize = 0;
        while k > 0
            invariant
                wf_model(self.model()),
                model == self.model(),
                node < self.nodes@.len(),
                self.sizes_done(node + 1),
                n == model[node as int].children.len(),
                k <= n,
                size == spec_children_bytes(model, node as int, k as int).len(),
            decreases k,
        {
            k = k - 1;
            let child = self.nodes[node].children[k];
            assert(node < model[node as int].children[k as int] < model.len());
            assert(spec_largest_number(model, child as int) <= usize::MAX);
            let number = self.node_data_number(child, k + 1 == n);
            let header = n_bytes_for_size(number);
            proof {
                lemma_encode_offset_len(number as nat);
                lemma_children_bytes_monotone(model, node as int, 0, k as int);
                assert(self.nodes@[child as int].size == spec_body(model, child as int).len());
                assert(spec_subtree(model, child as int, k + 1 == n).len() == header
                    + self.nodes@[child as int].size);
                assert(spec_children_bytes(model, node as int, k as int) == spec_subtree(
                    model,
                    child as int,
                    k + 1 == n,
                ) + spec_children_bytes(model, node as int, k + 1));
            }
            size = match size.checked_add(header) {
                Some(size) => size,
                None => {
                    return None;
                },
            };
            size = match size.checked_add(self.nodes[child].size) {
                Some(size) => size,
                None => {
                    return None;
                },
            };
        }
        Some(size)
    }

    /// Works out the size of every node, the children before their parent.
    /// Returns whether the trie can be laid out.
    fn calculate_size(&mut self) -> (fits: bool)
        requires
            wf_model(old(self).model()),
            old(self).payloads_done(),
        ensures
            final(self).model() == old(self).model(),
            final(self).payloads_done(),
            fits == spec_fits(old(self).model()),
            fits ==> final(self).sizes_done(0),
    {
        let ghost model = self.model();
        let mut i: usize = self.nodes.len();
        while i > 0
            invariant
                wf_model(self.model()),
                self.payloads_done(),
                model == self.model(),
                model == old(self).model(),
                i <= self.nodes@.len(),
                self.sizes_done(i as int),
            decreases i,
        {
            i = i - 1;
            let ch_len = char_bytes(self.nodes[i].data.ch()).len();
            let data_size = match &self.nodes[i].data {
                NodeData::Terminator(terminator) => Some(terminator.payload.len()),
                NodeData::Char(_) => self.children_size(i),
            };
            let size = match data_size {
                Some(data_size) => data_size.checked_add(ch_len),
                None => None,
            };
            let size = match size {
                Some(size) => size,
                None => {
                    assert(!spec_number_fits(spec_largest_number(model, i as int)));
                    return false;
                },
            };
            let fits = size <= (usize::MAX - 1) / 2 && n_bytes_for_size(2 * size + 1) * 7
                <= usize::BITS as usize;
            if !fits {
                assert(!spec_number_fits(spec_largest_number(model, i as int)));
                return false;
            }
            let ghost before = self.nodes@;
            self.nodes[i].size = size;
            proof {
                assert(self.nodes@[i as int]@ == before[i as int]@);
                assert(self.model() =~= model);
                assert forall|j: int| 0 <= j < self.nodes@.len() && j != i implies self.nodes@[j]
                    == before[j] by {}
                assert(spec_number_fits(spec_largest_number(model, i as int)));
            }
        }
        assert forall|j: int| 0 <= j < model.len() implies spec_number_fits(
            #[trigger] spec_largest_number(model, j),
        ) by {
            assert(self.nodes@[j].size == spec_body(model, j).len());
        }
        true
    }

    /// Appends the bytes of the children of a node.
    fn write_children(&self, index: usize, output: &mut Vec<u8>)
        requires
            wf_model(self.model()),
            self.payloads_done(),
            self.sizes_done(0),
            index < self.nodes@.len(),
        ensures
            final(output)@ == old(output)@ + spec_children_bytes(
                self.model(),
                index as int,
                0,
            ),
        decreases self.nodes@.len() - index, 0nat,
    {
        let ghost model = self.model();
        let ghost head = output@;
        let n = self.nodes[index].children.len();
        let mut k: usize = 0;
        let ghost mut written: Seq<u8> = Seq::empty();
        assert(head + written =~= head);
        assert(written + spec_children_bytes(model, index as int, 0)
            =~= spec_children_bytes(model, index as int, 0));
        while k < n
            invariant
                wf_model(self.model()),
                self.payloads_done(),
                self.sizes_done(0),
                model == self.model(),
                index < self.nodes@.len(),
                n == model[index as int].children.len(),
                k <= n,
                head == old(output)@,
                output@ == head + written,
                written + spec_children_bytes(model, index as int, k as int)
                    == spec_children_bytes(model, index as int, 0),
            decreases n - k,
        {
            let child = self.nodes[index].children[k];
            assert(index < model[index as int].children[k as int] < model.len());
            let ghost bytes = spec_subtree(model, child as int, k + 1 == n);
            proof {
                assert((written + bytes) + spec_children_bytes(model, index as int, k + 1)
                    =~= written + spec_children_bytes(model, index as int, k as int));
                assert(head + written + bytes =~= head + (written + bytes));
                written = written + bytes;
            }
            self.write_node(child, k + 1 == n, output);
            k = k + 1;
        }
        assert(written + Seq::<u8>::empty() =~= written);
    }

    /// Appends the bytes of a node and of all that lies below it.
    fn write_node(&self, index: usize, is_last: bool, output: &mut Vec<u8>)
        requires
            wf_model(self.model()),
            self.payloads_done(),
            self.sizes_done(0),
            index < self.nodes@.len(),
        ensures
            final(output)@ == old(output)@ + spec_subtree(
                self.model(),
                index as int,
                is_last,
            ),
        decreases self.nodes@.len() - index, 1nat,
    {
        let ghost model = self.model();
        let ghost before = output@;
        let ghost body = spec_body(model, index as int);
        let ghost ch_bytes = encode_utf8(seq![model[index as int].ch]);
        assert(spec_largest_number(model, index as int) <= usize::MAX);
        assert(self.nodes@[index as int].size == body.len());
        let data_number = self.node_data_number(index, is_last);
        let ghost header = spec_encode_offset(data_number as nat);
        assert(spec_subtree(model, index as int, is_last) == header + body);
        write_offset(data_number, output);
        let mut ch_utf8 = char_bytes(self.nodes[index].data.ch());
        output.append(&mut ch_utf8);
        assert(output@ == before + header + ch_bytes);
        match &self.nodes[index].data {
            NodeData::Terminator(terminator) => {
                let ghost payload = spec_payload_from(
                    model,
                    model[index as int].translations,
                    0,
                );
                assert(terminator.payload@ == payload);
                assert(body == ch_bytes + payload);
                output.extend_from_slice(terminator.payload.as_slice());
                assert(output@ =~= before + header + ch_bytes + payload);
                assert(before + header + ch_bytes + payload =~= before + (header + (ch_bytes
                    + payload)));
            },
            NodeData::Char(_) => {
                let ghost children = spec_children_bytes(model, index as int, 0);
                assert(body == ch_bytes + children);
                self.write_children(index, output);
                assert(before + header + ch_bytes + children =~= before + (header + (ch_bytes
                    + children)));
            },
        }
    }

    /// Appends the bytes of the trie: the children of the root and all that
    /// lies below them.
    fn write_nodes(&self, output: &mut Vec<u8>)
        requires
            wf_model(self.model()),
            self.payloads_done(),
            self.sizes_done(0),
        ensures
            final(output)@ == old(output)@ + spec_file_trie(self.model()),
    {
        self.write_children(0, output)
    }

    /// Lays the trie out as a dictionary file and appends its bytes to
    /// `output`.  Nothing is written where the trie is too large to be laid
    /// out.
    pub fn into_dictionary(self, output: &mut Vec<u8>) -> (r: Result<(), Error>)
        requires
            self.wf(),
        ensures
            match r {
                Ok(()) => {
                    &&& spec_fits_file(self.model())
                    &&& final(output)@ == old(output)@ + spec_dictionary_bytes(self.model())
                },
                Err(Error::TooLarge) => {
                    &&& !spec_fits_file(self.model())
                    &&& final(output)@ == old(output)@
                },
            },
    {
        let mut builder = self;
        let ghost model = self.model();
        let ghost before = output@;
        builder.calculate_payloads();
        if !builder.calculate_size() {
            return Err(Error::TooLarge);
        }
        let len = match builder.children_size(0) {
            Some(len) => len,
            None => {
                return Err(Error::TooLarge);
            },
        };
        if len > 0xffff_ffff {
            return Err(Error::TooLarge);
        }
        assert(len == spec_file_trie(model).len());
        write_length_header(len, output);
        let ghost head = output@;
        builder.write_nodes(output);
        assert(output@ == head + spec_file_trie(model));
        assert(head + spec_file_trie(model) =~= before + spec_dictionary_bytes(model));
        Ok(())
    }

    /// Adds a pair of words: each will lead to the other, with the tag
    /// `payload_byte` and the number of the article that tells more of them,
    /// as the last of its translations.
    pub fn add_word(&mut self, word: &str, translation: &str, payload_byte: u8, article_num: u16)
        requires
            old(self).wf(),
            payload_byte < 0x80,
            forall|i: int| 0 <= i < word@.len() ==> word@[i] != '\0',
            forall|i: int| 0 <= i < translation@.len() ==> translation@[i] != '\0',
        ensures
            final(self).wf(),
            final(self).model() == spec_add_word(
                old(self).model(),
                word@,
                translation@,
                payload_byte,
                article_num,
            ),
            spec_pair_comes_last(
                old(self).model(),
                final(self).model(),
                word@,
                translation@,
                payload_byte,
                article_num,
            ),
    {
        let ghost before = self.model();
        self.add_entry(word, translation, payload_byte, article_num, u32::MAX);
        let count = self.nodes.len();
        proof {
            assert(self.model().len() == count);
            law_add_word_comes_last(before, word@, translation@, payload_byte, article_num);
        }
    }

    /// Adds a pair of words: each will lead to the other, with the tag
    /// `payload_byte` and the number of the article that tells more of them.
    /// Among the translations of a word, one with a smaller `priority` comes
    /// first; where the priorities are the same, the one added first.
    pub fn add_entry(
        &mut self,
        word: &str,
        translation: &str,
        payload_byte: u8,
        article_num: u16,
        priority: u32,
    )
        requires
            old(self).wf(),
            payload_byte < 0x80,
            forall|i: int| 0 <= i < word@.len() ==> word@[i] != '\0',
            forall|i: int| 0 <= i < translation@.len() ==> translation@[i] != '\0',
        ensures
            final(self).wf(),
            final(self).model() == spec_add_entry(
                old(self).model(),
                word@,
                translation@,
                payload_byte,
                article_num,
                priority,
            ),
    {
        let ghost before = self.model();
        let word_chars = str_to_chars(word);
        let translation_chars = str_to_chars(translation);
        self.add_word_one_direction(
            word_chars.as_slice(),
            str_to_chars(translation),
            payload_byte,
            article_num,
            priority,
        );
        self.add_word_one_direction(
            translation_chars.as_slice(),
            word_chars,
            payload_byte,
            article_num,
            priority,
        );
        let count = self.nodes.len();
        proof {
            assert(self.model().len() == count);
            law_add_entry_keeps_paths(
                before,
                word@,
                translation@,
                payload_byte,
                article_num,
                priority,
            );
            law_add_entry_keeps_tree(
                before,
                word@,
                translation@,
                payload_byte,
                article_num,
                priority,
            );
        }
    }
}

} // verus!
