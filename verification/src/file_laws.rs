//! What holds of every dictionary file that a builder lays out: the reader
//! finds in it what the builder was given.

use crate::bits::{bits_of_bytes, lemma_bits_of_bytes_concat, lemma_bits_of_pack, pack};
use crate::dictionary::{
    lemma_offset_bounds, lemma_path_step_advances, lemma_variant_end_bounds,
    lemma_walker_next_decreases, root_pos, spec_count_siblings, spec_find_prefix,
    spec_find_prefix_from, spec_find_sibling_for_character, spec_find_word, spec_index_width,
    spec_offset_from, spec_path_step, spec_read_character, spec_read_node, spec_read_header_number,
    spec_read_sibling_offset,
    spec_skip_nodes, spec_utf8_len, spec_variant_article, spec_variant_end, spec_variant_is_last,
    spec_variant_path, spec_variant_payload, spec_variant_translation, spec_walk_path,
    spec_walker_next, stack_weight, stack_with_sibling, truncated, Error, PathOutcome, WalkEntry,
};
use crate::trie_builder::{
    child_ch, lemma_bit_length_monotone, lemma_encode_offset_len, spec_add_entry,
    spec_article_bytes, spec_body, spec_child_index, spec_child_index_width, spec_children_bytes,
    spec_dictionary_bytes, spec_encode_offset, spec_file_trie, spec_fits, spec_framing_byte,
    spec_index_bits, spec_largest_number, spec_lower_bound, spec_n_bytes_for_size,
    spec_no_dead_ends, spec_node_data_number, spec_path_bits, spec_paths_present,
    spec_payload_bytes_ok, spec_payload_from, spec_subtree, spec_translations_present, wf_model,
    NodeModel, TranslationModel,
};
use crate::trie_laws::{
    law_add_entry_keeps_paths, law_add_entry_round_trip, lemma_children_count,
    lemma_lower_bound_is, lemma_usize_bit_length, lemma_value_of_index_bits,
    lemma_words_from_nonempty, spec_terminator, spec_words, spec_words_from,
};
use vstd::prelude::*;
use vstd::std_specs::bits::{axiom_u8_leading_ones, u8_leading_ones};
use vstd::utf8::{
    char_is_scalar, encode_scalar, encode_utf8, encode_utf8_decode_utf8, encode_utf8_valid_utf8,
};

verus! {

/// Whether the buffer holds the given bytes at `pos`.
pub open spec fn spec_holds(buf: Seq<u8>, pos: int, bytes: Seq<u8>) -> bool {
    0 <= pos && pos + bytes.len() <= buf.len() && buf.subrange(pos, pos + bytes.len()) == bytes
}

/// A buffer that holds bytes holds each of them.
pub proof fn lemma_holds_index(buf: Seq<u8>, pos: int, bytes: Seq<u8>, i: int)
    requires
        spec_holds(buf, pos, bytes),
        0 <= i < bytes.len(),
    ensures
        buf[pos + i] == bytes[i],
{
    assert(buf.subrange(pos, pos + bytes.len())[i] == buf[pos + i]);
}

/// A buffer that holds bytes holds their first part, and their second part
/// after it.
pub proof fn lemma_holds_split(buf: Seq<u8>, pos: int, first: Seq<u8>, second: Seq<u8>)
    requires
        spec_holds(buf, pos, first + second),
    ensures
        spec_holds(buf, pos, first),
        spec_holds(buf, pos + first.len(), second),
{
    let all = first + second;
    assert forall|i: int| 0 <= i < first.len() implies buf.subrange(pos, pos + first.len())[i]
        == first[i] by {
        lemma_holds_index(buf, pos, all, i);
    }
    assert(buf.subrange(pos, pos + first.len()) =~= first);
    assert forall|i: int| 0 <= i < second.len() implies buf.subrange(
        pos + first.len(),
        pos + first.len() + second.len(),
    )[i] == second[i] by {
        lemma_holds_index(buf, pos, all, first.len() + i);
    }
    assert(buf.subrange(pos + first.len(), pos + first.len() + second.len()) =~= second);
}

/// Reading a number from its byte `i` on, where the buffer holds the rest of
/// its encoding there, gives the number.
proof fn lemma_offset_from_holds(buf: Seq<u8>, pos: int, i: nat, offset: nat)
    requires
        spec_holds(buf, pos + i, spec_encode_offset(offset)),
        0 <= pos,
        (i + spec_n_bytes_for_size(offset)) * 7 <= usize::BITS,
    ensures
        spec_offset_from(buf, pos, i) == Ok::<(nat, nat), Error>(
            (offset, i + spec_n_bytes_for_size(offset)),
        ),
    decreases offset,
{
    let encoded = spec_encode_offset(offset);
    lemma_encode_offset_len(offset);
    lemma_holds_index(buf, pos + i, encoded, 0);
    if offset >= 0x80 {
        let first = seq![(offset % 0x80 + 0x80) as u8];
        lemma_holds_split(buf, pos + i, first, spec_encode_offset(offset / 0x80));
        lemma_offset_from_holds(buf, pos, i + 1, offset / 0x80);
    }
}

/// Reading a number where the buffer holds its encoding gives the number,
/// and the length of the encoding.
pub proof fn lemma_read_offset(buf: Seq<u8>, pos: int, offset: nat)
    requires
        spec_holds(buf, pos, spec_encode_offset(offset)),
        spec_n_bytes_for_size(offset) * 7 <= usize::BITS,
    ensures
        offset <= usize::MAX,
        spec_read_header_number(buf, pos) == Ok::<(usize, usize), Error>(
            (offset as usize, spec_n_bytes_for_size(offset) as usize),
        ),
{
    lemma_offset_from_holds(buf, pos, 0, offset);
    lemma_offset_bounds(buf, pos, 0);
    crate::dictionary::lemma_pow128_values();
}

/// Reading the number at the front of a node back.  Where a distance and
/// the mark of a node with children were written as one number, the reader
/// finds the distance, the mark and the length of what was written,
/// whatever follows.
pub proof fn law_sibling_offset_round_trip(offset: nat, has_child: bool, rest: Seq<u8>)
    requires
        spec_n_bytes_for_size(spec_node_data_number(offset, false, has_child)) * 7 <= usize::BITS,
    ensures
        offset <= usize::MAX,
        spec_read_sibling_offset(
            spec_encode_offset(spec_node_data_number(offset, false, has_child)) + rest,
            0,
        ) == Ok::<(usize, bool, usize), Error>(
            (
                offset as usize,
                has_child,
                spec_n_bytes_for_size(spec_node_data_number(offset, false, has_child)) as usize,
            ),
        ),
{
    let number = spec_node_data_number(offset, false, has_child);
    let bytes = spec_encode_offset(number);
    let buf = bytes + rest;
    assert(buf.subrange(0, bytes.len() as int) =~= bytes);
    lemma_read_offset(buf, 0, number);
}

/// The top bits of the first byte of a character.
proof fn lemma_leading_bits(b: u8)
    by (bit_vector)
    ensures
        b <= 0x7f ==> (b >> 7u8) & 1u8 == 0u8,
        0xc0 <= b <= 0xdf ==> (b >> 7u8) & 1u8 == 1u8 && (b >> 6u8) & 1u8 == 1u8 && (b >> 5u8) & 1u8
            == 0u8,
        0xe0 <= b <= 0xef ==> (b >> 7u8) & 1u8 == 1u8 && (b >> 6u8) & 1u8 == 1u8 && (b >> 5u8) & 1u8
            == 1u8 && (b >> 4u8) & 1u8 == 0u8,
        0xf0 <= b <= 0xf7 ==> (b >> 7u8) & 1u8 == 1u8 && (b >> 6u8) & 1u8 == 1u8 && (b >> 5u8) & 1u8
            == 1u8 && (b >> 4u8) & 1u8 == 1u8 && (b >> 3u8) & 1u8 == 0u8,
{
}

/// The first byte of a character tells how many bytes the character takes.
pub proof fn lemma_utf8_len_of_leading_byte(b: u8)
    ensures
        b <= 0x7f ==> spec_utf8_len(b) == 1,
        0xc0 <= b <= 0xdf ==> spec_utf8_len(b) == 2,
        0xe0 <= b <= 0xef ==> spec_utf8_len(b) == 3,
        0xf0 <= b <= 0xf7 ==> spec_utf8_len(b) == 4,
{
    axiom_u8_leading_ones(b);
    lemma_leading_bits(b);
    let ones = u8_leading_ones(b);
    if ones == 0 {
    } else if ones == 1 {
    } else if ones == 2 {
    } else if ones == 3 {
    } else if ones == 4 {
    }
    if b <= 0x7f {
        if ones >= 1 {
            assert((b >> 7u8) & 1u8 == 1u8);
        }
    } else if 0xc0 <= b <= 0xdf {
        if ones >= 3 {
            assert((b >> 5u8) & 1u8 == 1u8);
        }
    } else if 0xe0 <= b <= 0xef {
        if ones >= 4 {
            assert((b >> 4u8) & 1u8 == 1u8);
        }
    } else if 0xf0 <= b <= 0xf7 {
        if ones >= 5 {
            assert((b >> 3u8) & 1u8 == 1u8);
        }
    }
}

/// The range of the first byte of a character of each length.
proof fn lemma_leading_byte_ranges(scalar: u32)
    by (bit_vector)
    ensures
        scalar <= 0x7f ==> (scalar & 0x7F) as u8 <= 0x7f,
        0xc0 <= 0xC0u8 | ((scalar >> 6) & 0x1F) as u8 <= 0xdf,
        0xe0 <= 0xE0u8 | ((scalar >> 12) & 0x0F) as u8 <= 0xef,
        0xf0 <= 0xF0u8 | ((scalar >> 18) & 0x7) as u8 <= 0xf7,
{
}

/// Reading a character where the buffer holds its UTF-8 bytes gives the
/// character, and the number of its bytes.
pub proof fn lemma_read_character(buf: Seq<u8>, pos: int, ch: char)
    requires
        spec_holds(buf, pos, encode_utf8(seq![ch])),
    ensures
        1 <= encode_utf8(seq![ch]).len() <= 4,
        spec_read_character(buf, pos) == Ok::<(char, usize), Error>(
            (ch, encode_utf8(seq![ch]).len() as usize),
        ),
{
    let chars = seq![ch];
    let bytes = encode_utf8(chars);
    let scalar = ch as u32;
    char_is_scalar(ch);
    assert(chars.drop_first() =~= Seq::<char>::empty());
    assert(encode_utf8(chars.drop_first()) =~= Seq::<u8>::empty());
    assert(bytes =~= encode_scalar(scalar));
    lemma_leading_byte_ranges(scalar);
    lemma_holds_index(buf, pos, bytes, 0);
    lemma_utf8_len_of_leading_byte(bytes[0]);
    encode_utf8_valid_utf8(chars);
    encode_utf8_decode_utf8(chars);
}

/// Whether the reader can take the number at the front of every node of
/// the dictionary file: what the builder looks to before it lays a file out.
pub open spec fn spec_readable(model: Seq<NodeModel>) -> bool {
    spec_fits(model)
}

/// A smaller number has no longer an encoding.
pub proof fn lemma_n_bytes_monotone(a: nat, b: nat)
    requires
        a <= b,
    ensures
        spec_n_bytes_for_size(a) <= spec_n_bytes_for_size(b),
    decreases b,
{
    if a >= 0x80 {
        lemma_n_bytes_monotone(a / 0x80, b / 0x80);
    }
}

/// What belongs to a node in a dictionary file, after its character: its
/// translations, or its children.
pub open spec fn spec_file_data(model: Seq<NodeModel>, node: int) -> Seq<u8> {
    if model[node].is_terminator {
        spec_payload_from(model, model[node].translations, 0)
    } else {
        spec_children_bytes(model, node, 0)
    }
}

/// The number at the front of a node of a dictionary file.
pub open spec fn spec_file_number(model: Seq<NodeModel>, node: int, is_last: bool) -> nat {
    spec_node_data_number(
        spec_body(model, node).len(),
        is_last,
        model[node].children.len() > 0,
    )
}

/// The node that the reader finds where the buffer holds a node of a
/// dictionary file, and the place of what belongs to the node.
pub proof fn lemma_read_node(
    model: Seq<NodeModel>,
    node: int,
    is_last: bool,
    buf: Seq<u8>,
    pos: int,
)
    requires
        0 <= node < model.len(),
        spec_readable(model),
        spec_holds(buf, pos, spec_subtree(model, node, is_last)),
    ensures
        spec_read_node(buf, pos) matches Ok(found) && {
            &&& found.ch == model[node].ch
            &&& found.sibling_offset == spec_file_number(model, node, is_last) / 2
            &&& found.sibling_offset == (if is_last {
                0
            } else {
                spec_body(model, node).len()
            })
            &&& found.has_child == (model[node].children.len() > 0)
            &&& found.char_offset == spec_n_bytes_for_size(spec_file_number(model, node, is_last))
            &&& found.data_offset == found.char_offset + encode_utf8(seq![model[node].ch]).len()
            &&& found.char_offset + found.sibling_offset == spec_subtree(
                model,
                node,
                is_last,
            ).len() || is_last
            &&& spec_holds(buf, pos + found.data_offset, spec_file_data(model, node))
            &&& found.data_offset + spec_file_data(model, node).len() == spec_subtree(
                model,
                node,
                is_last,
            ).len()
        },
{
    let number = spec_file_number(model, node, is_last);
    let largest = spec_largest_number(model, node);
    let header = spec_encode_offset(number);
    let ch_bytes = encode_utf8(seq![model[node].ch]);
    let data = spec_file_data(model, node);
    let body = spec_body(model, node);
    lemma_n_bytes_monotone(number, largest);
    lemma_encode_offset_len(number);
    assert(body == ch_bytes + data);
    assert(spec_subtree(model, node, is_last) == header + body);
    lemma_holds_split(buf, pos, header, body);
    lemma_holds_split(buf, pos + header.len(), ch_bytes, data);
    lemma_read_offset(buf, pos, number);
    lemma_read_character(buf, pos + header.len(), model[node].ch);
}

/// The bytes of the children of a node from child `k` on, in a dictionary
/// file.
pub open spec fn spec_siblings(model: Seq<NodeModel>, node: int, k: int) -> Seq<u8> {
    spec_children_bytes(model, node, k)
}

/// The bytes of the children from child `k` on are those of child `k` and
/// those of the children after it.
pub proof fn lemma_siblings_unfold(model: Seq<NodeModel>, node: int, k: int)
    requires
        wf_model(model),
        0 <= node < model.len(),
        0 <= k < model[node].children.len(),
    ensures
        node < model[node].children[k] < model.len(),
        spec_siblings(model, node, k) == spec_subtree(
            model,
            model[node].children[k] as int,
            k + 1 == model[node].children.len(),
        ) + spec_siblings(model, node, k + 1),
{
    assert(node < model[node].children[k] < model.len());
}

/// Where the buffer holds the children of a node from child `k` on, the
/// reader counts as many siblings as there are.
pub proof fn lemma_count_siblings(model: Seq<NodeModel>, node: int, k: int, buf: Seq<u8>, pos: int)
    requires
        wf_model(model),
        spec_readable(model),
        0 <= node < model.len(),
        0 <= k < model[node].children.len(),
        spec_holds(buf, pos, spec_siblings(model, node, k)),
    ensures
        spec_count_siblings(buf, pos) == Ok::<nat, Error>(
            (model[node].children.len() - k) as nat,
        ),
    decreases model[node].children.len() - k,
{
    let n = model[node].children.len();
    let child = model[node].children[k] as int;
    let is_last = k + 1 == n;
    let subtree = spec_subtree(model, child, is_last);
    lemma_siblings_unfold(model, node, k);
    lemma_holds_split(buf, pos, subtree, spec_siblings(model, node, k + 1));
    lemma_read_node(model, child, is_last, buf, pos);
    if !is_last {
        lemma_count_siblings(model, node, k + 1, buf, pos + subtree.len());
    }
}

/// The distance from child `k` of a node to child `k + j`, in a dictionary
/// file.
pub open spec fn spec_sibling_distance(model: Seq<NodeModel>, node: int, k: int, j: int) -> int {
    spec_siblings(model, node, k).len() - spec_siblings(model, node, k + j).len()
}

/// Where the buffer holds the children of a node from child `k` on, the
/// reader skips `j` of them and comes to child `k + j`.
pub proof fn lemma_skip_nodes(
    model: Seq<NodeModel>,
    node: int,
    k: int,
    j: nat,
    buf: Seq<u8>,
    pos: int,
)
    requires
        wf_model(model),
        spec_readable(model),
        0 <= node < model.len(),
        0 <= k,
        k + j < model[node].children.len(),
        spec_holds(buf, pos, spec_siblings(model, node, k)),
    ensures
        spec_sibling_distance(model, node, k, j as int) >= 0,
        spec_skip_nodes(buf, pos, j) == Ok::<nat, Error>(
            spec_sibling_distance(model, node, k, j as int) as nat,
        ),
        spec_holds(
            buf,
            pos + spec_sibling_distance(model, node, k, j as int),
            spec_siblings(model, node, k + j),
        ),
    decreases j,
{
    if j > 0 {
        let n = model[node].children.len();
        let child = model[node].children[k] as int;
        let subtree = spec_subtree(model, child, false);
        lemma_siblings_unfold(model, node, k);
        lemma_holds_split(buf, pos, subtree, spec_siblings(model, node, k + 1));
        lemma_read_node(model, child, false, buf, pos);
        lemma_skip_nodes(model, node, k + 1, (j - 1) as nat, buf, pos + subtree.len());
    }
}

/// Where the buffer holds the children of a node from child `k` on, the
/// reader finds the child `m` by its character, and with it the place of
/// what belongs to that child.
pub proof fn lemma_find_sibling(
    model: Seq<NodeModel>,
    node: int,
    k: int,
    m: int,
    buf: Seq<u8>,
    pos: int,
)
    requires
        wf_model(model),
        spec_readable(model),
        0 <= node < model.len(),
        0 <= k <= m < model[node].children.len(),
        spec_holds(buf, pos, spec_siblings(model, node, k)),
        buf.len() <= usize::MAX,
    ensures
        spec_find_sibling_for_character(
            buf,
            pos,
            child_ch(model, model[node].children, m),
        ) matches Ok(Some(found)) && spec_holds(
            buf,
            found as int,
            spec_file_data(model, model[node].children[m] as int),
        ),
    decreases m - k,
{
    let n = model[node].children.len();
    let child = model[node].children[k] as int;
    let is_last = k + 1 == n;
    let subtree = spec_subtree(model, child, is_last);
    lemma_siblings_unfold(model, node, k);
    lemma_holds_split(buf, pos, subtree, spec_siblings(model, node, k + 1));
    lemma_read_node(model, child, is_last, buf, pos);
    if k < m {
        assert(child_ch(model, model[node].children, k) < child_ch(model, model[node].children, m));
        lemma_find_sibling(model, node, k + 1, m, buf, pos + subtree.len());
    }
}

/// Where the buffer holds the children of a node, the reader walks along a
/// word that the trie holds below the node and comes to the translations
/// at its terminator.
pub proof fn lemma_find_prefix(
    model: Seq<NodeModel>,
    node: int,
    word: Seq<char>,
    buf: Seq<u8>,
    pos: int,
)
    requires
        wf_model(model),
        spec_readable(model),
        0 <= node < model.len(),
        0 <= pos <= buf.len() <= usize::MAX,
        spec_holds(buf, pos, spec_siblings(model, node, 0)),
        forall|i: int| 0 <= i < word.len() ==> word[i] != '\0',
        spec_terminator(model, node, word) is Some,
    ensures
        spec_find_prefix_from(buf, pos as usize, word) matches Ok(Some(list))
            && spec_find_sibling_for_character(buf, list as int, '\0') matches Ok(Some(found))
            && spec_holds(
            buf,
            found as int,
            spec_file_data(model, spec_terminator(model, node, word)->0),
        ),
    decreases word.len(),
{
    let ch = if word.len() == 0 {
        '\0'
    } else {
        word[0]
    };
    let k = spec_child_index(model, node, ch)->0 as int;
    let child = model[node].children[k] as int;
    assert(node < model[node].children[k] < model.len());
    lemma_find_sibling(model, node, 0, k, buf, pos);
    if word.len() > 0 {
        let list = spec_find_sibling_for_character(buf, pos, ch)->Ok_0->0;
        lemma_find_prefix(model, child, word.drop_first(), buf, list as int);
    }
}

/// Where the buffer holds the children of a node and the bits of the path
/// to a word below the node, the reader walks along the path and reads the
/// word.
pub proof fn lemma_walk_path(
    model: Seq<NodeModel>,
    node: int,
    word: Seq<char>,
    buf: Seq<u8>,
    pos: int,
    path: Seq<u8>,
    bit_pos: nat,
)
    requires
        wf_model(model),
        spec_readable(model),
        0 <= node < model.len(),
        0 <= pos <= buf.len() <= usize::MAX,
        spec_holds(buf, pos, spec_siblings(model, node, 0)),
        forall|i: int| 0 <= i < word.len() ==> word[i] != '\0',
        spec_path_bits(model, node, word) is Some,
        bit_pos + spec_path_bits(model, node, word)->0.len() <= 8 * path.len(),
        bits_of_bytes(path).subrange(
            bit_pos as int,
            (bit_pos + spec_path_bits(model, node, word)->0.len()) as int,
        ) == spec_path_bits(model, node, word)->0,
    ensures
        spec_walk_path(buf, path, pos, bit_pos) == (PathOutcome {
            chars: word,
            bit_pos: bit_pos + spec_path_bits(model, node, word)->0.len(),
            error: None,
        }),
    decreases word.len(),
{
    reveal_with_fuel(spec_walk_path, 2);
    let bits = spec_path_bits(model, node, word)->0;
    let stream = bits_of_bytes(path);
    let ch = if word.len() == 0 {
        '\0'
    } else {
        word[0]
    };
    let children = model[node].children;
    let n = children.len();
    let k = spec_child_index(model, node, ch)->0;
    let child = children[k as int] as int;
    let width = spec_child_index_width(model, node);
    let index_bits = spec_index_bits(k, width);
    assert(node < children[k as int] < model.len());
    lemma_count_siblings(model, node, 0, buf, pos);
    assert(width == spec_index_width(n));
    lemma_bit_length_monotone(k, (n - 1) as nat);
    lemma_children_count(model, node, n - 1);
    lemma_bit_length_monotone((n - 1) as nat, usize::MAX as nat);
    lemma_usize_bit_length();
    lemma_value_of_index_bits(k, width);
    lemma_skip_nodes(model, node, 0, k, buf, pos);
    let distance = spec_sibling_distance(model, node, 0, k as int);
    lemma_siblings_unfold(model, node, k as int);
    let is_last = k + 1 == n;
    let subtree = spec_subtree(model, child, is_last);
    lemma_holds_split(buf, pos + distance, subtree, spec_siblings(model, node, k as int + 1));
    lemma_read_node(model, child, is_last, buf, pos + distance);
    lemma_path_step_advances(buf, path, pos, bit_pos);
    let from = bit_pos as int;
    let wide = width as int;
    let all = bits.len() as int;
    let found = spec_read_node(buf, pos + distance)->Ok_0;
    assert(found.ch == model[child].ch);
    assert(model[child].ch == ch);
    assert(spec_count_siblings(buf, pos) == Ok::<nat, Error>(n));
    assert(spec_skip_nodes(buf, pos, k) == Ok::<nat, Error>(distance as nat));
    if word.len() == 0 {
        assert(bits == index_bits);
        assert(stream.subrange(from, from + wide) == index_bits);
        assert(word =~= Seq::<char>::empty());
        assert(spec_path_step(buf, path, pos, bit_pos) is Ok);
        let step = spec_path_step(buf, path, pos, bit_pos)->Ok_0;
        assert(step.ch is None);
        assert(step.bit_pos == bit_pos + width);
    } else {
        let tail = spec_path_bits(model, child, word.drop_first())->0;
        assert(bits == index_bits + tail);
        assert(stream.subrange(from, from + wide) =~= index_bits) by {
            assert forall|i: int| 0 <= i < wide implies stream.subrange(from, from + wide)[i]
                == index_bits[i] by {
                assert(stream.subrange(from, from + all)[i] == bits[i]);
            }
        }
        assert(stream.subrange(from + wide, from + wide + tail.len()) =~= tail) by {
            assert forall|i: int| 0 <= i < tail.len() implies stream.subrange(
                from + wide,
                from + wide + tail.len(),
            )[i] == tail[i] by {
                assert(stream.subrange(from, from + all)[wide + i] == bits[wide + i]);
            }
        }
        let step = spec_path_step(buf, path, pos, bit_pos)->Ok_0;
        assert(step.ch == Some(word[0]));
        lemma_walk_path(
            model,
            child,
            word.drop_first(),
            buf,
            step.node_pos,
            path,
            (bit_pos + width) as nat,
        );
        assert(seq![word[0]] + word.drop_first() =~= word);
    }
}

/// A word that the trie holds has no character that marks the end of a
/// word: nothing lies below a terminator.
pub proof fn lemma_path_has_no_nul(model: Seq<NodeModel>, node: int, word: Seq<char>)
    requires
        wf_model(model),
        0 <= node < model.len(),
        spec_path_bits(model, node, word) is Some,
    ensures
        forall|i: int| 0 <= i < word.len() ==> word[i] != '\0',
    decreases word.len(),
{
    if word.len() > 0 {
        let k = spec_child_index(model, node, word[0])->0 as int;
        let child = model[node].children[k] as int;
        assert(node < model[node].children[k] < model.len());
        if word[0] == '\0' {
            assert(model[child].is_terminator);
            assert(model[child].children.len() == 0);
            assert(spec_path_bits(model, child, word.drop_first()) is None);
        }
        lemma_path_has_no_nul(model, child, word.drop_first());
        assert forall|i: int| 0 <= i < word.len() implies word[i] != '\0' by {
            if i > 0 {
                assert(word[i] == word.drop_first()[i - 1]);
            }
        }
    }
}

/// The first byte of a translation gives its tag back.
proof fn lemma_framing(payload_byte: u8)
    by (bit_vector)
    requires
        payload_byte < 0x80,
    ensures
        (payload_byte | 0x80) % 0x80 == payload_byte,
        (payload_byte | 0x80) >= 0x80,
        payload_byte % 0x80 == payload_byte,
{
}

/// Whether the variants that the reader finds from `pos` on are the
/// translations of the list, starting at place `j`: each with its tag, its
/// article and its characters, and the last one marked as the last.
pub open spec fn spec_variants_match(
    buf: Seq<u8>,
    pos: int,
    translations: Seq<TranslationModel>,
    j: int,
) -> bool
    decreases translations.len() - j,
{
    j < 0 || j >= translations.len() || {
        &&& 0 <= pos
        &&& pos + 3 <= buf.len()
        &&& spec_variant_payload(buf, pos) == translations[j].payload_byte
        &&& spec_variant_article(buf, pos) == translations[j].article_num
        &&& spec_variant_translation(buf, pos).chars == translations[j].value
        &&& spec_variant_translation(buf, pos).error is None
        &&& spec_variant_is_last(buf, pos) == (j + 1 == translations.len())
        &&& spec_variants_match(buf, spec_variant_end(buf, pos), translations, j + 1)
    }
}

/// Where the buffer holds the top of the trie after its length, and the
/// translations of a terminator from place `j` on, the reader finds those
/// translations as variants.
pub proof fn lemma_variants(
    model: Seq<NodeModel>,
    translations: Seq<TranslationModel>,
    j: int,
    buf: Seq<u8>,
    pos: int,
)
    requires
        wf_model(model),
        spec_readable(model),
        buf.len() <= usize::MAX,
        spec_holds(buf, root_pos() as int, spec_siblings(model, 0, 0)),
        0 <= j,
        spec_translations_present(model, translations, j),
        forall|i: int|
            0 <= i < translations.len() ==> (#[trigger] translations[i]).payload_byte < 0x80,
        spec_holds(buf, pos, spec_payload_from(model, translations, j)),
    ensures
        spec_variants_match(buf, pos, translations, j),
    decreases translations.len() - j,
{
    if j < translations.len() {
        let t = translations[j];
        let more = j + 1 < translations.len();
        let bits = spec_path_bits(model, 0, t.value)->0;
        let first = seq![spec_framing_byte(t.payload_byte, more)] + spec_article_bytes(
            t.article_num,
        );
        let packed = pack(bits);
        let rest = spec_payload_from(model, translations, j + 1);
        let payload = spec_payload_from(model, translations, j);
        assert(payload =~= first + (packed + rest));
        lemma_holds_split(buf, pos, first, packed + rest);
        lemma_holds_split(buf, pos + 3, packed, rest);
        lemma_holds_index(buf, pos, first, 0);
        lemma_holds_index(buf, pos, first, 1);
        lemma_holds_index(buf, pos, first, 2);
        lemma_framing(t.payload_byte);
        let path = spec_variant_path(buf, pos);
        let tail = buf.subrange(pos + 3 + packed.len(), buf.len() as int);
        assert(path =~= packed + tail) by {
            assert forall|i: int| 0 <= i < packed.len() implies path[i] == packed[i] by {
                lemma_holds_index(buf, pos + 3, packed, i);
            }
        }
        lemma_bits_of_bytes_concat(packed, tail);
        lemma_bits_of_pack(bits);
        assert(bits_of_bytes(path).subrange(0, bits.len() as int) =~= bits);
        lemma_path_has_no_nul(model, 0, t.value);
        lemma_walk_path(model, 0, t.value, buf, root_pos() as int, path, 0);
        lemma_variants(model, translations, j + 1, buf, pos + 3 + packed.len());
    }
}

/// Looking a word up in a dictionary file.  Where a trie holds a word, the
/// reader finds the word in the file of the trie, and the variants that it
/// finds there are the translations at the terminator of the word, in their
/// order.
pub proof fn law_file_lookup(model: Seq<NodeModel>, word: Seq<char>)
    requires
        wf_model(model),
        spec_paths_present(model),
        spec_payload_bytes_ok(model),
        spec_readable(model),
        spec_dictionary_bytes(model).len() <= usize::MAX,
        forall|i: int| 0 <= i < word.len() ==> word[i] != '\0',
        spec_terminator(model, 0, word) is Some,
    ensures
        spec_find_word(spec_dictionary_bytes(model), word) matches Ok(Some(found))
            && spec_variants_match(
            spec_dictionary_bytes(model),
            found as int,
            model[spec_terminator(model, 0, word)->0].translations,
            0,
        ),
{
    reveal(spec_find_word);
    let file = spec_dictionary_bytes(model);
    let trie = spec_file_trie(model);
    let end = spec_terminator(model, 0, word)->0;
    assert(file.subrange(4, 4 + trie.len() as int) =~= trie);
    lemma_find_prefix(model, 0, word, file, 4);
    lemma_terminator(model, 0, word);
    let list = spec_find_prefix(file, word)->Ok_0->0;
    let found = spec_find_sibling_for_character(file, list as int, '\0')->Ok_0->0;
    assert forall|i: int| 0 <= i < model[end].translations.len() implies (
    #[trigger] model[end].translations[i]).payload_byte < 0x80 by {}
    lemma_variants(model, model[end].translations, 0, file, found as int);
}

/// The node that a word leads to is a terminator of the trie.
pub proof fn lemma_terminator(model: Seq<NodeModel>, node: int, word: Seq<char>)
    requires
        wf_model(model),
        0 <= node < model.len(),
        spec_terminator(model, node, word) is Some,
        forall|i: int| 0 <= i < word.len() ==> word[i] != '\0',
    ensures
        node < spec_terminator(model, node, word)->0 < model.len(),
        model[spec_terminator(model, node, word)->0].is_terminator,
    decreases word.len(),
{
    let ch = if word.len() == 0 {
        '\0'
    } else {
        word[0]
    };
    let k = spec_child_index(model, node, ch)->0 as int;
    assert(node < model[node].children[k] < model.len());
    if word.len() > 0 {
        lemma_terminator(model, model[node].children[k] as int, word.drop_first());
    }
}

/// Whether one of the variants that the reader finds from `pos` on has the
/// given tag, article and translation, and all the variants up to it can be
/// read.
pub open spec fn spec_has_variant(
    buf: Seq<u8>,
    pos: int,
    payload: u8,
    article_num: u16,
    translation: Seq<char>,
) -> bool
    decreases buf.len() - pos,
{
    if pos < 0 || pos + 3 > buf.len() || spec_variant_translation(buf, pos).error is Some {
        false
    } else if spec_variant_payload(buf, pos) == payload && spec_variant_article(buf, pos)
        == article_num && spec_variant_translation(buf, pos).chars == translation {
        true
    } else if spec_variant_is_last(buf, pos) {
        false
    } else {
        proof {
            lemma_variant_end_bounds(buf, pos);
        }
        spec_has_variant(buf, spec_variant_end(buf, pos), payload, article_num, translation)
    }
}

/// Among variants that are the translations of a list, each translation of
/// the list is found.
pub proof fn lemma_has_variant(
    buf: Seq<u8>,
    pos: int,
    translations: Seq<TranslationModel>,
    j: int,
    m: int,
)
    requires
        0 <= j <= m < translations.len(),
        spec_variants_match(buf, pos, translations, j),
    ensures
        spec_has_variant(
            buf,
            pos,
            translations[m].payload_byte,
            translations[m].article_num,
            translations[m].value,
        ),
    decreases m - j,
{
    if j < m {
        lemma_variant_end_bounds(buf, pos);
        lemma_has_variant(buf, spec_variant_end(buf, pos), translations, j + 1, m);
    }
}

/// Round trip of a pair of words through a dictionary file.  After a pair
/// was added to a trie and the trie laid out as a dictionary file, the
/// reader finds each of the two words, and among the variants of each the
/// other word, with the tag and the article that were given.
pub proof fn law_dictionary_round_trip(
    model: Seq<NodeModel>,
    word: Seq<char>,
    translation: Seq<char>,
    payload_byte: u8,
    article_num: u16,
    priority: u32,
)
    requires
        wf_model(model),
        spec_paths_present(model),
        spec_payload_bytes_ok(model),
        payload_byte < 0x80,
        forall|i: int| 0 <= i < word.len() ==> word[i] != '\0',
        forall|i: int| 0 <= i < translation.len() ==> translation[i] != '\0',
        spec_add_entry(model, word, translation, payload_byte, article_num, priority).len()
            <= usize::MAX,
        spec_readable(
            spec_add_entry(model, word, translation, payload_byte, article_num, priority),
        ),
        spec_dictionary_bytes(
            spec_add_entry(model, word, translation, payload_byte, article_num, priority),
        ).len() <= usize::MAX,
    ensures
        spec_find_word(
            spec_dictionary_bytes(
                spec_add_entry(model, word, translation, payload_byte, article_num, priority),
            ),
            word,
        ) matches Ok(Some(found)) && spec_has_variant(
            spec_dictionary_bytes(
                spec_add_entry(model, word, translation, payload_byte, article_num, priority),
            ),
            found as int,
            payload_byte,
            article_num,
            translation,
        ),
        spec_find_word(
            spec_dictionary_bytes(
                spec_add_entry(model, word, translation, payload_byte, article_num, priority),
            ),
            translation,
        ) matches Ok(Some(found)) && spec_has_variant(
            spec_dictionary_bytes(
                spec_add_entry(model, word, translation, payload_byte, article_num, priority),
            ),
            found as int,
            payload_byte,
            article_num,
            word,
        ),
{
    let after = spec_add_entry(model, word, translation, payload_byte, article_num, priority);
    let file = spec_dictionary_bytes(after);
    law_add_entry_keeps_paths(model, word, translation, payload_byte, article_num, priority);
    law_add_entry_round_trip(model, word, translation, payload_byte, article_num, priority);
    law_file_lookup(after, word);
    law_file_lookup(after, translation);
    let word_end = spec_terminator(after, 0, word)->0;
    let first = TranslationModel { payload_byte, article_num, priority, value: translation };
    let at = choose|at: int|
        0 <= at < after[word_end].translations.len() && after[word_end].translations[at] == first;
    lemma_has_variant(
        file,
        spec_find_word(file, word)->Ok_0->0 as int,
        after[word_end].translations,
        0,
        at,
    );
    let translation_end = spec_terminator(after, 0, translation)->0;
    let second = TranslationModel { payload_byte, article_num, priority, value: word };
    let back = choose|back: int|
        0 <= back < after[translation_end].translations.len()
            && after[translation_end].translations[back] == second;
    lemma_has_variant(
        file,
        spec_find_word(file, translation)->Ok_0->0 as int,
        after[translation_end].translations,
        0,
        back,
    );
}

/// What a walk has yet to visit at one place of its stack: the children of
/// `node` from child `k` on, reached by the characters of `prefix`.
pub struct Pending {
    pub node: int,
    pub k: int,
    pub prefix: Seq<char>,
}

/// The words that a walk has yet to give: those of the place on top of its
/// stack first.
pub open spec fn spec_agenda_words(model: Seq<NodeModel>, agenda: Seq<Pending>) -> Seq<
    (Seq<char>, int),
>
    decreases agenda.len(),
{
    if agenda.len() == 0 {
        Seq::empty()
    } else {
        spec_words_from(model, agenda.last().node, agenda.last().k, agenda.last().prefix)
            + spec_agenda_words(model, agenda.drop_last())
    }
}

/// Whether an entry of the stack of a walk stands for what is yet to
/// visit: the buffer holds the children there, and the word gathered so far
/// starts with the characters that lead to them.
pub open spec fn spec_pending_ok(
    buf: Seq<u8>,
    model: Seq<NodeModel>,
    entry: WalkEntry,
    word: Seq<char>,
    pending: Pending,
) -> bool {
    &&& 0 <= pending.node < model.len()
    &&& !model[pending.node].is_terminator
    &&& 0 <= pending.k < model[pending.node].children.len()
    &&& spec_holds(buf, entry.pos, spec_siblings(model, pending.node, pending.k))
    &&& entry.word_length == pending.prefix.len()
    &&& pending.prefix.len() <= word.len()
    &&& word.take(pending.prefix.len() as int) == pending.prefix
}

/// Whether the stack of a walk stands for what is yet to visit, entry by
/// entry; the entries higher up lie deeper in the trie.
pub open spec fn spec_agenda_ok(
    buf: Seq<u8>,
    model: Seq<NodeModel>,
    stack: Seq<WalkEntry>,
    word: Seq<char>,
    agenda: Seq<Pending>,
) -> bool {
    &&& stack.len() == agenda.len()
    &&& forall|i: int|
        0 <= i < agenda.len() ==> spec_pending_ok(buf, model, stack[i], word, #[trigger] agenda[i])
    &&& forall|i: int, j: int|
        0 <= i < j < agenda.len() ==> (#[trigger] agenda[i]).prefix.len() <= (
        #[trigger] agenda[j]).prefix.len()
}

/// One more place on top of the stack puts its words before the others.
proof fn lemma_agenda_words_push(model: Seq<NodeModel>, agenda: Seq<Pending>, pending: Pending)
    ensures
        spec_agenda_words(model, agenda.push(pending)) == spec_words_from(
            model,
            pending.node,
            pending.k,
            pending.prefix,
        ) + spec_agenda_words(model, agenda),
{
    assert(agenda.push(pending).drop_last() =~= agenda);
}

/// One call of the walk gives the first of the words that are yet to give,
/// with the place of its translations, and leaves a stack that stands for
/// the rest.  Returns what is then yet to visit.
pub proof fn lemma_walker_next(
    model: Seq<NodeModel>,
    buf: Seq<u8>,
    stack: Seq<WalkEntry>,
    word: Seq<char>,
    agenda: Seq<Pending>,
) -> (next: Seq<Pending>)
    requires
        wf_model(model),
        spec_no_dead_ends(model),
        spec_readable(model),
        buf.len() <= usize::MAX,
        spec_agenda_ok(buf, model, stack, word, agenda),
    ensures
        agenda.len() == 0 ==> spec_walker_next(buf, stack, word).result == Ok::<
            Option<(Seq<char>, int)>,
            Error,
        >(None),
        agenda.len() > 0 ==> {
            &&& spec_agenda_words(model, agenda).len() > 0
            &&& spec_walker_next(buf, stack, word).result matches Ok(Some(found)) && {
                &&& found.0 == spec_agenda_words(model, agenda)[0].0
                &&& 0 <= spec_agenda_words(model, agenda)[0].1 < model.len()
                &&& model[spec_agenda_words(model, agenda)[0].1].is_terminator
                &&& spec_holds(
                    buf,
                    found.1,
                    spec_file_data(model, spec_agenda_words(model, agenda)[0].1),
                )
            }
            &&& spec_agenda_ok(
                buf,
                model,
                spec_walker_next(buf, stack, word).stack,
                spec_walker_next(buf, stack, word).word,
                next,
            )
            &&& spec_agenda_words(model, next) == spec_agenda_words(model, agenda).drop_first()
        },
    decreases stack_weight(buf.len(), stack),
{
    if stack.len() == 0 {
        assert(agenda.len() == 0);
        agenda
    } else {
        let entry = stack.last();
        let pending = agenda.last();
        let rest_stack = stack.drop_last();
        let rest_agenda = agenda.drop_last();
        let node = pending.node;
        let k = pending.k;
        let n = model[node].children.len() as int;
        let prefix = truncated(word, entry.word_length);
        assert(spec_pending_ok(buf, model, stack[stack.len() - 1], word, pending));
        assert(prefix == pending.prefix);
        let child = model[node].children[k] as int;
        let is_last = k + 1 == n;
        let subtree = spec_subtree(model, child, is_last);
        lemma_siblings_unfold(model, node, k);
        lemma_holds_split(buf, entry.pos, subtree, spec_siblings(model, node, k + 1));
        lemma_read_node(model, child, is_last, buf, entry.pos);
        let found = spec_read_node(buf, entry.pos)->Ok_0;
        let child_pos = entry.pos + found.data_offset;
        let sibling = Pending { node, k: k + 1, prefix };
        let agenda_sib = if is_last {
            rest_agenda
        } else {
            rest_agenda.push(sibling)
        };
        let with_sibling = stack_with_sibling(rest_stack, prefix, entry.pos, found);
        lemma_words_from_nonempty(model, node, k, prefix);
        assert(spec_agenda_words(model, agenda) == spec_words_from(model, node, k, prefix)
            + spec_agenda_words(model, rest_agenda));
        if !is_last {
            lemma_agenda_words_push(model, rest_agenda, sibling);
        } else {
            assert(spec_words_from(model, node, k + 1, prefix) =~= Seq::empty());
        }
        assert(spec_agenda_ok(buf, model, with_sibling, prefix, agenda_sib)) by {
            assert forall|i: int| 0 <= i < agenda_sib.len() implies spec_pending_ok(
                buf,
                model,
                with_sibling[i],
                prefix,
                #[trigger] agenda_sib[i],
            ) by {
                if i < rest_agenda.len() {
                    assert(agenda_sib[i] == agenda[i]);
                    assert(with_sibling[i] == stack[i]);
                    assert(spec_pending_ok(buf, model, stack[i], word, agenda[i]));
                    assert(agenda[i].prefix.len() <= agenda[agenda.len() - 1].prefix.len());
                    assert(prefix.take(agenda[i].prefix.len() as int) =~= word.take(
                        agenda[i].prefix.len() as int,
                    ));
                } else {
                    assert(prefix.take(prefix.len() as int) =~= prefix);
                }
            }
            assert forall|i: int, j: int| 0 <= i < j < agenda_sib.len() implies (
            #[trigger] agenda_sib[i]).prefix.len() <= (#[trigger] agenda_sib[j]).prefix.len() by {
                assert(agenda_sib[i] == agenda[i]);
                if j < rest_agenda.len() {
                    assert(agenda_sib[j] == agenda[j]);
                } else {
                    assert(agenda[i].prefix.len() <= agenda[agenda.len() - 1].prefix.len());
                }
            }
        }
        if model[child].is_terminator {
            assert(spec_words_from(model, node, k, prefix) == seq![(prefix, child)]
                + spec_words_from(model, node, k + 1, prefix));
            assert(spec_agenda_words(model, agenda).drop_first() =~= spec_agenda_words(
                model,
                agenda_sib,
            ));
            agenda_sib
        } else {
            let ch = model[child].ch;
            let deeper = Pending { node: child, k: 0, prefix: prefix.push(ch) };
            let stack2 = with_sibling.push(
                WalkEntry { word_length: prefix.len() + 1, pos: child_pos },
            );
            let word2 = prefix.push(ch);
            let agenda2 = agenda_sib.push(deeper);
            lemma_agenda_words_push(model, agenda_sib, deeper);
            assert(spec_agenda_words(model, agenda2) =~= spec_agenda_words(model, agenda));
            assert(spec_agenda_ok(buf, model, stack2, word2, agenda2)) by {
                assert forall|i: int| 0 <= i < agenda2.len() implies spec_pending_ok(
                    buf,
                    model,
                    stack2[i],
                    word2,
                    #[trigger] agenda2[i],
                ) by {
                    if i < agenda_sib.len() {
                        assert(agenda2[i] == agenda_sib[i]);
                        assert(stack2[i] == with_sibling[i]);
                        assert(spec_pending_ok(buf, model, with_sibling[i], prefix, agenda_sib[i]));
                        assert(word2.take(agenda_sib[i].prefix.len() as int) =~= prefix.take(
                            agenda_sib[i].prefix.len() as int,
                        ));
                    } else {
                        assert(word2.take(word2.len() as int) =~= word2);
                    }
                }
                assert forall|i: int, j: int| 0 <= i < j < agenda2.len() implies (
                #[trigger] agenda2[i]).prefix.len() <= (#[trigger] agenda2[j]).prefix.len() by {
                    assert(agenda2[i] == agenda_sib[i]);
                    assert(spec_pending_ok(buf, model, with_sibling[i], prefix, agenda_sib[i]));
                    if j < agenda_sib.len() {
                        assert(agenda2[j] == agenda_sib[j]);
                    }
                }
            }
            lemma_walker_next_step(buf, stack, word);
            lemma_walker_next(model, buf, stack2, word2, agenda2)
        }
    }
}

/// The work that is left falls when the walk goes down to a child.
proof fn lemma_walker_next_step(buf: Seq<u8>, stack: Seq<WalkEntry>, word: Seq<char>)
    requires
        stack.len() > 0,
        spec_read_node(buf, stack.last().pos) is Ok,
    ensures
        ({
            let entry = stack.last();
            let prefix = truncated(word, entry.word_length);
            let node = spec_read_node(buf, entry.pos)->Ok_0;
            stack_weight(
                buf.len(),
                stack_with_sibling(stack.drop_last(), prefix, entry.pos, node).push(
                    WalkEntry { word_length: prefix.len() + 1, pos: entry.pos + node.data_offset },
                ),
            ) < stack_weight(buf.len(), stack)
        }),
{
    let entry = stack.last();
    let rest = stack.drop_last();
    let prefix = truncated(word, entry.word_length);
    let node = spec_read_node(buf, entry.pos)->Ok_0;
    let sibling_pos = crate::dictionary::next_sibling_pos(
        entry.pos,
        node.sibling_offset,
        node.char_offset,
    );
    let child_pos = entry.pos + node.data_offset;
    let with_sibling = stack_with_sibling(rest, prefix, entry.pos, node);
    crate::dictionary::lemma_read_node_bounds(buf, entry.pos);
    crate::dictionary::lemma_entry_weight_step(buf.len(), entry.pos, sibling_pos, child_pos);
    crate::dictionary::lemma_stack_weight_push(
        buf.len(),
        rest,
        WalkEntry { word_length: prefix.len(), pos: sibling_pos },
    );
    crate::dictionary::lemma_stack_weight_push(
        buf.len(),
        with_sibling,
        WalkEntry { word_length: prefix.len() + 1, pos: child_pos },
    );
}

/// All that a walk gives, call after call, up to its end or to an error.
pub struct WalkAll {
    /// The words, each with the place of its first variant.
    pub found: Seq<(Seq<char>, int)>,
    pub error: Option<Error>,
}

/// All that a walk gives from a state on.
pub open spec fn spec_walk_all(buf: Seq<u8>, stack: Seq<WalkEntry>, word: Seq<char>) -> WalkAll
    decreases stack_weight(buf.len(), stack),
{
    let outcome = spec_walker_next(buf, stack, word);
    match outcome.result {
        Err(e) => WalkAll { found: Seq::empty(), error: Some(e) },
        Ok(None) => WalkAll { found: Seq::empty(), error: None },
        Ok(Some(found)) => {
            proof {
                lemma_walker_next_decreases(buf, stack, word);
            }
            let rest = spec_walk_all(buf, outcome.stack, outcome.word);
            WalkAll { found: seq![found] + rest.found, error: rest.error }
        },
    }
}

/// Whether what a walk gave are the given words of the trie, in their
/// order, each with the place where the reader finds the translations at its
/// terminator.
pub open spec fn spec_walk_matches(
    buf: Seq<u8>,
    model: Seq<NodeModel>,
    found: Seq<(Seq<char>, int)>,
    words: Seq<(Seq<char>, int)>,
) -> bool {
    &&& found.len() == words.len()
    &&& forall|i: int|
        0 <= i < found.len() ==> (#[trigger] found[i]).0 == words[i].0 && spec_variants_match(
            buf,
            found[i].1,
            model[words[i].1].translations,
            0,
        )
}

/// A walk whose stack stands for what is yet to visit gives the words that
/// are yet to give, and ends without an error.
pub proof fn lemma_walk_all(
    model: Seq<NodeModel>,
    buf: Seq<u8>,
    stack: Seq<WalkEntry>,
    word: Seq<char>,
    agenda: Seq<Pending>,
)
    requires
        wf_model(model),
        spec_no_dead_ends(model),
        spec_paths_present(model),
        spec_payload_bytes_ok(model),
        spec_readable(model),
        buf.len() <= usize::MAX,
        spec_holds(buf, root_pos() as int, spec_siblings(model, 0, 0)),
        spec_agenda_ok(buf, model, stack, word, agenda),
    ensures
        spec_walk_all(buf, stack, word).error is None,
        spec_walk_matches(
            buf,
            model,
            spec_walk_all(buf, stack, word).found,
            spec_agenda_words(model, agenda),
        ),
    decreases stack_weight(buf.len(), stack),
{
    let next = lemma_walker_next(model, buf, stack, word, agenda);
    let outcome = spec_walker_next(buf, stack, word);
    let words = spec_agenda_words(model, agenda);
    if agenda.len() > 0 {
        lemma_walker_next_decreases(buf, stack, word);
        lemma_walk_all(model, buf, outcome.stack, outcome.word, next);
        let first = outcome.result->Ok_0->0;
        let end = words[0].1;
        let rest = spec_walk_all(buf, outcome.stack, outcome.word);
        let all = spec_walk_all(buf, stack, word);
        assert(all.found == seq![first] + rest.found);
        assert forall|i: int| 0 <= i < model[end].translations.len() implies (
        #[trigger] model[end].translations[i]).payload_byte < 0x80 by {}
        assert(spec_translations_present(model, model[end].translations, 0));
        lemma_variants(model, model[end].translations, 0, buf, first.1);
        assert forall|i: int| 0 <= i < all.found.len() implies (#[trigger] all.found[i]).0
            == words[i].0 && spec_variants_match(
            buf,
            all.found[i].1,
            model[words[i].1].translations,
            0,
        ) by {
            if i > 0 {
                assert(all.found[i] == rest.found[i - 1]);
                assert(words[i] == words.drop_first()[i - 1]);
            }
        }
    } else {
        assert(words =~= Seq::empty());
    }
}

/// The walk over a dictionary file is complete and in order: from the top
/// of the trie it gives every word of the trie once, in the order of the
/// trie, each with the place where the reader finds its translations; and
/// then it ends.
pub proof fn law_walk_gives_all_words(model: Seq<NodeModel>)
    requires
        wf_model(model),
        spec_no_dead_ends(model),
        spec_paths_present(model),
        spec_payload_bytes_ok(model),
        spec_readable(model),
        spec_dictionary_bytes(model).len() <= usize::MAX,
        model[0].children.len() > 0,
    ensures
        spec_walk_all(
            spec_dictionary_bytes(model),
            seq![WalkEntry { word_length: 0, pos: root_pos() as int }],
            Seq::empty(),
        ).error is None,
        spec_walk_matches(
            spec_dictionary_bytes(model),
            model,
            spec_walk_all(
                spec_dictionary_bytes(model),
                seq![WalkEntry { word_length: 0, pos: root_pos() as int }],
                Seq::empty(),
            ).found,
            spec_words(model),
        ),
{
    let file = spec_dictionary_bytes(model);
    let trie = spec_file_trie(model);
    let stack = seq![WalkEntry { word_length: 0, pos: root_pos() as int }];
    let word = Seq::<char>::empty();
    let agenda = seq![Pending { node: 0, k: 0, prefix: Seq::empty() }];
    assert(file.subrange(4, 4 + trie.len() as int) =~= trie);
    assert(word.take(0) =~= Seq::<char>::empty());
    assert(spec_pending_ok(file, model, stack[0], word, agenda[0]));
    assert(agenda.drop_last() =~= Seq::<Pending>::empty());
    lemma_agenda_words_push(model, Seq::empty(), agenda[0]);
    assert(Seq::<Pending>::empty().push(agenda[0]) =~= agenda);
    assert(spec_agenda_words(model, Seq::empty()) =~= Seq::<(Seq<char>, int)>::empty());
    assert(spec_agenda_words(model, agenda) =~= spec_words(model));
    lemma_walk_all(model, file, stack, word, agenda);
}

/// Where a node has no child with a character, none of its children has
/// that character.
pub proof fn lemma_child_index_none(model: Seq<NodeModel>, node: int, ch: char, m: int)
    requires
        wf_model(model),
        0 <= node < model.len(),
        spec_child_index(model, node, ch) is None,
        0 <= m < model[node].children.len(),
    ensures
        child_ch(model, model[node].children, m) != ch,
{
    let children = model[node].children;
    let k = spec_lower_bound(model, children, ch) as int;
    lemma_lower_bound_is(model, children, ch);
    if m < k {
        assert(child_ch(model, children, m) < ch);
    } else if m > k {
        assert(child_ch(model, children, k) < child_ch(model, children, m));
    }
}

/// Where the buffer holds the children of a node from child `k` on and
/// none of them has a character, the reader finds no child with it.
pub proof fn lemma_find_sibling_absent(
    model: Seq<NodeModel>,
    node: int,
    k: int,
    ch: char,
    buf: Seq<u8>,
    pos: int,
)
    requires
        wf_model(model),
        spec_readable(model),
        0 <= node < model.len(),
        0 <= k < model[node].children.len(),
        spec_holds(buf, pos, spec_siblings(model, node, k)),
        buf.len() <= usize::MAX,
        forall|m: int|
            k <= m < model[node].children.len() ==> (#[trigger] child_ch(
                model,
                model[node].children,
                m,
            )) != ch,
    ensures
        spec_find_sibling_for_character(buf, pos, ch) == Ok::<Option<usize>, Error>(None),
    decreases model[node].children.len() - k,
{
    let n = model[node].children.len();
    let child = model[node].children[k] as int;
    let is_last = k + 1 == n;
    let subtree = spec_subtree(model, child, is_last);
    lemma_siblings_unfold(model, node, k);
    lemma_holds_split(buf, pos, subtree, spec_siblings(model, node, k + 1));
    lemma_read_node(model, child, is_last, buf, pos);
    assert(child_ch(model, model[node].children, k) != ch);
    if !is_last {
        lemma_find_sibling_absent(model, node, k + 1, ch, buf, pos + subtree.len());
    }
}

/// Where the buffer holds the children of a node, the reader finds no word
/// below the node that the trie does not hold there.
pub proof fn lemma_find_prefix_absent(
    model: Seq<NodeModel>,
    node: int,
    word: Seq<char>,
    buf: Seq<u8>,
    pos: int,
)
    requires
        wf_model(model),
        spec_no_dead_ends(model),
        spec_readable(model),
        0 <= node < model.len(),
        model[node].children.len() > 0,
        0 <= pos <= buf.len() <= usize::MAX,
        spec_holds(buf, pos, spec_siblings(model, node, 0)),
        forall|i: int| 0 <= i < word.len() ==> word[i] != '\0',
        spec_terminator(model, node, word) is None,
    ensures
        match spec_find_prefix_from(buf, pos as usize, word) {
            Ok(Some(list)) => spec_find_sibling_for_character(buf, list as int, '\0') == Ok::<
                Option<usize>,
                Error,
            >(None),
            Ok(None) => true,
            Err(e) => false,
        },
    decreases word.len(),
{
    let ch = if word.len() == 0 {
        '\0'
    } else {
        word[0]
    };
    match spec_child_index(model, node, ch) {
        None => {
            assert forall|m: int| 0 <= m < model[node].children.len() implies (
            #[trigger] child_ch(model, model[node].children, m)) != ch by {
                lemma_child_index_none(model, node, ch, m);
            }
            lemma_find_sibling_absent(model, node, 0, ch, buf, pos);
        },
        Some(k) => {
            let child = model[node].children[k as int] as int;
            assert(node < model[node].children[k as int] < model.len());
            lemma_find_sibling(model, node, 0, k as int, buf, pos);
            let list = spec_find_sibling_for_character(buf, pos, ch)->Ok_0->0;
            assert(!model[child].is_terminator);
            lemma_find_prefix_absent(model, child, word.drop_first(), buf, list as int);
        },
    }
}

/// Looking up a word that is not there.  The reader finds no word in the
/// file of a trie that the trie does not hold.
pub proof fn law_file_lookup_absent(model: Seq<NodeModel>, word: Seq<char>)
    requires
        wf_model(model),
        spec_no_dead_ends(model),
        spec_readable(model),
        spec_dictionary_bytes(model).len() <= usize::MAX,
        model[0].children.len() > 0,
        forall|i: int| 0 <= i < word.len() ==> word[i] != '\0',
        spec_terminator(model, 0, word) is None,
    ensures
        spec_find_word(spec_dictionary_bytes(model), word) == Ok::<Option<usize>, Error>(None),
{
    reveal(spec_find_word);
    let file = spec_dictionary_bytes(model);
    let trie = spec_file_trie(model);
    assert(file.subrange(4, 4 + trie.len() as int) =~= trie);
    lemma_find_prefix_absent(model, 0, word, file, 4);
}

} // verus!
