//! What holds of every trie that a builder can hold: a word that was put in
//! stays in, and with it the path to every translation.

use crate::bits::{
    lemma_pow2_32, lemma_pow2_add, lemma_value_of_bits_concat, lemma_value_of_low_bits_of, low_bits,
    pow2, value_of_bits,
};
use crate::dictionary;
use crate::dictionary::{spec_bit_length, spec_offset_from};
use crate::trie_builder::{
    child_ch, law_offset_round_trip, lemma_bit_length_bound, lemma_bit_length_monotone,
    lemma_encode_offset_len, lemma_lower_bound, lemma_priority_position,
    lemma_priority_position_bound, spec_add_entry, spec_add_word, spec_body, spec_child_for,
    spec_child_index, spec_child_index_width, spec_empty_trie, spec_encode_offset, spec_index_bits,
    spec_insert, spec_last_priority, spec_lower_bound, spec_n_bytes_for_size, spec_new_node,
    spec_no_dead_ends, spec_node_data_number, spec_path_bits, spec_paths_present,
    spec_payload_bytes_ok, spec_priority_position, spec_subtree, spec_translations_present,
    spec_with_child, spec_with_translation, wf_model, NodeModel, TranslationModel,
};
use vstd::prelude::*;

verus! {

/// Whether the trie `after` holds all that the trie `before` holds: the same
/// nodes at the same places, and below each node the children it had.
pub open spec fn spec_extends(before: Seq<NodeModel>, after: Seq<NodeModel>) -> bool {
    &&& before.len() <= after.len()
    &&& forall|i: int|
        0 <= i < before.len() ==> (#[trigger] after[i]).ch == before[i].ch && after[i].is_terminator
            == before[i].is_terminator
    &&& forall|i: int, k: int|
        0 <= i < before.len() && 0 <= k < before[i].children.len() ==> after[i].children.contains(
            #[trigger] before[i].children[k],
        )
}

/// A trie that extends a trie that extends a third extends the third.
pub proof fn lemma_extends_transitive(a: Seq<NodeModel>, b: Seq<NodeModel>, c: Seq<NodeModel>)
    requires
        spec_extends(a, b),
        spec_extends(b, c),
    ensures
        spec_extends(a, c),
{
    assert forall|i: int, k: int|
        0 <= i < a.len() && 0 <= k < a[i].children.len() implies c[i].children.contains(
        #[trigger] a[i].children[k],
    ) by {
        let child = a[i].children[k];
        assert(b[i].children.contains(child));
        let j = choose|j: int| 0 <= j < b[i].children.len() && b[i].children[j] == child;
        assert(c[i].children.contains(b[i].children[j]));
    }
    assert forall|i: int| 0 <= i < a.len() implies (#[trigger] c[i]).ch == a[i].ch
        && c[i].is_terminator == a[i].is_terminator by {
        assert(b[i].ch == a[i].ch);
    }
}

/// In a well-formed trie the child with a given character is found where
/// it stands.
pub proof fn lemma_child_index_of(model: Seq<NodeModel>, node: int, k: int)
    requires
        wf_model(model),
        0 <= node < model.len(),
        0 <= k < model[node].children.len(),
    ensures
        spec_child_index(model, node, child_ch(model, model[node].children, k)) == Some(k as nat),
{
    let children = model[node].children;
    let ch = child_ch(model, children, k);
    assert forall|j: int| 0 <= j < k implies (#[trigger] child_ch(model, children, j)) < ch by {}
    lemma_lower_bound(model, children, ch, k);
}

/// A word that a trie holds below a node is held by every trie that
/// extends it.
pub proof fn lemma_extends_path(
    before: Seq<NodeModel>,
    after: Seq<NodeModel>,
    node: int,
    word: Seq<char>,
)
    requires
        wf_model(before),
        wf_model(after),
        spec_extends(before, after),
        0 <= node < before.len(),
        spec_path_bits(before, node, word) is Some,
    ensures
        spec_path_bits(after, node, word) is Some,
    decreases word.len(),
{
    let ch = if word.len() == 0 {
        '\0'
    } else {
        word[0]
    };
    let k = spec_child_index(before, node, ch)->0 as int;
    let child = before[node].children[k];
    assert(node < child < before.len());
    assert(after[node].children.contains(child));
    let j = choose|j: int| 0 <= j < after[node].children.len() && after[node].children[j] == child;
    assert(after[child as int].ch == before[child as int].ch);
    lemma_child_index_of(after, node, j);
    if word.len() > 0 {
        lemma_extends_path(before, after, child as int, word.drop_first());
    }
}

/// Taking or making the child of a node for a character leaves a
/// well-formed trie that extends the one before and holds the child below the
/// node; no translation comes or goes.
pub proof fn lemma_child_for(model: Seq<NodeModel>, parent: int, ch: char, is_terminator: bool)
    requires
        wf_model(model),
        0 <= parent < model.len(),
        model.len() <= usize::MAX,
        !model[parent].is_terminator,
        is_terminator == (ch == '\0'),
    ensures
        wf_model(spec_child_for(model, parent, ch, is_terminator).0),
        spec_extends(model, spec_child_for(model, parent, ch, is_terminator).0),
        parent < spec_child_for(model, parent, ch, is_terminator).1 < spec_child_for(
            model,
            parent,
            ch,
            is_terminator,
        ).0.len(),
        spec_child_for(model, parent, ch, is_terminator).0.len() <= model.len() + 1,
        spec_child_index(spec_child_for(model, parent, ch, is_terminator).0, parent, ch) is Some,
        spec_child_for(model, parent, ch, is_terminator).0[parent].children[spec_child_index(
            spec_child_for(model, parent, ch, is_terminator).0,
            parent,
            ch,
        )->0 as int] == spec_child_for(model, parent, ch, is_terminator).1,
        spec_child_for(model, parent, ch, is_terminator).0[spec_child_for(
            model,
            parent,
            ch,
            is_terminator,
        ).1].is_terminator == is_terminator,
        forall|i: int|
            0 <= i < spec_child_for(model, parent, ch, is_terminator).0.len() ==> (
            #[trigger] spec_child_for(model, parent, ch, is_terminator).0[i]).translations == (if i
                < model.len() {
                model[i].translations
            } else {
                Seq::empty()
            }),
{
    let children = model[parent].children;
    let k = spec_lower_bound(model, children, ch) as int;
    let (after, child) = spec_child_for(model, parent, ch, is_terminator);
    lemma_lower_bound_is(model, children, ch);
    if k < children.len() && child_ch(model, children, k) == ch {
        assert(parent < children[k] < model.len());
        lemma_child_index_of(model, parent, k);
        assert forall|i: int, j: int|
            0 <= i < model.len() && 0 <= j < model[i].children.len() implies after[i].children.contains(
            #[trigger] model[i].children[j],
        ) by {}
    } else {
        let new_pos = model.len() as usize;
        assert(after =~= spec_with_child(
            model.push(spec_new_node(ch, is_terminator)),
            parent,
            k,
            new_pos,
        ));
        assert forall|i: int, a: int, b: int|
            0 <= i < after.len() && 0 <= a < b < after[i].children.len() implies (#[trigger] child_ch(
            after,
            after[i].children,
            a,
        )) < (#[trigger] child_ch(after, after[i].children, b)) by {
            if i == parent {
                let old_a = if a < k {
                    a
                } else {
                    a - 1
                };
                let old_b = if b < k {
                    b
                } else {
                    b - 1
                };
                if a != k && b != k {
                    assert(parent < children[old_a] < model.len());
                    assert(parent < children[old_b] < model.len());
                    assert(child_ch(model, children, old_a) < child_ch(model, children, old_b));
                } else if a == k {
                    assert(parent < children[old_b] < model.len());
                    assert(child_ch(model, children, k) <= child_ch(model, children, old_b)
                        || old_b == k);
                } else {
                    assert(parent < children[old_a] < model.len());
                    assert(child_ch(model, children, old_a) < ch);
                }
            } else if i < model.len() {
                assert(i < model[i].children[a] < model.len());
                assert(i < model[i].children[b] < model.len());
                assert(child_ch(model, model[i].children, a) < child_ch(
                    model,
                    model[i].children,
                    b,
                ));
            }
        }
        assert forall|i: int, j: int|
            0 <= i < after.len() && 0 <= j < after[i].children.len() implies i < (
        #[trigger] after[i].children[j]) < after.len() by {
            if i == parent {
                if j < k {
                    assert(model[i].children[j] == after[i].children[j]);
                } else if j > k {
                    assert(model[i].children[j - 1] == after[i].children[j]);
                }
            } else if i < model.len() {
                assert(model[i].children[j] == after[i].children[j]);
            }
        }
        assert forall|i: int, j: int|
            0 <= i < model.len() && 0 <= j < model[i].children.len() implies after[i].children.contains(
            #[trigger] model[i].children[j],
        ) by {
            if i == parent {
                if j < k {
                    assert(after[i].children[j] == model[i].children[j]);
                } else {
                    assert(after[i].children[j + 1] == model[i].children[j]);
                }
            } else {
                assert(after[i].children[j] == model[i].children[j]);
            }
        }
        assert(wf_model(after));
        assert(after[parent].children[k] == new_pos);
        assert(child_ch(after, after[parent].children, k) == ch);
        lemma_child_index_of(after, parent, k);
    }
}

/// The lower bound stands after the children with a smaller character and
/// before the others.
pub proof fn lemma_lower_bound_is(model: Seq<NodeModel>, children: Seq<usize>, ch: char)
    ensures
        spec_lower_bound(model, children, ch) <= children.len(),
        forall|j: int|
            0 <= j < spec_lower_bound(model, children, ch) ==> (#[trigger] child_ch(
                model,
                children,
                j,
            )) < ch,
        spec_lower_bound(model, children, ch) < children.len() ==> child_ch(
            model,
            children,
            spec_lower_bound(model, children, ch) as int,
        ) >= ch,
    decreases children.len(),
{
    if children.len() == 0 || child_ch(model, children, 0) >= ch {
    } else {
        let rest = children.drop_first();
        lemma_lower_bound_is(model, rest, ch);
        let k = spec_lower_bound(model, rest, ch);
        assert forall|j: int| 0 <= j < k + 1 implies (#[trigger] child_ch(model, children, j))
            < ch by {
            if j > 0 {
                assert(child_ch(model, children, j) == child_ch(model, rest, j - 1));
            }
        }
        if k + 1 < children.len() {
            assert(child_ch(model, children, k as int + 1) == child_ch(model, rest, k as int));
        }
    }
}

/// One more translation at a terminator leaves a well-formed trie with the
/// same nodes.
pub proof fn lemma_with_translation(model: Seq<NodeModel>, node: int, added: TranslationModel)
    requires
        wf_model(model),
        0 <= node < model.len(),
        model[node].is_terminator,
    ensures
        wf_model(spec_with_translation(model, node, added)),
        spec_extends(model, spec_with_translation(model, node, added)),
{
    let after = spec_with_translation(model, node, added);
    assert forall|i: int, a: int, b: int|
        0 <= i < after.len() && 0 <= a < b < after[i].children.len() implies (#[trigger] child_ch(
        after,
        after[i].children,
        a,
    )) < (#[trigger] child_ch(after, after[i].children, b)) by {
        assert(i < model[i].children[a] < model.len());
        assert(i < model[i].children[b] < model.len());
        assert(child_ch(model, model[i].children, a) < child_ch(model, model[i].children, b));
    }
    assert forall|i: int, j: int|
        0 <= i < after.len() && 0 <= j < after[i].children.len() implies i < (
    #[trigger] after[i].children[j]) < after.len() by {
        assert(model[i].children[j] == after[i].children[j]);
    }
    assert forall|i: int, j: int|
        0 <= i < model.len() && 0 <= j < model[i].children.len() implies after[i].children.contains(
        #[trigger] model[i].children[j],
    ) by {
        assert(after[i].children[j] == model[i].children[j]);
    }
}

/// Whether every child that a node names is a node of the trie.
pub open spec fn spec_children_in_bounds(model: Seq<NodeModel>) -> bool {
    forall|i: int, k: int|
        0 <= i < model.len() && 0 <= k < model[i].children.len() ==> (
        #[trigger] model[i].children[k]) < model.len()
}

/// Taking or making a child takes no node away and names no node that is
/// not there.
proof fn lemma_child_for_len(model: Seq<NodeModel>, parent: int, ch: char, is_terminator: bool)
    requires
        spec_children_in_bounds(model),
        0 <= parent < model.len(),
    ensures
        spec_children_in_bounds(spec_child_for(model, parent, ch, is_terminator).0),
        model.len() <= spec_child_for(model, parent, ch, is_terminator).0.len(),
        0 <= spec_child_for(model, parent, ch, is_terminator).1 < spec_child_for(
            model,
            parent,
            ch,
            is_terminator,
        ).0.len(),
{
    let children = model[parent].children;
    let k = spec_lower_bound(model, children, ch) as int;
    let (after, child) = spec_child_for(model, parent, ch, is_terminator);
    lemma_lower_bound_is(model, children, ch);
    if k < children.len() && child_ch(model, children, k) == ch {
        assert(children[k] < model.len());
    } else {
        assert forall|i: int, j: int|
            0 <= i < after.len() && 0 <= j < after[i].children.len() implies (
        #[trigger] after[i].children[j]) < after.len() by {
            if i == parent {
                if j < k {
                    assert(model[i].children[j] == after[i].children[j]);
                } else if j > k {
                    assert(model[i].children[j - 1] == after[i].children[j]);
                }
            } else if i < model.len() {
                assert(model[i].children[j] == after[i].children[j]);
            }
        }
    }
}

/// Putting a word in never takes a node away.
pub proof fn lemma_insert_len(
    model: Seq<NodeModel>,
    node: int,
    word: Seq<char>,
    added: TranslationModel,
)
    requires
        spec_children_in_bounds(model),
        0 <= node < model.len(),
    ensures
        model.len() <= spec_insert(model, node, word, added).len(),
        spec_children_in_bounds(spec_insert(model, node, word, added)),
    decreases word.len(),
{
    if word.len() > 0 {
        let (with_child, child) = spec_child_for(model, node, word[0], false);
        lemma_child_for_len(model, node, word[0], false);
        lemma_insert_len(with_child, child, word.drop_first(), added);
    } else {
        let (with_end, end) = spec_child_for(model, node, '\0', true);
        lemma_child_for_len(model, node, '\0', true);
        let after = spec_with_translation(with_end, end, added);
        assert forall|i: int, j: int|
            0 <= i < after.len() && 0 <= j < after[i].children.len() implies (
        #[trigger] after[i].children[j]) < after.len() by {
            assert(with_end[i].children[j] == after[i].children[j]);
        }
    }
}

/// Whether every item of the first list is an item of the second.
pub open spec fn spec_list_within<T>(first: Seq<T>, second: Seq<T>) -> bool {
    forall|j: int| 0 <= j < first.len() ==> second.contains(#[trigger] first[j])
}

/// A list with one more item holds the items that it held, and the new
/// one; and nothing else.
pub proof fn lemma_list_insert<T>(list: Seq<T>, at: int, item: T)
    requires
        0 <= at <= list.len(),
    ensures
        spec_list_within(list, list.insert(at, item)),
        list.insert(at, item).contains(item),
        forall|j: int|
            0 <= j < list.insert(at, item).len() ==> (#[trigger] list.insert(at, item)[j]) == item
                || list.contains(list.insert(at, item)[j]),
{
    let longer = list.insert(at, item);
    assert(longer[at] == item);
    assert forall|j: int| 0 <= j < list.len() implies longer.contains(#[trigger] list[j]) by {
        if j < at {
            assert(longer[j] == list[j]);
        } else {
            assert(longer[j + 1] == list[j]);
        }
    }
    assert forall|j: int| 0 <= j < longer.len() implies (#[trigger] longer[j]) == item
        || list.contains(longer[j]) by {
        if j < at {
            assert(list[j] == longer[j]);
        } else if j > at {
            assert(list[j - 1] == longer[j]);
        }
    }
}

/// Whether every translation of the trie `after` is a translation of the
/// same node in the trie `before`, or is `added`.
pub open spec fn spec_translations_from(
    before: Seq<NodeModel>,
    after: Seq<NodeModel>,
    added: TranslationModel,
) -> bool {
    forall|i: int, j: int|
        0 <= i < after.len() && 0 <= j < after[i].translations.len() ==> (
        #[trigger] after[i].translations[j]) == added || (i < before.len()
            && before[i].translations.contains(after[i].translations[j]))
}

/// Putting a word in leaves a well-formed trie that extends the one before
/// and holds the word; the translations are those that were there, and the
/// one that came with the word.
pub proof fn lemma_insert(model: Seq<NodeModel>, node: int, word: Seq<char>, added: TranslationModel)
    requires
        wf_model(model),
        0 <= node < model.len(),
        !model[node].is_terminator,
        forall|i: int| 0 <= i < word.len() ==> word[i] != '\0',
        spec_insert(model, node, word, added).len() <= usize::MAX,
    ensures
        wf_model(spec_insert(model, node, word, added)),
        spec_extends(model, spec_insert(model, node, word, added)),
        spec_path_bits(spec_insert(model, node, word, added), node, word) is Some,
        spec_translations_from(model, spec_insert(model, node, word, added), added),
    decreases word.len(),
{
    let after = spec_insert(model, node, word, added);
    if word.len() == 0 {
        let (with_end, end) = spec_child_for(model, node, '\0', true);
        lemma_child_for_len(model, node, '\0', true);
        lemma_child_for(model, node, '\0', true);
        lemma_with_translation(with_end, end, added);
        lemma_extends_transitive(model, with_end, after);
        let k = spec_child_index(with_end, node, '\0')->0 as int;
        assert(after[node].children == with_end[node].children);
        assert(child_ch(after, after[node].children, k) == '\0');
        lemma_child_index_of(after, node, k);
        let at = spec_priority_position(with_end[end].translations, added.priority) as int;
        lemma_priority_position_bound(with_end[end].translations, added.priority);
        lemma_list_insert(with_end[end].translations, at, added);
        assert forall|i: int, j: int|
            0 <= i < after.len() && 0 <= j < after[i].translations.len() implies (
        #[trigger] after[i].translations[j]) == added || (i < model.len()
            && model[i].translations.contains(after[i].translations[j])) by {
            assert(with_end[i].translations == (if i < model.len() {
                model[i].translations
            } else {
                Seq::empty()
            }));
            if i != end {
                assert(after[i].translations == with_end[i].translations);
                assert(model[i].translations[j] == after[i].translations[j]);
            }
        }
    } else {
        let (with_child, child) = spec_child_for(model, node, word[0], false);
        lemma_child_for_len(model, node, word[0], false);
        lemma_insert_len(with_child, child, word.drop_first(), added);
        lemma_child_for(model, node, word[0], false);
        lemma_insert(with_child, child, word.drop_first(), added);
        lemma_extends_transitive(model, with_child, after);
        let k = spec_child_index(with_child, node, word[0])->0 as int;
        assert(after[node].children.contains(with_child[node].children[k]));
        let place = choose|place: int|
            0 <= place < after[node].children.len() && after[node].children[place]
                == with_child[node].children[k];
        assert(after[child].ch == with_child[child].ch);
        lemma_child_index_of(after, node, place);
        assert forall|i: int, j: int|
            0 <= i < after.len() && 0 <= j < after[i].translations.len() implies (
        #[trigger] after[i].translations[j]) == added || (i < model.len()
            && model[i].translations.contains(after[i].translations[j])) by {
            if after[i].translations[j] != added {
                assert(with_child[i].translations == (if i < model.len() {
                    model[i].translations
                } else {
                    Seq::empty()
                }));
            }
        }
    }
}

/// Putting a word in below a node leaves no dead end, where there was none
/// but, at most, that node.
pub proof fn lemma_insert_no_dead_ends(
    model: Seq<NodeModel>,
    node: int,
    word: Seq<char>,
    added: TranslationModel,
)
    requires
        wf_model(model),
        0 <= node < model.len(),
        !model[node].is_terminator,
        forall|i: int| 0 <= i < word.len() ==> word[i] != '\0',
        spec_insert(model, node, word, added).len() <= usize::MAX,
        forall|i: int|
            0 < i < model.len() && i != node && !(#[trigger] model[i]).is_terminator
                ==> model[i].children.len() > 0,
    ensures
        spec_no_dead_ends(spec_insert(model, node, word, added)),
    decreases word.len(),
{
    let after = spec_insert(model, node, word, added);
    lemma_insert_len(model, node, word, added);
    if word.len() == 0 {
        let (with_end, end) = spec_child_for(model, node, '\0', true);
        lemma_child_for_len(model, node, '\0', true);
        lemma_child_for(model, node, '\0', true);
        assert forall|i: int|
            0 < i < after.len() && !(#[trigger] after[i]).is_terminator implies after[i].children.len()
            > 0 by {
            assert(after[i].children == with_end[i].children);
            if i != node {
                assert(i < model.len());
                assert(!model[i].is_terminator);
                assert(with_end[i].children.len() >= model[i].children.len());
            }
        }
    } else {
        let (with_child, child) = spec_child_for(model, node, word[0], false);
        lemma_child_for_len(model, node, word[0], false);
        lemma_insert_len(with_child, child, word.drop_first(), added);
        lemma_child_for(model, node, word[0], false);
        assert forall|i: int|
            0 < i < with_child.len() && i != child && !(#[trigger] with_child[i]).is_terminator implies with_child[i].children.len()
            > 0 by {
            if i != node {
                assert(i < model.len());
                assert(!model[i].is_terminator);
                assert(with_child[i].children.len() >= model[i].children.len());
            }
        }
        lemma_insert_no_dead_ends(with_child, child, word.drop_first(), added);
    }
}

/// All the entries of a list, starting at a place, are words of the trie
/// when each of them is.
pub proof fn lemma_translations_present(
    model: Seq<NodeModel>,
    translations: Seq<TranslationModel>,
    i: int,
)
    requires
        0 <= i,
    ensures
        spec_translations_present(model, translations, i) == (forall|j: int|
            i <= j < translations.len() ==> spec_path_bits(
                model,
                0,
                (#[trigger] translations[j]).value,
            ) is Some),
    decreases translations.len() - i,
{
    if i < translations.len() {
        lemma_translations_present(model, translations, i + 1);
        if spec_translations_present(model, translations, i) {
            assert forall|j: int| i <= j < translations.len() implies spec_path_bits(
                model,
                0,
                (#[trigger] translations[j]).value,
            ) is Some by {
                if j > i {
                }
            }
        } else {
            if spec_path_bits(model, 0, translations[i].value) is Some {
            }
        }
    }
}

/// A trie in which every translation is itself a word stays so when a pair
/// of words is added: each of the two is the translation of the other, and
/// both are put in.  It stays well formed and without dead ends, and its
/// tags stay within their seven bits.
pub proof fn law_add_entry_keeps_paths(
    model: Seq<NodeModel>,
    word: Seq<char>,
    translation: Seq<char>,
    payload_byte: u8,
    article_num: u16,
    priority: u32,
)
    requires
        wf_model(model),
        spec_paths_present(model),
        forall|i: int| 0 <= i < word.len() ==> word[i] != '\0',
        forall|i: int| 0 <= i < translation.len() ==> translation[i] != '\0',
        spec_add_entry(model, word, translation, payload_byte, article_num, priority).len()
            <= usize::MAX,
    ensures
        wf_model(spec_add_entry(model, word, translation, payload_byte, article_num, priority)),
        spec_paths_present(
            spec_add_entry(model, word, translation, payload_byte, article_num, priority),
        ),
        spec_extends(
            model,
            spec_add_entry(model, word, translation, payload_byte, article_num, priority),
        ),
        spec_path_bits(
            spec_add_entry(model, word, translation, payload_byte, article_num, priority),
            0,
            word,
        ) is Some,
        spec_path_bits(
            spec_add_entry(model, word, translation, payload_byte, article_num, priority),
            0,
            translation,
        ) is Some,
        spec_payload_bytes_ok(model) && payload_byte < 0x80 ==> spec_payload_bytes_ok(
            spec_add_entry(model, word, translation, payload_byte, article_num, priority),
        ),
        spec_no_dead_ends(model) ==> spec_no_dead_ends(
            spec_add_entry(model, word, translation, payload_byte, article_num, priority),
        ),
{
    let first = TranslationModel { payload_byte, article_num, priority, value: translation };
    let second = TranslationModel { payload_byte, article_num, priority, value: word };
    let middle = spec_insert(model, 0, word, first);
    let after = spec_insert(middle, 0, translation, second);
    lemma_insert_len(model, 0, word, first);
    lemma_insert_len(middle, 0, translation, second);
    lemma_insert(model, 0, word, first);
    lemma_insert(middle, 0, translation, second);
    lemma_extends_transitive(model, middle, after);
    lemma_extends_path(middle, after, 0, word);
    assert forall|i: int| 0 <= i < after.len() implies spec_translations_present(
        after,
        (#[trigger] after[i]).translations,
        0,
    ) by {
        lemma_translations_present(after, after[i].translations, 0);
        assert forall|j: int| 0 <= j < after[i].translations.len() implies spec_path_bits(
            after,
            0,
            (#[trigger] after[i].translations[j]).value,
        ) is Some by {
            let t = after[i].translations[j];
            if t != second {
                assert(middle[i].translations.contains(t));
                let in_middle = choose|at: int|
                    0 <= at < middle[i].translations.len() && middle[i].translations[at] == t;
                if t != first {
                    assert(model[i].translations.contains(middle[i].translations[in_middle]));
                    let in_model = choose|at: int|
                        0 <= at < model[i].translations.len() && model[i].translations[at] == t;
                    assert(spec_translations_present(model, model[i].translations, 0));
                    lemma_translations_present(model, model[i].translations, 0);
                    assert(spec_path_bits(model, 0, model[i].translations[in_model].value) is Some);
                    lemma_extends_path(model, after, 0, t.value);
                }
            }
        }
    }
    if spec_payload_bytes_ok(model) && payload_byte < 0x80 {
        assert forall|i: int, j: int|
            0 <= i < after.len() && 0 <= j < after[i].translations.len() implies (
        #[trigger] after[i].translations[j]).payload_byte < 0x80 by {
            let t = after[i].translations[j];
            if t != second {
                assert(middle[i].translations.contains(t));
                let in_middle = choose|at: int|
                    0 <= at < middle[i].translations.len() && middle[i].translations[at] == t;
                if t != first {
                    assert(model[i].translations.contains(middle[i].translations[in_middle]));
                    let in_model = choose|at: int|
                        0 <= at < model[i].translations.len() && model[i].translations[at] == t;
                    assert(model[i].translations[in_model].payload_byte < 0x80);
                }
            }
        }
    }
    if spec_no_dead_ends(model) {
        lemma_insert_no_dead_ends(model, 0, word, first);
        lemma_insert_no_dead_ends(middle, 0, translation, second);
    }
}

/// The number at the front of a node says where the node ends.  When the
/// bytes of a node are read back, whatever follows them, the number found is
/// the number of the node.  Its lowest bit says whether the node has
/// children, and the rest of it is the distance to the next sibling.  That
/// distance is zero for the last of its siblings, and else leads from the end
/// of the number to the end of the node, where the next sibling starts.
pub proof fn law_header_fixpoint(
    model: Seq<NodeModel>,
    node: int,
    is_last: bool,
    rest: Seq<u8>,
)
    requires
        spec_n_bytes_for_size(
            spec_node_data_number(
                spec_body(model, node).len(),
                is_last,
                model[node].children.len() > 0,
            ),
        ) * 7 <= usize::BITS,
    ensures
        spec_offset_from(spec_subtree(model, node, is_last) + rest, 0, 0) matches Ok(
            (number, len),
        ) && {
            &&& number % 2 == (if model[node].children.len() > 0 {
                1nat
            } else {
                0nat
            })
            &&& is_last ==> number / 2 == 0
            &&& !is_last ==> len + number / 2 == spec_subtree(model, node, is_last).len()
        },
{
    let body = spec_body(model, node);
    let number = spec_node_data_number(body.len(), is_last, model[node].children.len() > 0);
    law_offset_round_trip(number, body + rest);
    lemma_encode_offset_len(number);
    assert(spec_encode_offset(number) + (body + rest) =~= spec_subtree(
        model,
        node,
        is_last,
    ) + rest);
}

/// The bits of an index spell the index.
pub proof fn lemma_value_of_index_bits(index: nat, width: nat)
    requires
        width <= 64,
        spec_bit_length(index) <= width,
    ensures
        spec_index_bits(index, width).len() == width,
        value_of_bits(spec_index_bits(index, width)) == index,
{
    lemma_bit_length_bound(index, width);
    lemma_pow2_32();
    if width <= 32 {
        lemma_value_of_low_bits_of(index, width);
    } else {
        let low = index % 0x1_0000_0000;
        let high = index / 0x1_0000_0000;
        lemma_pow2_add(32, (width - 32) as nat);
        let p = pow2((width - 32) as nat) as int;
        assert(high < p) by (nonlinear_arith)
            requires
                index < 0x1_0000_0000 * p,
                high == index / 0x1_0000_0000,
                index >= 0,
        ;
        lemma_value_of_low_bits_of(low, 32);
        lemma_value_of_low_bits_of(high, (width - 32) as nat);
        lemma_value_of_bits_concat(
            low_bits(low as u32, 32),
            low_bits(high as u32, (width - 32) as nat),
        );
        assert(low + 0x1_0000_0000 * high == index);
        assert(spec_index_bits(index, width) == low_bits(low as u32, 32) + low_bits(
            high as u32,
            (width - 32) as nat,
        ));
    }
}

/// A node has no more children than there are characters.
pub proof fn lemma_children_count(model: Seq<NodeModel>, node: int, k: int)
    requires
        wf_model(model),
        0 <= node < model.len(),
        0 <= k < model[node].children.len(),
    ensures
        k <= child_ch(model, model[node].children, k) as int <= 0x10_ffff,
    decreases k,
{
    if k > 0 {
        lemma_children_count(model, node, k - 1);
        assert(child_ch(model, model[node].children, k - 1) < child_ch(
            model,
            model[node].children,
            k,
        ));
    }
}

/// The word that a path leads to: from `node` on, each run of bits of the
/// path, as long as an index among the children takes, chooses a child, up
/// to a terminator.  Nothing where the path leads nowhere.
pub open spec fn spec_walk_model(model: Seq<NodeModel>, node: int, bits: Seq<bool>, from: int) -> Option<
    Seq<char>,
>
    decreases model.len() - node,
{
    let children = model[node].children;
    let width = spec_child_index_width(model, node) as int;
    if node < 0 || node >= model.len() || children.len() == 0 || from < 0 || from + width
        > bits.len() {
        None
    } else {
        let index = value_of_bits(bits.subrange(from, from + width)) as int;
        if index >= children.len() || children[index] <= node || children[index] >= model.len() {
            None
        } else if model[children[index] as int].is_terminator {
            Some(Seq::empty())
        } else {
            match spec_walk_model(model, children[index] as int, bits, from + width) {
                None => None,
                Some(rest) => Some(seq![model[children[index] as int].ch] + rest),
            }
        }
    }
}

/// Round trip of a path: the path to a word, walked from where it starts,
/// leads to the word, whatever bits follow it.
pub proof fn law_path_round_trip(
    model: Seq<NodeModel>,
    node: int,
    word: Seq<char>,
    before: Seq<bool>,
    after: Seq<bool>,
)
    requires
        wf_model(model),
        0 <= node < model.len(),
        forall|i: int| 0 <= i < word.len() ==> word[i] != '\0',
        spec_path_bits(model, node, word) is Some,
    ensures
        spec_walk_model(
            model,
            node,
            before + spec_path_bits(model, node, word)->0 + after,
            before.len() as int,
        ) == Some(word),
    decreases word.len(),
{
    let path = spec_path_bits(model, node, word)->0;
    let bits = before + path + after;
    let ch = if word.len() == 0 {
        '\0'
    } else {
        word[0]
    };
    let k = spec_child_index(model, node, ch)->0;
    let children = model[node].children;
    let width = spec_child_index_width(model, node);
    let index_bits = spec_index_bits(k, width);
    let child = children[k as int];
    assert(node < child < model.len());
    lemma_bit_length_monotone(k, (children.len() - 1) as nat);
    lemma_children_count(model, node, children.len() - 1);
    lemma_bit_length_monotone((children.len() - 1) as nat, usize::MAX as nat);
    lemma_usize_bit_length();
    lemma_value_of_index_bits(k, width);
    if word.len() == 0 {
        assert(bits.subrange(before.len() as int, (before.len() + width) as int) =~= index_bits);
    } else {
        let tail = spec_path_bits(model, child as int, word.drop_first())->0;
        assert(bits.subrange(before.len() as int, (before.len() + width) as int) =~= index_bits);
        law_path_round_trip(model, child as int, word.drop_first(), before + index_bits, after);
        assert(before + index_bits + tail + after =~= bits);
        assert(seq![word[0]] + word.drop_first() =~= word);
    }
}

/// A number below two to the power `width` has at most `width` binary
/// digits.
pub proof fn lemma_bit_length_below(m: nat, width: nat)
    requires
        m < pow2(width),
    ensures
        spec_bit_length(m) <= width,
    decreases width,
{
    if m > 0 {
        assert(width > 0);
        assert(pow2(width) == 2 * pow2((width - 1) as nat));
        lemma_bit_length_below(m / 2, (width - 1) as nat);
    }
}

/// A machine word has no more than sixty-four binary digits.
pub proof fn lemma_usize_bit_length()
    ensures
        spec_bit_length(usize::MAX as nat) <= 64,
{
    lemma_pow2_32();
    lemma_pow2_add(32, 32);
    assert(pow2(64) == 0x1_0000_0000_0000_0000) by (nonlinear_arith)
        requires
            pow2(64) == pow2(32) * pow2(32),
            pow2(32) == 0x1_0000_0000,
    ;
    lemma_bit_length_below(usize::MAX as nat, 64);
}

/// The terminator that `word` leads to from `node`, if the trie holds the
/// word there.
pub open spec fn spec_terminator(model: Seq<NodeModel>, node: int, word: Seq<char>) -> Option<int>
    decreases word.len(),
{
    let ch = if word.len() == 0 {
        '\0'
    } else {
        word[0]
    };
    match spec_child_index(model, node, ch) {
        None => None,
        Some(k) => {
            if word.len() == 0 {
                Some(model[node].children[k as int] as int)
            } else {
                spec_terminator(model, model[node].children[k as int] as int, word.drop_first())
            }
        },
    }
}

/// A word leads to the same terminator in every trie that extends the one
/// that holds it.
pub proof fn lemma_extends_terminator(
    before: Seq<NodeModel>,
    after: Seq<NodeModel>,
    node: int,
    word: Seq<char>,
)
    requires
        wf_model(before),
        wf_model(after),
        spec_extends(before, after),
        0 <= node < before.len(),
        spec_terminator(before, node, word) is Some,
    ensures
        spec_terminator(after, node, word) == spec_terminator(before, node, word),
        0 <= spec_terminator(before, node, word)->0 < before.len(),
    decreases word.len(),
{
    let ch = if word.len() == 0 {
        '\0'
    } else {
        word[0]
    };
    let k = spec_child_index(before, node, ch)->0 as int;
    let child = before[node].children[k];
    assert(node < child < before.len());
    assert(after[node].children.contains(child));
    let j = choose|j: int| 0 <= j < after[node].children.len() && after[node].children[j] == child;
    assert(after[child as int].ch == before[child as int].ch);
    lemma_child_index_of(after, node, j);
    if word.len() > 0 {
        lemma_extends_terminator(before, after, child as int, word.drop_first());
    }
}

/// Whether the trie `after` holds every translation of the trie `before`,
/// each at its node.
pub open spec fn spec_keeps_translations(before: Seq<NodeModel>, after: Seq<NodeModel>) -> bool {
    forall|i: int|
        0 <= i < before.len() ==> i < after.len() && spec_list_within(
            (#[trigger] before[i]).translations,
            after[i].translations,
        )
}

/// Putting a word in keeps the translations that were there and puts the
/// one that came with the word among those at the terminator of the word.
pub proof fn lemma_insert_translations(
    model: Seq<NodeModel>,
    node: int,
    word: Seq<char>,
    added: TranslationModel,
)
    requires
        wf_model(model),
        0 <= node < model.len(),
        !model[node].is_terminator,
        forall|i: int| 0 <= i < word.len() ==> word[i] != '\0',
        spec_insert(model, node, word, added).len() <= usize::MAX,
    ensures
        spec_keeps_translations(model, spec_insert(model, node, word, added)),
        spec_terminator(spec_insert(model, node, word, added), node, word) is Some,
        0 <= spec_terminator(spec_insert(model, node, word, added), node, word)->0 < spec_insert(
            model,
            node,
            word,
            added,
        ).len(),
        spec_insert(model, node, word, added)[spec_terminator(
            spec_insert(model, node, word, added),
            node,
            word,
        )->0].translations.contains(added),
    decreases word.len(),
{
    let after = spec_insert(model, node, word, added);
    lemma_insert_len(model, node, word, added);
    if word.len() == 0 {
        let (with_end, end) = spec_child_for(model, node, '\0', true);
        lemma_child_for_len(model, node, '\0', true);
        lemma_child_for(model, node, '\0', true);
        lemma_with_translation(with_end, end, added);
        let k = spec_child_index(with_end, node, '\0')->0 as int;
        assert(after[node].children == with_end[node].children);
        assert(child_ch(after, after[node].children, k) == '\0');
        lemma_child_index_of(after, node, k);
        let at = spec_priority_position(with_end[end].translations, added.priority) as int;
        lemma_priority_position_bound(with_end[end].translations, added.priority);
        lemma_list_insert(with_end[end].translations, at, added);
        assert forall|i: int| 0 <= i < model.len() implies i < after.len() && spec_list_within(
            (#[trigger] model[i]).translations,
            after[i].translations,
        ) by {
            assert(with_end[i].translations == model[i].translations);
            if i != end {
                assert(after[i].translations == with_end[i].translations);
                assert forall|j: int| 0 <= j < model[i].translations.len() implies after[i].translations.contains(
                    #[trigger] model[i].translations[j],
                ) by {
                    assert(after[i].translations[j] == model[i].translations[j]);
                }
            }
        }
    } else {
        let (with_child, child) = spec_child_for(model, node, word[0], false);
        lemma_child_for_len(model, node, word[0], false);
        lemma_insert_len(with_child, child, word.drop_first(), added);
        lemma_child_for(model, node, word[0], false);
        lemma_insert(with_child, child, word.drop_first(), added);
        lemma_insert_translations(with_child, child, word.drop_first(), added);
        let k = spec_child_index(with_child, node, word[0])->0 as int;
        assert(after[node].children.contains(with_child[node].children[k]));
        let place = choose|place: int|
            0 <= place < after[node].children.len() && after[node].children[place]
                == with_child[node].children[k];
        assert(after[child].ch == with_child[child].ch);
        lemma_child_index_of(after, node, place);
        assert forall|i: int| 0 <= i < model.len() implies i < after.len() && spec_list_within(
            (#[trigger] model[i]).translations,
            after[i].translations,
        ) by {
            assert(with_child[i].translations == model[i].translations);
            assert(spec_list_within(with_child[i].translations, after[i].translations));
        }
    }
}

/// Round trip of a pair of words, in the trie: after the pair was added,
/// each of the two leads to a terminator that holds the other as a
/// translation, with the tag and the article that were given; and the path
/// to each, walked from the root, spells it.
pub proof fn law_add_entry_round_trip(
    model: Seq<NodeModel>,
    word: Seq<char>,
    translation: Seq<char>,
    payload_byte: u8,
    article_num: u16,
    priority: u32,
)
    requires
        wf_model(model),
        spec_paths_present(model),
        forall|i: int| 0 <= i < word.len() ==> word[i] != '\0',
        forall|i: int| 0 <= i < translation.len() ==> translation[i] != '\0',
        spec_add_entry(model, word, translation, payload_byte, article_num, priority).len()
            <= usize::MAX,
    ensures
        spec_terminator(
            spec_add_entry(model, word, translation, payload_byte, article_num, priority),
            0,
            word,
        ) matches Some(end) && spec_add_entry(
            model,
            word,
            translation,
            payload_byte,
            article_num,
            priority,
        )[end].translations.contains(
            TranslationModel { payload_byte, article_num, priority, value: translation },
        ),
        spec_terminator(
            spec_add_entry(model, word, translation, payload_byte, article_num, priority),
            0,
            translation,
        ) matches Some(end) && spec_add_entry(
            model,
            word,
            translation,
            payload_byte,
            article_num,
            priority,
        )[end].translations.contains(
            TranslationModel { payload_byte, article_num, priority, value: word },
        ),
        spec_path_bits(
            spec_add_entry(model, word, translation, payload_byte, article_num, priority),
            0,
            word,
        ) matches Some(path) && spec_walk_model(
            spec_add_entry(model, word, translation, payload_byte, article_num, priority),
            0,
            path,
            0,
        ) == Some(word),
        spec_path_bits(
            spec_add_entry(model, word, translation, payload_byte, article_num, priority),
            0,
            translation,
        ) matches Some(path) && spec_walk_model(
            spec_add_entry(model, word, translation, payload_byte, article_num, priority),
            0,
            path,
            0,
        ) == Some(translation),
{
    let first = TranslationModel { payload_byte, article_num, priority, value: translation };
    let second = TranslationModel { payload_byte, article_num, priority, value: word };
    let middle = spec_insert(model, 0, word, first);
    let after = spec_insert(middle, 0, translation, second);
    lemma_insert_len(model, 0, word, first);
    lemma_insert_len(middle, 0, translation, second);
    lemma_insert(model, 0, word, first);
    lemma_insert(middle, 0, translation, second);
    lemma_insert_translations(model, 0, word, first);
    lemma_insert_translations(middle, 0, translation, second);
    law_add_entry_keeps_paths(model, word, translation, payload_byte, article_num, priority);
    let word_end = spec_terminator(middle, 0, word)->0;
    lemma_extends_terminator(middle, after, 0, word);
    let at = choose|at: int|
        0 <= at < middle[word_end].translations.len() && middle[word_end].translations[at]
            == first;
    assert(spec_list_within(middle[word_end].translations, after[word_end].translations));
    assert(after[word_end].translations.contains(middle[word_end].translations[at]));
    let word_path = spec_path_bits(after, 0, word)->0;
    let translation_path = spec_path_bits(after, 0, translation)->0;
    law_path_round_trip(after, 0, word, Seq::empty(), Seq::empty());
    law_path_round_trip(after, 0, translation, Seq::empty(), Seq::empty());
    assert(Seq::<bool>::empty() + word_path + Seq::<bool>::empty() =~= word_path);
    assert(Seq::<bool>::empty() + translation_path + Seq::<bool>::empty() =~= translation_path);
}

/// The words that the trie holds below the children of `node` from child
/// `k` on, each with its terminator, `prefix` being the characters that
/// lead to `node`: the words below each child in turn, the children in their
/// order.
pub open spec fn spec_words_from(
    model: Seq<NodeModel>,
    node: int,
    k: int,
    prefix: Seq<char>,
) -> Seq<(Seq<char>, int)>
    decreases model.len() - node, model[node].children.len() - k,
{
    let children = model[node].children;
    if k < 0 || k >= children.len() || children[k] <= node || children[k] >= model.len() {
        Seq::empty()
    } else {
        let child = children[k] as int;
        (if model[child].is_terminator {
            seq![(prefix, child)]
        } else {
            spec_words_from(model, child, 0, prefix.push(model[child].ch))
        }) + spec_words_from(model, node, k + 1, prefix)
    }
}

/// All the words that the trie holds, each with its terminator.
pub open spec fn spec_words(model: Seq<NodeModel>) -> Seq<(Seq<char>, int)> {
    spec_words_from(model, 0, 0, Seq::empty())
}

/// Where no way down the trie is a dead end, there is a word below every
/// child.
pub proof fn lemma_words_from_nonempty(
    model: Seq<NodeModel>,
    node: int,
    k: int,
    prefix: Seq<char>,
)
    requires
        wf_model(model),
        spec_no_dead_ends(model),
        0 <= node < model.len(),
        0 <= k < model[node].children.len(),
    ensures
        spec_words_from(model, node, k, prefix).len() > 0,
    decreases model.len() - node,
{
    let child = model[node].children[k] as int;
    assert(node < model[node].children[k] < model.len());
    if !model[child].is_terminator {
        lemma_words_from_nonempty(model, child, 0, prefix.push(model[child].ch));
    }
}

/// The words below a child are among the words below the children from an
/// earlier child on.
proof fn lemma_words_from_later(
    model: Seq<NodeModel>,
    node: int,
    j: int,
    k: int,
    prefix: Seq<char>,
    at: int,
)
    requires
        wf_model(model),
        0 <= node < model.len(),
        0 <= j <= k < model[node].children.len(),
        0 <= at < spec_words_from(model, node, k, prefix).len(),
    ensures
        spec_words_from(model, node, j, prefix).contains(
            spec_words_from(model, node, k, prefix)[at],
        ),
    decreases k - j,
{
    let later = spec_words_from(model, node, k, prefix);
    if j < k {
        lemma_words_from_later(model, node, j + 1, k, prefix, at);
        assert(node < model[node].children[j] < model.len());
        let next = spec_words_from(model, node, j + 1, prefix);
        let here = spec_words_from(model, node, j, prefix);
        let shift = here.len() - next.len();
        let found = choose|found: int| 0 <= found < next.len() && next[found] == later[at];
        assert(here[shift + found] == next[found]);
    } else {
        assert(later[at] == later[at]);
    }
}

/// The list of the words of a trie is complete: a word that the trie holds
/// below a node is in the list of the words below that node, with its
/// terminator and after the characters that lead to the node.
pub proof fn law_words_complete(
    model: Seq<NodeModel>,
    node: int,
    prefix: Seq<char>,
    word: Seq<char>,
)
    requires
        wf_model(model),
        0 <= node < model.len(),
        forall|i: int| 0 <= i < word.len() ==> word[i] != '\0',
        spec_terminator(model, node, word) is Some,
    ensures
        spec_words_from(model, node, 0, prefix).contains(
            (prefix + word, spec_terminator(model, node, word)->0),
        ),
    decreases word.len(),
{
    let ch = if word.len() == 0 {
        '\0'
    } else {
        word[0]
    };
    let k = spec_child_index(model, node, ch)->0 as int;
    let child = model[node].children[k] as int;
    let end = spec_terminator(model, node, word)->0;
    assert(node < model[node].children[k] < model.len());
    let below = spec_words_from(model, node, k, prefix);
    if word.len() == 0 {
        assert(model[child].is_terminator);
        assert(prefix + word =~= prefix);
        assert(below[0] == (prefix, child));
        lemma_words_from_later(model, node, 0, k, prefix, 0);
    } else {
        assert(!model[child].is_terminator);
        law_words_complete(model, child, prefix.push(ch), word.drop_first());
        assert(prefix.push(ch) + word.drop_first() =~= prefix + word);
        let deeper = spec_words_from(model, child, 0, prefix.push(ch));
        let at = choose|at: int| 0 <= at < deeper.len() && deeper[at] == (prefix + word, end);
        assert(below[at] == deeper[at]);
        lemma_words_from_later(model, node, 0, k, prefix, at);
    }
}

/// Whether the word `a` comes before the word `b` because of what stands
/// at place `i`: up to there they are the same, and there `a` ends and `b`
/// does not, or `a` has the smaller character.
pub open spec fn spec_lex_lt_at(a: Seq<char>, b: Seq<char>, i: int) -> bool {
    &&& 0 <= i <= a.len()
    &&& i <= b.len()
    &&& a.take(i) == b.take(i)
    &&& (i == a.len() && i < b.len()) || (i < a.len() && i < b.len() && a[i] < b[i])
}

/// Whether the word `a` comes before the word `b` in the order of the
/// dictionary: the order of their characters, a word before the words that
/// start with it.
pub open spec fn spec_lex_lt(a: Seq<char>, b: Seq<char>) -> bool {
    exists|i: int| spec_lex_lt_at(a, b, i)
}

/// Whether each word of the list comes before those that follow it.
pub open spec fn spec_words_ascending(words: Seq<(Seq<char>, int)>) -> bool {
    forall|i: int, j: int|
        0 <= i < j < words.len() ==> spec_lex_lt((#[trigger] words[i]).0, (#[trigger] words[j]).0)
}

/// Whether a word lies below the children of a node from a child on that
/// has the character `least`: it starts with the characters that lead to the
/// node; where it ends there that child is a terminator; where it goes on,
/// it goes on with the character of that child or a greater one.
pub open spec fn spec_word_below(prefix: Seq<char>, least: char, word: Seq<char>) -> bool {
    &&& prefix.len() <= word.len()
    &&& word.take(prefix.len() as int) == prefix
    &&& word.len() == prefix.len() ==> least == '\0'
    &&& word.len() > prefix.len() ==> word[prefix.len() as int] >= least && word[prefix.len() as int]
        != '\0'
}

/// The words below the children of a node, from a child on, lie below
/// them, and each comes before those that follow it.
pub proof fn lemma_words_from_ascending(model: Seq<NodeModel>, node: int, k: int, prefix: Seq<char>)
    requires
        wf_model(model),
        0 <= node < model.len(),
        0 <= k < model[node].children.len(),
    ensures
        forall|i: int|
            0 <= i < spec_words_from(model, node, k, prefix).len() ==> spec_word_below(
                prefix,
                child_ch(model, model[node].children, k),
                (#[trigger] spec_words_from(model, node, k, prefix)[i]).0,
            ),
        spec_words_ascending(spec_words_from(model, node, k, prefix)),
    decreases model.len() - node, model[node].children.len() - k,
{
    let children = model[node].children;
    let child = children[k] as int;
    let ch = child_ch(model, children, k);
    assert(node < children[k] < model.len());
    let n = prefix.len() as int;
    let first = if model[child].is_terminator {
        seq![(prefix, child)]
    } else {
        spec_words_from(model, child, 0, prefix.push(ch))
    };
    let rest = spec_words_from(model, node, k + 1, prefix);
    let all = spec_words_from(model, node, k, prefix);
    assert(all == first + rest);
    if k + 1 < children.len() {
        lemma_words_from_ascending(model, node, k + 1, prefix);
        assert(ch < child_ch(model, children, k + 1));
    }
    if model[child].is_terminator {
        assert(prefix.take(n) =~= prefix);
    } else {
        if model[child].children.len() > 0 {
            lemma_words_from_ascending(model, child, 0, prefix.push(ch));
        }
        assert forall|i: int| 0 <= i < first.len() implies spec_word_below(
            prefix,
            ch,
            (#[trigger] first[i]).0,
        ) && first[i].0[n] == ch by {
            let word = first[i].0;
            assert(spec_word_below(
                prefix.push(ch),
                child_ch(model, model[child].children, 0),
                word,
            ));
            assert(word.take(n + 1)[n] == ch);
            assert(word.take(n) =~= word.take(n + 1).take(n));
            assert(prefix.push(ch).take(n) =~= prefix);
        }
    }
    assert forall|i: int| 0 <= i < all.len() implies spec_word_below(
        prefix,
        ch,
        (#[trigger] all[i]).0,
    ) by {
        if i < first.len() {
            assert(all[i] == first[i]);
        } else {
            assert(all[i] == rest[i - first.len()]);
            assert(spec_word_below(
                prefix,
                child_ch(model, children, k + 1),
                rest[i - first.len()].0,
            ));
        }
    }
    assert forall|i: int, j: int| 0 <= i < j < all.len() implies spec_lex_lt(
        (#[trigger] all[i]).0,
        (#[trigger] all[j]).0,
    ) by {
        if j < first.len() {
            assert(all[i] == first[i]);
            assert(all[j] == first[j]);
            assert(spec_lex_lt(first[i].0, first[j].0));
        } else if i >= first.len() {
            assert(all[i] == rest[i - first.len()]);
            assert(all[j] == rest[j - first.len()]);
            assert(spec_lex_lt(rest[i - first.len()].0, rest[j - first.len()].0));
        } else {
            let a = all[i].0;
            let b = all[j].0;
            assert(all[i] == first[i]);
            assert(all[j] == rest[j - first.len()]);
            assert(spec_word_below(prefix, child_ch(model, children, k + 1), b));
            assert(spec_word_below(prefix, ch, a));
            assert(a.take(n) == b.take(n));
            if model[child].is_terminator {
                assert(a == prefix);
            } else {
                assert(first[i].0[n] == ch);
            }
            assert(spec_lex_lt_at(a, b, n));
        }
    }
}

/// The list of the words of a trie is in the order of the dictionary: each
/// word comes before those that follow it, so that no word is there twice.
pub proof fn law_words_ascending(model: Seq<NodeModel>)
    requires
        wf_model(model),
    ensures
        spec_words_ascending(spec_words(model)),
{
    if model[0].children.len() > 0 {
        lemma_words_from_ascending(model, 0, 0, Seq::empty());
    }
}

/// Whether the translations of a list stand in the order of their ranks.
pub open spec fn spec_ranked_list(list: Seq<TranslationModel>) -> bool {
    forall|a: int, b: int|
        0 <= a < b < list.len() ==> (#[trigger] list[a]).priority <= (#[trigger] list[b]).priority
}

/// Whether the translations of each word of the trie stand in the order of
/// their ranks.
pub open spec fn spec_ranked(model: Seq<NodeModel>) -> bool {
    forall|i: int| 0 <= i < model.len() ==> spec_ranked_list((#[trigger] model[i]).translations)
}

/// Before the place where a translation joins a list stand those whose rank
/// is no greater than its own, and at that place one whose rank is greater.
pub proof fn lemma_priority_position_is(translations: Seq<TranslationModel>, priority: u32)
    ensures
        spec_priority_position(translations, priority) <= translations.len(),
        forall|j: int|
            0 <= j < spec_priority_position(translations, priority) ==> (
            #[trigger] translations[j]).priority <= priority,
        spec_priority_position(translations, priority) < translations.len()
            ==> translations[spec_priority_position(translations, priority) as int].priority
            > priority,
    decreases translations.len(),
{
    if translations.len() > 0 && translations[0].priority <= priority {
        let rest = translations.drop_first();
        lemma_priority_position_is(rest, priority);
        let at = spec_priority_position(rest, priority) as int;
        assert forall|j: int| 0 <= j < at + 1 implies (#[trigger] translations[j]).priority
            <= priority by {
            if j > 0 {
                assert(rest[j - 1] == translations[j]);
            }
        }
        if at < rest.len() {
            assert(rest[at] == translations[at + 1]);
        }
    }
}

/// A list in the order of its ranks stays so when a translation joins it at
/// the place that its rank gives it: after all those that were there with
/// the same rank or a smaller one, and before all those with a greater.
pub proof fn lemma_ranked_insert(list: Seq<TranslationModel>, added: TranslationModel)
    requires
        spec_ranked_list(list),
    ensures
        spec_ranked_list(
            list.insert(spec_priority_position(list, added.priority) as int, added),
        ),
        forall|j: int|
            0 <= j < spec_priority_position(list, added.priority) ==> (#[trigger] list[j]).priority
                <= added.priority,
        forall|j: int|
            spec_priority_position(list, added.priority) <= j < list.len() ==> (
            #[trigger] list[j]).priority > added.priority,
{
    let at = spec_priority_position(list, added.priority) as int;
    let after = list.insert(at, added);
    lemma_priority_position_is(list, added.priority);
    assert forall|j: int| at <= j < list.len() implies (#[trigger] list[j]).priority
        > added.priority by {
        if at < j {
            assert(list[at].priority <= list[j].priority);
        }
    }
    assert forall|a: int, b: int| 0 <= a < b < after.len() implies (#[trigger] after[a]).priority
        <= (#[trigger] after[b]).priority by {
        let before_a = if a < at {
            a
        } else {
            a - 1
        };
        let before_b = if b < at {
            b
        } else {
            b - 1
        };
        if a != at {
            assert(after[a] == list[before_a]);
        }
        if b != at {
            assert(after[b] == list[before_b]);
        }
        if a != at && b != at {
            assert(list[before_a].priority <= list[before_b].priority);
        }
    }
}

/// Putting a word in below a node leaves the translations of each word in
/// the order of their ranks.
pub proof fn lemma_insert_ranked(
    model: Seq<NodeModel>,
    node: int,
    word: Seq<char>,
    added: TranslationModel,
)
    requires
        wf_model(model),
        spec_ranked(model),
        0 <= node < model.len(),
        !model[node].is_terminator,
        forall|i: int| 0 <= i < word.len() ==> word[i] != '\0',
        spec_insert(model, node, word, added).len() <= usize::MAX,
    ensures
        spec_ranked(spec_insert(model, node, word, added)),
    decreases word.len(),
{
    let after = spec_insert(model, node, word, added);
    lemma_insert_len(model, node, word, added);
    if word.len() == 0 {
        let (with_end, end) = spec_child_for(model, node, '\0', true);
        lemma_child_for_len(model, node, '\0', true);
        lemma_child_for(model, node, '\0', true);
        assert(spec_ranked_list(with_end[end].translations));
        lemma_ranked_insert(with_end[end].translations, added);
        assert forall|i: int| 0 <= i < after.len() implies spec_ranked_list(
            (#[trigger] after[i]).translations,
        ) by {
            if i != end {
                assert(after[i].translations == with_end[i].translations);
                assert(spec_ranked_list(with_end[i].translations));
            }
        }
    } else {
        let (with_child, child) = spec_child_for(model, node, word[0], false);
        lemma_child_for_len(model, node, word[0], false);
        lemma_insert_len(with_child, child, word.drop_first(), added);
        lemma_child_for(model, node, word[0], false);
        assert forall|i: int| 0 <= i < with_child.len() implies spec_ranked_list(
            (#[trigger] with_child[i]).translations,
        ) by {
            if i < model.len() {
                assert(spec_ranked_list(model[i].translations));
            }
        }
        lemma_insert_ranked(with_child, child, word.drop_first(), added);
    }
}

/// The translations of a word come in the order of their ranks.  In the
/// trie with nothing in it they do, and where they do they still do after a
/// pair of words was added: each translation joins those of its word after
/// the ones with the same rank or a smaller one.
pub proof fn law_add_entry_keeps_ranks(
    model: Seq<NodeModel>,
    word: Seq<char>,
    translation: Seq<char>,
    payload_byte: u8,
    article_num: u16,
    priority: u32,
)
    requires
        wf_model(model),
        spec_ranked(model),
        forall|i: int| 0 <= i < word.len() ==> word[i] != '\0',
        forall|i: int| 0 <= i < translation.len() ==> translation[i] != '\0',
        spec_add_entry(model, word, translation, payload_byte, article_num, priority).len()
            <= usize::MAX,
    ensures
        spec_ranked(spec_empty_trie()),
        spec_ranked(spec_add_entry(model, word, translation, payload_byte, article_num, priority)),
{
    let first = TranslationModel { payload_byte, article_num, priority, value: translation };
    let second = TranslationModel { payload_byte, article_num, priority, value: word };
    let middle = spec_insert(model, 0, word, first);
    lemma_insert_len(model, 0, word, first);
    lemma_insert_len(middle, 0, translation, second);
    lemma_insert(model, 0, word, first);
    lemma_insert_ranked(model, 0, word, first);
    lemma_insert_ranked(middle, 0, translation, second);
}

/// Whether `labels` holds for each node the characters on the way to it:
/// those on the way to its parent, and its own.
pub open spec fn spec_labelled(model: Seq<NodeModel>, labels: Seq<Seq<char>>) -> bool {
    &&& labels.len() == model.len()
    &&& forall|i: int, k: int|
        0 <= i < model.len() && 0 <= k < model[i].children.len() ==> 0 <= (
        #[trigger] model[i].children[k]) < model.len() && labels[model[i].children[k] as int]
            == labels[i].push(model[model[i].children[k] as int].ch)
}

/// Whether the trie is a tree: every node is reached on one way only, so
/// that the characters on the way to it can be told.
pub open spec fn spec_tree(model: Seq<NodeModel>) -> bool {
    exists|labels: Seq<Seq<char>>| spec_labelled(model, labels)
}

/// In a tree the way to the end of a word spells the word.
pub proof fn lemma_terminator_label(
    model: Seq<NodeModel>,
    labels: Seq<Seq<char>>,
    node: int,
    word: Seq<char>,
)
    requires
        spec_labelled(model, labels),
        0 <= node < model.len(),
        spec_terminator(model, node, word) is Some,
    ensures
        0 <= spec_terminator(model, node, word)->0 < model.len(),
        labels[spec_terminator(model, node, word)->0] == labels[node] + word.push('\0'),
    decreases word.len(),
{
    let ch = if word.len() == 0 {
        '\0'
    } else {
        word[0]
    };
    let k = spec_child_index(model, node, ch)->0 as int;
    let child = model[node].children[k] as int;
    assert(0 <= model[node].children[k] < model.len());
    assert(child_ch(model, model[node].children, k) == ch);
    if word.len() == 0 {
        assert(labels[node].push('\0') =~= labels[node] + word.push('\0'));
    } else {
        lemma_terminator_label(model, labels, child, word.drop_first());
        assert(labels[node].push(ch) + word.drop_first().push('\0') =~= labels[node] + word.push(
            '\0',
        ));
    }
}

/// In a tree two words that end at one node are one word.
pub proof fn lemma_terminators_apart(model: Seq<NodeModel>, first: Seq<char>, second: Seq<char>)
    requires
        spec_tree(model),
        model.len() > 0,
        spec_terminator(model, 0, first) is Some,
        spec_terminator(model, 0, first) == spec_terminator(model, 0, second),
    ensures
        first == second,
{
    let labels = choose|labels: Seq<Seq<char>>| spec_labelled(model, labels);
    lemma_terminator_label(model, labels, 0, first);
    lemma_terminator_label(model, labels, 0, second);
    let a = labels[0] + first.push('\0');
    let b = labels[0] + second.push('\0');
    assert(a.len() == b.len());
    assert forall|i: int| 0 <= i < first.len() implies first[i] == second[i] by {
        assert(a[labels[0].len() + i] == first[i]);
        assert(b[labels[0].len() + i] == second[i]);
    }
    assert(first =~= second);
}

/// A tree stays a tree when the child of a node for a character is taken
/// or made.
pub proof fn lemma_child_for_tree(model: Seq<NodeModel>, parent: int, ch: char, is_terminator: bool)
    requires
        spec_tree(model),
        0 <= parent < model.len(),
        model.len() <= usize::MAX,
    ensures
        spec_tree(spec_child_for(model, parent, ch, is_terminator).0),
{
    let labels = choose|labels: Seq<Seq<char>>| spec_labelled(model, labels);
    let after = spec_child_for(model, parent, ch, is_terminator).0;
    let children = model[parent].children;
    let at = spec_lower_bound(model, children, ch) as int;
    if !(at < children.len() && child_ch(model, children, at) == ch) {
        let new_pos = model.len() as int;
        let new_labels = labels.push(labels[parent].push(ch));
        lemma_lower_bound_within(model, children, ch);
        assert forall|i: int, k: int|
            0 <= i < after.len() && 0 <= k < after[i].children.len() implies 0 <= (
        #[trigger] after[i].children[k]) < after.len() && new_labels[after[i].children[k] as int]
            == new_labels[i].push(after[after[i].children[k] as int].ch) by {
            if i == parent {
                if k < at {
                    assert(after[i].children[k] == model[i].children[k]);
                } else if k > at {
                    assert(after[i].children[k] == model[i].children[k - 1]);
                }
            } else if i < model.len() {
                assert(after[i].children[k] == model[i].children[k]);
            }
        }
        assert(spec_labelled(after, new_labels));
    }
}

/// The place where a child stands, or would, lies within the list of
/// children or at its end.
pub proof fn lemma_lower_bound_within(model: Seq<NodeModel>, children: Seq<usize>, ch: char)
    ensures
        spec_lower_bound(model, children, ch) <= children.len(),
    decreases children.len(),
{
    if children.len() > 0 && child_ch(model, children, 0) < ch {
        lemma_lower_bound_within(model, children.drop_first(), ch);
    }
}

/// A tree stays a tree when a word is put in.
pub proof fn lemma_insert_tree(
    model: Seq<NodeModel>,
    node: int,
    word: Seq<char>,
    added: TranslationModel,
)
    requires
        spec_tree(model),
        spec_children_in_bounds(model),
        0 <= node < model.len(),
        spec_insert(model, node, word, added).len() <= usize::MAX,
    ensures
        spec_tree(spec_insert(model, node, word, added)),
    decreases word.len(),
{
    let after = spec_insert(model, node, word, added);
    lemma_insert_len(model, node, word, added);
    if word.len() == 0 {
        let (with_end, end) = spec_child_for(model, node, '\0', true);
        lemma_child_for_len(model, node, '\0', true);
        lemma_child_for_tree(model, node, '\0', true);
        let labels = choose|labels: Seq<Seq<char>>| spec_labelled(with_end, labels);
        assert(spec_labelled(after, labels));
    } else {
        let (with_child, child) = spec_child_for(model, node, word[0], false);
        lemma_child_for_len(model, node, word[0], false);
        lemma_insert_len(with_child, child, word.drop_first(), added);
        lemma_child_for_tree(model, node, word[0], false);
        lemma_insert_tree(with_child, child, word.drop_first(), added);
    }
}

/// The trie with nothing in it is a tree, and a tree stays a tree when a
/// pair of words is added.
pub proof fn law_add_entry_keeps_tree(
    model: Seq<NodeModel>,
    word: Seq<char>,
    translation: Seq<char>,
    payload_byte: u8,
    article_num: u16,
    priority: u32,
)
    requires
        wf_model(model),
        spec_tree(model),
        spec_add_entry(model, word, translation, payload_byte, article_num, priority).len()
            <= usize::MAX,
    ensures
        spec_tree(spec_empty_trie()),
        spec_tree(spec_add_entry(model, word, translation, payload_byte, article_num, priority)),
{
    let first = TranslationModel { payload_byte, article_num, priority, value: translation };
    let second = TranslationModel { payload_byte, article_num, priority, value: word };
    let middle = spec_insert(model, 0, word, first);
    lemma_insert_len(model, 0, word, first);
    lemma_insert_len(middle, 0, translation, second);
    lemma_insert_tree(model, 0, word, first);
    lemma_insert_tree(middle, 0, translation, second);
    assert(spec_labelled(spec_empty_trie(), seq![Seq::<char>::empty()]));
}

/// The translations that a node of `model` has, or none for a node that
/// `model` does not have.
pub open spec fn spec_translations_at(model: Seq<NodeModel>, i: int) -> Seq<TranslationModel> {
    if 0 <= i < model.len() {
        model[i].translations
    } else {
        Seq::empty()
    }
}

/// A translation of the last rank, put in with a word, comes at the end of
/// the translations of that word; the translations of every other word stay
/// as they are.
pub proof fn lemma_insert_last(
    model: Seq<NodeModel>,
    node: int,
    word: Seq<char>,
    added: TranslationModel,
)
    requires
        wf_model(model),
        0 <= node < model.len(),
        !model[node].is_terminator,
        forall|i: int| 0 <= i < word.len() ==> word[i] != '\0',
        spec_insert(model, node, word, added).len() <= usize::MAX,
        added.priority == spec_last_priority(),
    ensures
        spec_terminator(spec_insert(model, node, word, added), node, word) matches Some(end) && {
            &&& 0 <= end < spec_insert(model, node, word, added).len()
            &&& spec_insert(model, node, word, added)[end].translations == spec_translations_at(
                model,
                end,
            ).push(added)
            &&& forall|i: int|
                0 <= i < spec_insert(model, node, word, added).len() && i != end ==> (
                #[trigger] spec_insert(model, node, word, added)[i]).translations
                    == spec_translations_at(model, i)
        },
    decreases word.len(),
{
    let after = spec_insert(model, node, word, added);
    lemma_insert_len(model, node, word, added);
    if word.len() == 0 {
        let (with_end, end) = spec_child_for(model, node, '\0', true);
        lemma_child_for_len(model, node, '\0', true);
        lemma_child_for(model, node, '\0', true);
        lemma_with_translation(with_end, end, added);
        let k = spec_child_index(with_end, node, '\0')->0 as int;
        assert(after[node].children == with_end[node].children);
        assert(child_ch(after, after[node].children, k) == '\0');
        lemma_child_index_of(after, node, k);
        let list = with_end[end].translations;
        lemma_priority_position(list, added.priority, list.len() as int);
        assert(list.insert(list.len() as int, added) =~= list.push(added));
        assert(list == spec_translations_at(model, end));
        assert forall|i: int| 0 <= i < after.len() && i != end implies (
        #[trigger] after[i]).translations == spec_translations_at(model, i) by {
            assert(after[i].translations == with_end[i].translations);
        }
    } else {
        let (with_child, child) = spec_child_for(model, node, word[0], false);
        lemma_child_for_len(model, node, word[0], false);
        lemma_insert_len(with_child, child, word.drop_first(), added);
        lemma_child_for(model, node, word[0], false);
        lemma_insert(with_child, child, word.drop_first(), added);
        lemma_insert_last(with_child, child, word.drop_first(), added);
        let k = spec_child_index(with_child, node, word[0])->0 as int;
        assert(after[node].children.contains(with_child[node].children[k]));
        let place = choose|place: int|
            0 <= place < after[node].children.len() && after[node].children[place]
                == with_child[node].children[k];
        assert(after[child].ch == with_child[child].ch);
        lemma_child_index_of(after, node, place);
        let end = spec_terminator(after, child, word.drop_first())->0;
        assert(spec_translations_at(with_child, end) == spec_translations_at(model, end));
        assert forall|i: int| 0 <= i < after.len() && i != end implies (
        #[trigger] after[i]).translations == spec_translations_at(model, i) by {
            assert(after[i].translations == spec_translations_at(with_child, i));
        }
    }
}

/// Whether the trie `after` holds what `before` held and, behind it, a pair
/// of words: each of the two is the last translation of the other, with the
/// tag and the article given, and every word has the translations that it
/// had, in their order, at the front of its list.
pub open spec fn spec_pair_comes_last(
    before: Seq<NodeModel>,
    after: Seq<NodeModel>,
    word: Seq<char>,
    translation: Seq<char>,
    payload_byte: u8,
    article_num: u16,
) -> bool {
    let to_translation = TranslationModel {
        payload_byte,
        article_num,
        priority: spec_last_priority(),
        value: translation,
    };
    let to_word = TranslationModel {
        payload_byte,
        article_num,
        priority: spec_last_priority(),
        value: word,
    };
    &&& forall|i: int|
        0 <= i < before.len() ==> i < after.len() && (#[trigger] before[i]).translations.is_prefix_of(
            after[i].translations,
        )
    &&& spec_terminator(after, 0, word) matches Some(end) && 0 <= end < after.len()
        && after[end].translations.len() > 0 && after[end].translations.last() == to_translation
    &&& spec_terminator(after, 0, translation) matches Some(end) && 0 <= end < after.len()
        && after[end].translations.len() > 0 && after[end].translations.last() == to_word
}

/// A pair of words added without a rank comes last.  Each of the two is
/// then the last translation of the other word, with the tag and the article
/// that were given, and every word keeps the translations that it had, in
/// their order, at the front of its list.
pub proof fn law_add_word_comes_last(
    model: Seq<NodeModel>,
    word: Seq<char>,
    translation: Seq<char>,
    payload_byte: u8,
    article_num: u16,
)
    requires
        wf_model(model),
        spec_tree(model),
        forall|i: int| 0 <= i < word.len() ==> word[i] != '\0',
        forall|i: int| 0 <= i < translation.len() ==> translation[i] != '\0',
        spec_add_word(model, word, translation, payload_byte, article_num).len() <= usize::MAX,
    ensures
        spec_pair_comes_last(
            model,
            spec_add_word(model, word, translation, payload_byte, article_num),
            word,
            translation,
            payload_byte,
            article_num,
        ),
{
    let first = TranslationModel {
        payload_byte,
        article_num,
        priority: spec_last_priority(),
        value: translation,
    };
    let second = TranslationModel {
        payload_byte,
        article_num,
        priority: spec_last_priority(),
        value: word,
    };
    let middle = spec_insert(model, 0, word, first);
    let after = spec_insert(middle, 0, translation, second);
    lemma_insert_len(model, 0, word, first);
    lemma_insert_len(middle, 0, translation, second);
    lemma_insert(model, 0, word, first);
    lemma_insert(middle, 0, translation, second);
    lemma_insert_last(model, 0, word, first);
    lemma_insert_last(middle, 0, translation, second);
    lemma_extends_terminator(middle, after, 0, word);
    lemma_insert_tree(model, 0, word, first);
    lemma_insert_tree(middle, 0, translation, second);
    if spec_terminator(after, 0, word) == spec_terminator(after, 0, translation) {
        lemma_terminators_apart(after, word, translation);
        assert(first == second);
    }
    assert forall|i: int| 0 <= i < model.len() implies i < after.len() && (
    #[trigger] model[i]).translations.is_prefix_of(after[i].translations) by {
        assert(middle[i].translations == model[i].translations || middle[i].translations
            == model[i].translations.push(first));
        assert(after[i].translations == middle[i].translations || after[i].translations
            == middle[i].translations.push(second));
    }
}

} // verus!
