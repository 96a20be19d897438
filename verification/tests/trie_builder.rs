use compiledb::dictionary::{check_length, extract_variant, find_word, read_node};
use compiledb::trie_builder::{n_bytes_for_size, write_offset, TrieBuilder};

#[test]
fn test_n_bytes_for_size() {
    assert_eq!(n_bytes_for_size(0), 1);
    assert_eq!(n_bytes_for_size(1), 1);
    assert_eq!(n_bytes_for_size(0x7f), 1);
    assert_eq!(n_bytes_for_size(0x80), 2);
    assert_eq!(n_bytes_for_size(u32::MAX as usize), 5);
}

#[test]
fn test_write_offset() {
    fn offset_to_vec(offset: usize) -> Vec<u8> {
        let mut result = Vec::new();

        write_offset(offset, &mut result);

        result
    }

    assert_eq!(&offset_to_vec(0), &[0]);
    assert_eq!(&offset_to_vec(1), &[1]);
    assert_eq!(&offset_to_vec(0x7f), &[0x7f]);
    assert_eq!(&offset_to_vec(0x80), &[0x80, 0x01]);
    assert_eq!(
        &offset_to_vec(u32::MAX as usize),
        &[0xff, 0xff, 0xff, 0xff, 0x0f],
    );
}

#[test]
fn duplicates() {
    let mut builder = TrieBuilder::new();

    builder.add_word("abc", "bbc", 0x7e, 0);

    let mut dictionary = Vec::<u8>::new();

    builder.into_dictionary(&mut dictionary).unwrap();

    // There should be 8 nodes below the root because the “bc” endings
    // shouldn’t be combined into one. Each node takes up 2 bytes in
    // this small example, plus 4 bytes for each terminator, after
    // the 4 bytes of the length.
    assert_eq!(dictionary.len(), 4 + 8 * 2 + 2 * 4);

    assert_eq!(
        &dictionary,
        &[
            24, 0, 0, 0,
            23, b'a',
            1, b'b',
            1, b'c',
            0, b'\0',
            0x7e, 0, 0, 1,
            1, b'b',
            1, b'b',
            1, b'c',
            0, b'\0',
            0x7e, 0, 0, 0,
        ],
    );
}

#[test]
fn n_bytes_for_size_boundaries() {
    assert_eq!(n_bytes_for_size(0x3fff), 2);
    assert_eq!(n_bytes_for_size(0x4000), 3);
    assert_eq!(n_bytes_for_size(0x1f_ffff), 3);
    assert_eq!(n_bytes_for_size(0x20_0000), 4);
    assert_eq!(n_bytes_for_size(0xfff_ffff), 4);
    assert_eq!(n_bytes_for_size(0x1000_0000), 5);
    assert_eq!(n_bytes_for_size(usize::MAX), (usize::BITS as usize + 6) / 7);
}

#[test]
fn write_offset_appends() {
    let mut result = vec![9u8];
    write_offset(0x3fff, &mut result);
    write_offset(0x4000, &mut result);
    assert_eq!(&result, &[9, 0xff, 0x7f, 0x80, 0x80, 0x01]);
}

#[test]
fn written_offsets_have_the_length_counted() {
    for shift in 0..usize::BITS {
        for delta in [0usize, 1] {
            let offset = (1usize << shift) - delta;
            let mut result = Vec::new();
            write_offset(offset, &mut result);
            assert_eq!(result.len(), n_bytes_for_size(offset));
        }
    }
}

#[test]
fn empty_trie() {
    let builder = TrieBuilder::new();
    let mut dictionary = Vec::<u8>::new();

    builder.into_dictionary(&mut dictionary).unwrap();

    assert_eq!(&dictionary, &[0, 0, 0, 0]);
    assert_eq!(check_length(&dictionary[..]), Ok(()));
}

#[test]
fn trie_is_appended_to_the_output() {
    let builder = TrieBuilder::new();
    let mut dictionary = vec![1u8, 2, 3];

    assert_eq!(builder.into_dictionary(&mut dictionary), Ok(()));

    assert_eq!(&dictionary, &[1, 2, 3, 0, 0, 0, 0]);
}

#[test]
fn children_are_sorted_and_variants_keep_their_order() {
    let mut builder = TrieBuilder::new();

    builder.add_word("c", "a", 1, 7);
    builder.add_word("b", "a", 2, 8);

    let mut dictionary = Vec::<u8>::new();

    builder.into_dictionary(&mut dictionary).unwrap();

    // Three children of the root, so an index takes two bits; none
    // below them, where only a terminator follows.
    assert_eq!(
        &dictionary,
        &[
            28, 0, 0, 0,
            23, b'a',
            0, b'\0',
            0x81, 7, 0, 2,
            0x02, 8, 0, 1,
            15, b'b',
            0, b'\0',
            0x02, 8, 0, 0,
            1, b'c',
            0, b'\0',
            0x01, 7, 0, 0,
        ],
    );
}

#[test]
fn a_word_that_translates_to_itself() {
    let mut builder = TrieBuilder::new();

    builder.add_word("a", "a", 5, 0x1234);

    let mut dictionary = Vec::<u8>::new();

    builder.into_dictionary(&mut dictionary).unwrap();

    assert_eq!(
        &dictionary,
        &[
            10, 0, 0, 0,
            1, b'a',
            0, b'\0',
            // No node on the way has a sibling, so the paths take no bits.
            0x85, 0x34, 0x12,
            0x05, 0x34, 0x12,
        ],
    );
}

#[test]
fn characters_of_several_bytes() {
    let mut builder = TrieBuilder::new();

    builder.add_word("é", "𐑧", 0, 1);

    let mut dictionary = Vec::<u8>::new();

    builder.into_dictionary(&mut dictionary).unwrap();

    assert_eq!(
        &dictionary,
        &[
            20, 0, 0, 0,
            17, 0xc3, 0xa9,
            0, b'\0',
            0x00, 1, 0, 1,
            1, 0xf0, 0x90, 0x91, 0xa7,
            0, b'\0',
            0x00, 1, 0, 0,
        ],
    );
}

#[test]
fn prefixes_come_before_their_extensions() {
    let mut builder = TrieBuilder::new();

    builder.add_word("ab", "a", 3, 2);

    let mut dictionary = Vec::<u8>::new();

    builder.into_dictionary(&mut dictionary).unwrap();

    // Below “a” the terminator comes first and “b” second, so an
    // index takes one bit there.
    assert_eq!(
        &dictionary,
        &[
            16, 0, 0, 0,
            1, b'a',
            10, b'\0',
            0x03, 2, 0, 0x01,
            1, b'b',
            0, b'\0',
            0x03, 2, 0, 0,
        ],
    );
}

fn variants_of(dictionary: &[u8], word: &str) -> Vec<(String, u8, u16)> {
    let mut result = Vec::new();
    let mut next = find_word(dictionary, word).unwrap();
    while let Some(pos) = next {
        let mut variant = extract_variant(dictionary, pos).ok().unwrap();
        let mut translation = String::new();
        variant.translation.read_to_end(&mut translation).unwrap();
        result.push((translation, variant.payload, variant.article_num));
        next = variant.into_next_offset().unwrap();
    }
    result
}

#[test]
fn added_words_are_found_with_their_tag_and_article() {
    let mut builder = TrieBuilder::new();
    builder.add_word("abc", "bbc", 0x7e, 0x0102);
    builder.add_word("abc", "xyz", 3, 0xffff);
    builder.add_word("b", "abc", 0, 0);

    let mut dictionary = Vec::<u8>::new();
    builder.into_dictionary(&mut dictionary).unwrap();
    assert_eq!(check_length(&dictionary[..]), Ok(()));

    // Each pair is the last of its word when it is added.
    assert_eq!(
        variants_of(&dictionary[..], "abc"),
        vec![
            ("bbc".to_string(), 0x7e, 0x0102),
            ("xyz".to_string(), 3, 0xffff),
            ("b".to_string(), 0, 0),
        ],
    );
    assert_eq!(variants_of(&dictionary[..], "bbc"), vec![("abc".to_string(), 0x7e, 0x0102)]);
    assert_eq!(variants_of(&dictionary[..], "xyz"), vec![("abc".to_string(), 3, 0xffff)]);
    assert_eq!(variants_of(&dictionary[..], "b"), vec![("abc".to_string(), 0, 0)]);
    assert_eq!(variants_of(&dictionary[..], "ab"), vec![]);
}

#[test]
fn a_pair_of_one_word_is_held_twice() {
    let mut builder = TrieBuilder::new();
    builder.add_word("a", "b", 1, 1);
    builder.add_word("a", "a", 2, 2);

    let mut dictionary = Vec::<u8>::new();
    builder.into_dictionary(&mut dictionary).unwrap();

    assert_eq!(
        variants_of(&dictionary[..], "a"),
        vec![("b".to_string(), 1, 1), ("a".to_string(), 2, 2), ("a".to_string(), 2, 2)],
    );
}

#[test]
fn long_siblings_take_longer_numbers() {
    // The first word takes more than 63 bytes, so the number in front
    // of it takes two.
    let long = "a".repeat(40);
    let mut builder = TrieBuilder::new();
    builder.add_word(&long, "b", 1, 0);

    let mut dictionary = Vec::<u8>::new();
    builder.into_dictionary(&mut dictionary).unwrap();

    assert_eq!(check_length(&dictionary[..]), Ok(()));
    let node = read_node(&dictionary[..], 4).ok().unwrap();
    assert_eq!(node.ch, 'a');
    assert_eq!(node.char_offset, 2);
    assert!(node.has_child);
    assert_eq!(node.sibling_offset, 1 + 39 * 2 + 2 + 4);
    let sibling = read_node(&dictionary[..], 4 + 2 + node.sibling_offset).ok().unwrap();
    assert_eq!(sibling.ch, 'b');
    assert_eq!(sibling.sibling_offset, 0);
    assert_eq!(variants_of(&dictionary[..], &long), vec![("b".to_string(), 1, 0)]);
    assert_eq!(variants_of(&dictionary[..], "b"), vec![(long.clone(), 1, 0)]);
}
