use compiledb::dictionary::{
    check_length, extract_variant, find_prefix, find_word, DictionaryWalker, Error,
};
use compiledb::search::{dump_dictionary, search};
use compiledb::transliteration::transliterate;
use compiledb::trie_builder::TrieBuilder;

const ITJ: u8 = 15;
const NN1: u8 = 17;
const NP0: u8 = 19;
const PNP: u8 = 22;
const VVB: u8 = 32;

const PAIRS: [(&str, &str, u8, u16); 9] = [
    ("𐑣𐑧𐑤𐑴", "hello", ITJ, 1),
    ("𐑢𐑻𐑤𐑛", "world", NN1, 2),
    ("𐑲", "i", PNP, 3),
    ("𐑤𐑳𐑝", "love", NN1, 4),
    ("𐑤𐑳𐑝", "love", VVB, 4),
    ("𐑐𐑨𐑮𐑦𐑕", "paris", NP0, 5),
    ("𐑦𐑯", "in", 28, 0x1234),
    ("𐑦𐑯", "inn", NN1, 0xffff),
    ("𐑯𐑧𐑝𐑼-𐑯𐑧𐑝𐑼", "never-never", NN1, 7),
];

fn build(pairs: &[(&str, &str, u8, u16)]) -> Vec<u8> {
    let mut builder = TrieBuilder::new();
    for &(word, translation, pos, article_num) in pairs.iter() {
        builder.add_entry(word, translation, pos, article_num, u32::MAX);
    }
    let mut file = Vec::new();
    builder.into_dictionary(&mut file).unwrap();
    file
}

// All the variants of a word: tag, article and translation of each.
fn variants(buf: &[u8], word: &str) -> Result<Vec<(u8, u16, String)>, Error> {
    let mut result = Vec::new();
    let mut next = find_word(buf, word)?;
    while let Some(pos) = next {
        let mut variant = extract_variant(buf, pos)?;
        let mut translation = String::new();
        variant.translation.read_to_end(&mut translation)?;
        result.push((variant.payload, variant.article_num, translation));
        next = variant.into_next_offset()?;
    }
    Ok(result)
}

fn transliterated(buf: &[u8], input: &str) -> String {
    let mut output = String::new();
    transliterate(buf, input, &mut output).unwrap();
    output
}

#[test]
fn each_word_of_a_pair_leads_to_the_other() {
    let file = build(&PAIRS);

    assert_eq!(check_length(&file[..]), Ok(()));

    for &(word, translation, pos, article_num) in PAIRS.iter() {
        let found = variants(&file[..], word).unwrap();
        assert!(found.contains(&(pos, article_num, translation.to_string())));
        let found = variants(&file[..], translation).unwrap();
        assert!(found.contains(&(pos, article_num, word.to_string())));
    }

    assert_eq!(variants(&file[..], "hell").unwrap(), vec![]);
    assert_eq!(variants(&file[..], "hello!").unwrap(), vec![]);
    assert_eq!(variants(&file[..], "").unwrap(), vec![]);
}

#[test]
fn variants_keep_the_order_in_which_they_were_added() {
    let file = build(&PAIRS);

    assert_eq!(
        variants(&file[..], "𐑤𐑳𐑝").unwrap(),
        vec![(NN1, 4, "love".to_string()), (VVB, 4, "love".to_string())],
    );
    assert_eq!(
        variants(&file[..], "love").unwrap(),
        vec![(NN1, 4, "𐑤𐑳𐑝".to_string()), (VVB, 4, "𐑤𐑳𐑝".to_string())],
    );
    assert_eq!(
        variants(&file[..], "𐑦𐑯").unwrap(),
        vec![(28, 0x1234, "in".to_string()), (NN1, 0xffff, "inn".to_string())],
    );
    assert_eq!(variants(&file[..], "inn").unwrap(), vec![(NN1, 0xffff, "𐑦𐑯".to_string())]);
}

#[test]
fn variants_with_a_smaller_priority_come_first() {
    let mut builder = TrieBuilder::new();
    builder.add_entry("w", "x", 1, 0, 50);
    builder.add_entry("w", "y", 2, 0, 10);
    builder.add_entry("w", "z", 3, 0, 50);
    builder.add_entry("w", "v", 4, 0, u32::MAX);
    builder.add_word("w", "u", 5, 0);
    builder.add_entry("w", "t", 6, 0, 0);
    let mut file = Vec::new();
    builder.into_dictionary(&mut file).unwrap();

    assert_eq!(
        variants(&file[..], "w").unwrap(),
        vec![
            (6, 0, "t".to_string()),
            (2, 0, "y".to_string()),
            (1, 0, "x".to_string()),
            (3, 0, "z".to_string()),
            (4, 0, "v".to_string()),
            (5, 0, "u".to_string()),
        ],
    );
    assert_eq!(variants(&file[..], "y").unwrap(), vec![(2, 0, "w".to_string())]);
}

#[test]
fn the_walk_gives_every_word_once_and_in_order() {
    let file = build(&PAIRS);

    let mut words = Vec::new();
    let mut walker = DictionaryWalker::new(&file[..]);
    while let Some((word, _)) = walker.next().unwrap() {
        words.push(word);
    }

    let mut expected: Vec<String> = PAIRS
        .iter()
        .flat_map(|&(word, translation, _, _)| [word.to_string(), translation.to_string()])
        .collect();
    expected.sort();
    expected.dedup();

    assert_eq!(words, expected);
}

#[test]
fn searching_a_built_dictionary() {
    let file = build(&PAIRS);

    let results = search(&file[..], "in", 10).ok().unwrap();
    let seen: Vec<(&str, &str, u8, u16)> = results
        .iter()
        .map(|r| (r.word.as_str(), r.translation.as_str(), r.pos, r.article_num))
        .collect();
    assert_eq!(seen, vec![("in", "𐑦𐑯", 28, 0x1234), ("inn", "𐑦𐑯", NN1, 0xffff)]);

    assert_eq!(find_prefix(&file[..], "never-").map(|pos| pos.is_some()), Ok(true));
    assert_eq!(find_prefix(&file[..], "nevermore").map(|pos| pos.is_some()), Ok(false));
}

#[test]
fn dumping_a_built_dictionary() {
    let file = build(&[("𐑲", "i", PNP, 3), ("𐑦𐑯", "in", 28, 0x1234)]);
    let mut output = String::new();
    assert_eq!(dump_dictionary(&file[..], None, &mut output), Ok(()));
    assert_eq!(
        &output,
        "i (22, 3, 𐑲)\nin (28, 4660, 𐑦𐑯)\n𐑦𐑯 (28, 4660, in)\n𐑲 (22, 3, i)\n",
    );
}

#[test]
fn transliterating_with_a_built_dictionary() {
    let file = build(&PAIRS);

    assert_eq!(
        &transliterated(&file[..], "𐑣𐑧𐑤𐑴 𐑢𐑻𐑤𐑛. 𐑲 𐑤𐑳𐑝 𐑐𐑨𐑮𐑦𐑕, 𐑦𐑯 𐑤𐑳𐑝!"),
        "Hello world. I love Paris, in love!",
    );
    assert_eq!(
        &transliterated(&file[..], "Hello, World"),
        "𐑣𐑧𐑤𐑴, 𐑢𐑻𐑤𐑛",
    );
    assert_eq!(
        &transliterated(&file[..], "𐑯𐑧𐑝𐑼-𐑯𐑧𐑝𐑼 𐑤𐑳𐑝-𐑦𐑯 x-𐑲"),
        "Never-never love-in x-I",
    );
}

#[test]
fn the_variant_that_fits_the_word_before_is_chosen() {
    let file = build(&[("j", "a", PNP, 0), ("j", "b", VVB, 0), ("k", "c", VVB, 0), ("k", "d", PNP, 0)]);

    // At the start of a sentence a pronoun is the better match; after a
    // pronoun a verb is.
    assert_eq!(&transliterated(&file[..], "j j"), "A b");
    assert_eq!(&transliterated(&file[..], "k k"), "D c");
    assert_eq!(&transliterated(&file[..], "j k. k j"), "A c. D b");
    // After a word that is not in the dictionary the first variant is
    // taken.
    assert_eq!(&transliterated(&file[..], "x k"), "x c");
}

#[test]
fn many_siblings_take_wide_indices() {
    let letters: Vec<String> = (0..300u32)
        .map(|i| char::from_u32(0x4e00 + i).unwrap().to_string())
        .collect();
    let mut builder = TrieBuilder::new();
    for (i, letter) in letters.iter().enumerate() {
        builder.add_entry(letter, &format!("w{}", i), (i % 39) as u8, i as u16, 0);
    }
    let mut file = Vec::new();
    builder.into_dictionary(&mut file).unwrap();

    assert_eq!(check_length(&file[..]), Ok(()));
    for (i, letter) in letters.iter().enumerate() {
        assert_eq!(
            variants(&file[..], letter).unwrap(),
            vec![((i % 39) as u8, i as u16, format!("w{}", i))],
        );
        assert_eq!(
            variants(&file[..], &format!("w{}", i)).unwrap(),
            vec![((i % 39) as u8, i as u16, letter.clone())],
        );
    }
}

#[test]
fn an_empty_dictionary_file() {
    let file = build(&[]);
    assert_eq!(&file, &[0, 0, 0, 0]);
    assert_eq!(check_length(&file[..]), Ok(()));
    // There is no node to read, which the reader takes for the end of
    // the file.
    assert_eq!(find_word(&file[..], "a"), Err(Error::UnexpectedEof));
}

#[test]
fn the_bytes_of_a_small_dictionary_file() {
    let file = build(&[("ab", "a", 3, 0x0102)]);
    assert_eq!(
        &file,
        &[
            16, 0, 0, 0,
            1, b'a',
            10, b'\0',
            0x03, 0x02, 0x01, 0x01,
            1, b'b',
            0, b'\0',
            0x03, 0x02, 0x01, 0x00,
        ],
    );
}

#[test]
fn absent_words_are_not_found() {
    let mut builder = TrieBuilder::new();
    builder.add_entry("cat", "𐑒𐑨𐑑", 1, 0, 0);
    builder.add_entry("cart", "𐑒𐑸𐑑", 1, 1, 0);
    let mut file = Vec::new();
    builder.into_dictionary(&mut file).unwrap();

    for word in ["", "c", "ca", "car", "cats", "dog", "b", "carts"] {
        assert_eq!(find_word(&file, word), Ok(None), "{}", word);
    }
    assert!(find_word(&file, "cat").unwrap().is_some());
    assert!(find_word(&file, "cart").unwrap().is_some());
}
