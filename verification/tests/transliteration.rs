use compiledb::dictionary;
use compiledb::parts_of_speech;
use compiledb::transliteration::{
    choose_variant, compare_parts_of_speech, score_part_of_speech, transliterate, write_word, Error,
};
use std::cmp::Ordering;

const VVB: u8 = 32;

const DICTIONARY: [u8; 132] = [
    // Length
    0, 0, 0, 0,
    15, b'a', 0, b'\0', 0, 0, 0, 1,
    15, b'b', 0, b'\0', 0, 0, 0, 0,
    15, b'c', 0, b'\0', 0, 0, 0, 3,
    35, b'd', 10, b'\0', 0, 0, 0, 2,
    1, b'\'', 1, b'b', 0, b'\0', 0, 0, 0, 1,
    23, b'e', 1, b'-', 1, b'f', 0, b'\0', 0, 0, 0, 1,
    15, b'i', 0, b'\0', 0, 0, 0, 6,
    23, b'j', 0, b'\0',
    0x80 | parts_of_speech::PNP, 0, 0, 0,
    VVB, 0, 0, 1,
    31, b'p', 1, b'a', 1, b'r', 1, b'i', 1, b's', 0, b'\0',
    parts_of_speech::NP0, 0, 0, 8,
    31, 0xf0, 0x90, 0x91, 0x90, 1, 0xf0, 0x90, 0x91, 0xa8, 0, b'\0',
    parts_of_speech::NP0, 0, 0, 7,
    // 𐑦 -> i, not a pronoun
    21, 0xf0, 0x90, 0x91, 0xa6, 0, b'\0', VVB, 0, 0, 5,
    // 𐑲 -> i, pronoun
    1, 0xf0, 0x90, 0x91, 0xb2, 0, b'\0', parts_of_speech::PNP, 0, 0, 5,
];

fn transliterate_to_string(input: &str) -> Result<String, Error> {
    let mut output = String::new();
    transliterate(&DICTIONARY[..], input, &mut output)?;
    Ok(output)
}

#[test]
fn hyphens() {
    assert_eq!(&transliterate_to_string("a").unwrap(), "B");
    assert_eq!(&transliterate_to_string("c").unwrap(), "D");
    // Fallback for a word that isn’t in the dictionary, it’s
    // individual parts should be translated instead.
    assert_eq!(&transliterate_to_string("a-c").unwrap(), "B-d");
    assert_eq!(&transliterate_to_string("a-c-d-b").unwrap(), "B-d-c-a");
    // Hyphenated words that are in the dictionary should use
    // their dictionary translation.
    assert_eq!(&transliterate_to_string("e-f").unwrap(), "B");
}

#[test]
fn apostrophes() {
    // Apostrophes should be part of the word if they are followed
    // by a letter.
    assert_eq!(&transliterate_to_string("d'b").unwrap(), "B");
    assert_eq!(&transliterate_to_string("d’b").unwrap(), "B");
    // Otherwise no.
    assert_eq!(&transliterate_to_string("d' b").unwrap(), "C' a");
    assert_eq!(&transliterate_to_string("d’ b").unwrap(), "C’ a");
    assert_eq!(&transliterate_to_string("d'").unwrap(), "C'");
    assert_eq!(&transliterate_to_string("d’").unwrap(), "C’");
}

#[test]
fn first_person_pronoun() {
    // The “I” should be capitialised
    assert_eq!(&transliterate_to_string("𐑲 𐑲").unwrap(), "I I");
    // … but not when it’s not a pronoun
    assert_eq!(&transliterate_to_string("𐑦 𐑦").unwrap(), "I i");
}

#[test]
fn capitalize_sentences() {
    assert_eq!(
        &transliterate_to_string("a c a.c c. a c").unwrap(),
        "B d b.d d. B d",
    );
}

#[test]
fn capitalize_proper_nouns() {
    assert_eq!(
        &transliterate_to_string("𐑐𐑨 𐑐𐑨").unwrap(),
        "Paris Paris",
    );
}

#[test]
fn pos_variant() {
    assert_eq!(parts_of_speech::NAMES[VVB as usize], "VVB");

    // The word “j” has two variants, “a” when it is a pronoun and
    // “b” when it is a verb. Prounouns should be preferred at the
    // start of a sentence and verbs should be preferred after
    // pronouns.
    assert_eq!(&transliterate_to_string("j j").unwrap(), "A b");
}

#[test]
fn sentence_start() {
    assert_eq!(&transliterate_to_string("a").unwrap(), "B");
}

#[test]
fn unknown_words_pass_through() {
    assert_eq!(&transliterate_to_string("zz").unwrap(), "zz");
    assert_eq!(&transliterate_to_string("zz a").unwrap(), "zz b");
    assert_eq!(&transliterate_to_string("ZZ-A").unwrap(), "zz-b");
    assert_eq!(&transliterate_to_string("a-zz-c").unwrap(), "B-zz-d");
}

#[test]
fn input_is_lower_cased_before_the_lookup() {
    assert_eq!(&transliterate_to_string("A C").unwrap(), "B d");
    assert_eq!(&transliterate_to_string("E-F").unwrap(), "B");
}

#[test]
fn other_characters_are_copied() {
    assert_eq!(&transliterate_to_string("").unwrap(), "");
    assert_eq!(&transliterate_to_string(" 1, 2\n").unwrap(), " 1, 2\n");
    assert_eq!(&transliterate_to_string("-a-").unwrap(), "-B-");
    assert_eq!(&transliterate_to_string("a.c").unwrap(), "B.d");
    assert_eq!(&transliterate_to_string("a.").unwrap(), "B.");
    assert_eq!(&transliterate_to_string("a. c").unwrap(), "B. D");
    assert_eq!(&transliterate_to_string("a ... c").unwrap(), "B ... D");
}

#[test]
fn transliteration_is_appended_to_the_output() {
    let mut output = String::from("> ");
    transliterate(&DICTIONARY[..], "a c", &mut output).unwrap();
    assert_eq!(&output, "> B d");
}

#[test]
fn malformed_dictionary_is_an_error() {
    let mut output = String::new();
    let result = transliterate(&[0, 0, 0, 0, 0xff][..], "; a", &mut output);
    assert_eq!(result, Err(Error::Dictionary(dictionary::Error::UnexpectedEof)));
    assert_eq!(&output, "; ");

    let mut output = String::new();
    let result = transliterate(&[][..], "a", &mut output);
    assert_eq!(result, Err(Error::Dictionary(dictionary::Error::UnexpectedEof)));

    // The path of “b” should hold one bit, and there is no byte for it.
    let cut_short = [
        0, 0, 0, 0,
        15, b'a', 0, b'\0', 0, 0, 0, 1,
        1, b'b', 0, b'\0', 0, 0, 0,
    ];
    let mut output = String::new();
    let result = transliterate(&cut_short[..], "a b", &mut output);
    assert_eq!(result, Err(Error::Dictionary(dictionary::Error::UnexpectedEof)));
    assert_eq!(&output, "B ");
}

#[test]
fn child_index_out_of_range() {
    // Three words, so a path starts with two bits: the path of “a” asks
    // for a fourth child.
    let broken = [
        0, 0, 0, 0,
        15, b'a', 0, b'\0', 0, 0, 0, 3,
        15, b'b', 0, b'\0', 0, 0, 0, 0,
        1, b'c', 0, b'\0', 0, 0, 0, 1,
    ];
    let mut output = String::new();
    let result = transliterate(&broken[..], "b c a b", &mut output);
    assert_eq!(result, Err(Error::Dictionary(dictionary::Error::ChildIndexOutOfRange)));
    assert_eq!(&output, "A b ");
}

#[test]
fn invalid_character_in_the_trie() {
    let broken = [0, 0, 0, 0, 0, 0x80, 0, b'\0', 0, 0, 0];
    let mut output = String::new();
    let result = transliterate(&broken[..], "a", &mut output);
    assert_eq!(result, Err(Error::Dictionary(dictionary::Error::InvalidCharacter)));
}

#[test]
fn offset_too_long() {
    let broken = [0u8, 0, 0, 0, 0xff, 0xff, 0xff, 0xff, 0xff, 0xff, 0xff, 0xff, 0xff, 0xff, 0];
    let mut output = String::new();
    let result = transliterate(&broken[..], "a", &mut output);
    assert_eq!(result, Err(Error::Dictionary(dictionary::Error::OffsetTooLong)));
}

#[test]
fn scores_outside_the_inventory() {
    assert_eq!(score_part_of_speech(parts_of_speech::PNP, 40), 0);
    assert_eq!(score_part_of_speech(parts_of_speech::PNP, 127), 0);
    assert_eq!(score_part_of_speech(parts_of_speech::PNP, VVB), 210);
    assert_eq!(compare_parts_of_speech(40, 1, 2), Ordering::Equal);
    assert_eq!(compare_parts_of_speech(255, VVB, parts_of_speech::PNP), Ordering::Equal);
}

#[test]
fn compare_goes_by_the_score() {
    let pnp = parts_of_speech::PNP;
    assert_eq!(compare_parts_of_speech(pnp, pnp, VVB), Ordering::Less);
    assert_eq!(compare_parts_of_speech(pnp, VVB, pnp), Ordering::Greater);
    assert_eq!(compare_parts_of_speech(pnp, VVB, VVB), Ordering::Equal);
    assert_eq!(compare_parts_of_speech(pnp, 100, 101), Ordering::Equal);
    assert_eq!(compare_parts_of_speech(pnp, 100, VVB), Ordering::Less);
}

#[test]
fn choosing_a_variant() {
    let pnp = parts_of_speech::PNP;
    // “j” has a pronoun at 70 and a verb at 74.
    assert_eq!(choose_variant(&DICTIONARY[..], 70, Some(parts_of_speech::START_OF_SENTENCE)), Ok(70));
    assert_eq!(choose_variant(&DICTIONARY[..], 70, Some(pnp)), Ok(74));
    // Without a word before, the first variant is taken.
    assert_eq!(choose_variant(&DICTIONARY[..], 70, None), Ok(70));
    // After a tag outside the inventory none is better than another.
    assert_eq!(choose_variant(&DICTIONARY[..], 70, Some(40)), Ok(70));
    assert_eq!(choose_variant(&DICTIONARY[..], 70, Some(255)), Ok(70));
    // A single variant is taken whatever came before.
    assert_eq!(choose_variant(&DICTIONARY[..], 8, Some(pnp)), Ok(8));
    assert_eq!(choose_variant(&DICTIONARY[..], 8, None), Ok(8));
    // Starting at the second variant, only what follows is looked at.
    assert_eq!(choose_variant(&DICTIONARY[..], 74, Some(pnp)), Ok(74));
}

#[test]
fn choosing_among_equal_scores_takes_the_first() {
    // Three variants of the one word “a”: two verbs and a pronoun.
    let buf = [
        16, 0, 0, 0,
        1, b'a', 0, b'\0',
        0x80 | VVB, 1, 0,
        0x80 | parts_of_speech::PNP, 2, 0,
        VVB, 3, 0,
    ];
    assert_eq!(choose_variant(&buf[..], 8, Some(parts_of_speech::PNP)), Ok(8));
    assert_eq!(choose_variant(&buf[..], 8, Some(parts_of_speech::START_OF_SENTENCE)), Ok(11));
    assert_eq!(choose_variant(&buf[..], 11, Some(parts_of_speech::PNP)), Ok(14));
}

#[test]
fn choosing_a_variant_in_a_malformed_dictionary() {
    assert_eq!(
        choose_variant(&DICTIONARY[..], 130, None),
        Err(dictionary::Error::UnexpectedEof),
    );
    assert_eq!(
        choose_variant(&[][..], 0, Some(0)),
        Err(dictionary::Error::UnexpectedEof),
    );
    // The first variant says that another follows, and none does.
    let buf = [7, 0, 0, 0, 1, b'a', 0, b'\0', 0x81, 0, 0];
    assert_eq!(choose_variant(&buf[..], 8, Some(0)), Err(dictionary::Error::UnexpectedEof));
    assert_eq!(choose_variant(&buf[..], 8, None), Ok(8));
}

fn written(word: &str, last_pos: Option<u8>) -> (String, Option<u8>, Result<(), dictionary::Error>) {
    let chars: Vec<char> = word.chars().collect();
    let mut output = String::from(">");
    let (next, result) = write_word(&DICTIONARY[..], &chars[..], last_pos, &mut output);
    (output, next, result)
}

#[test]
fn writing_words() {
    assert_eq!(written("a", None), (">b".to_string(), Some(0), Ok(())));
    assert_eq!(written("a", Some(0)), (">b".to_string(), Some(0), Ok(())));
    assert_eq!(
        written("a", Some(parts_of_speech::START_OF_SENTENCE)),
        (">B".to_string(), Some(0), Ok(())),
    );
    assert_eq!(written("j", Some(parts_of_speech::PNP)), (">b".to_string(), Some(VVB), Ok(())));
    assert_eq!(
        written("j", None),
        (">a".to_string(), Some(parts_of_speech::PNP), Ok(())),
    );
    assert_eq!(
        written("𐑐𐑨", None),
        (">Paris".to_string(), Some(parts_of_speech::NP0), Ok(())),
    );
    assert_eq!(written("𐑲", None), (">I".to_string(), Some(parts_of_speech::PNP), Ok(())));
    assert_eq!(written("𐑦", None), (">i".to_string(), Some(VVB), Ok(())));
    // No word, nothing written, and the tag stays.
    assert_eq!(written("", Some(7)), (">".to_string(), Some(7), Ok(())));
    assert_eq!(written("", None), (">".to_string(), None, Ok(())));
}

#[test]
fn writing_words_part_by_part() {
    assert_eq!(written("e-f", None), (">b".to_string(), Some(0), Ok(())));
    assert_eq!(written("a-c", None), (">b-d".to_string(), Some(0), Ok(())));
    assert_eq!(
        written("a-c", Some(parts_of_speech::START_OF_SENTENCE)),
        (">B-d".to_string(), Some(0), Ok(())),
    );
    // A part that is unknown is written as it stands and leaves the
    // next part without a word before it.
    assert_eq!(written("zz", Some(3)), (">zz".to_string(), None, Ok(())));
    assert_eq!(written("x-j", Some(parts_of_speech::PNP)), (">x-a".to_string(), Some(parts_of_speech::PNP), Ok(())));
    assert_eq!(written("j-x", Some(parts_of_speech::PNP)), (">b-x".to_string(), None, Ok(())));
    assert_eq!(written("a--c", None), (">b--d".to_string(), Some(0), Ok(())));
    assert_eq!(written("-a", None), (">-b".to_string(), Some(0), Ok(())));
    assert_eq!(written("a-", None), (">b-".to_string(), None, Ok(())));
    assert_eq!(written("d'b", None), (">b".to_string(), Some(0), Ok(())));
    assert_eq!(written("d'c", None), (">d'c".to_string(), None, Ok(())));
}

#[test]
fn writing_a_word_with_a_malformed_dictionary() {
    let chars = ['a'];
    let mut output = String::from(">");
    let (next, result) = write_word(&[][..], &chars[..], Some(3), &mut output);
    assert_eq!(result, Err(dictionary::Error::UnexpectedEof));
    assert_eq!(next, Some(3));
    assert_eq!(&output, ">");
}
