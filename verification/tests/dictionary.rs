use compiledb::dictionary::{
    bit_length, check_length, count_siblings, extract_variant, find_prefix,
    find_sibling_for_character, find_word, read_character, read_header_number, read_node,
    read_sibling_offset,
    skip_nodes, DictionaryWalker, Error, PathWalker,
};
use compiledb::trie_builder::write_offset;

const PNP: u8 = 22;
const NP0: u8 = 19;
const VVB: u8 = 32;

// The words a, b, c, d, d'b, e-f, i, j, paris, 𐑐𐑨, 𐑦 and 𐑲.
const WORDS: [u8; 132] = [
    128, 0, 0, 0,
    15, b'a', 0, b'\0', 0, 0, 0, 1,
    15, b'b', 0, b'\0', 0, 0, 0, 0,
    15, b'c', 0, b'\0', 0, 0, 0, 3,
    35, b'd', 10, b'\0', 0, 0, 0, 2,
    1, b'\'', 1, b'b', 0, b'\0', 0, 0, 0, 1,
    23, b'e', 1, b'-', 1, b'f', 0, b'\0', 0, 0, 0, 1,
    15, b'i', 0, b'\0', 0, 0, 0, 6,
    23, b'j', 0, b'\0',
    0x80 | PNP, 0, 0, 0,
    VVB, 0, 0, 1,
    31, b'p', 1, b'a', 1, b'r', 1, b'i', 1, b's', 0, b'\0',
    NP0, 0, 0, 8,
    31, 0xf0, 0x90, 0x91, 0x90, 1, 0xf0, 0x90, 0x91, 0xa8, 0, b'\0',
    NP0, 0, 0, 7,
    21, 0xf0, 0x90, 0x91, 0xa6, 0, b'\0', VVB, 0, 0, 5,
    1, 0xf0, 0x90, 0x91, 0xb2, 0, b'\0', PNP, 0, 0, 5,
];

// The one word “a”, which translates to itself, with the tag 5 in the
// article 0x1234.
const ONE_WORD: [u8; 11] = [7, 0, 0, 0, 1, b'a', 0, b'\0', 5, 0x34, 0x12];

fn translation(buf: &[u8], variant_pos: usize) -> Result<String, Error> {
    let mut variant = extract_variant(buf, variant_pos)?;
    let mut result = String::new();
    variant.translation.read_to_end(&mut result)?;
    Ok(result)
}

#[test]
fn length_header() {
    assert_eq!(check_length(&WORDS[..]), Ok(()));
    assert_eq!(check_length(&ONE_WORD[..]), Ok(()));
    assert_eq!(check_length(&[0, 0, 0, 0][..]), Ok(()));
    assert_eq!(check_length(&[1, 0, 0, 0, 9][..]), Ok(()));
    assert_eq!(check_length(&[][..]), Err(Error::UnexpectedEof));
    assert_eq!(check_length(&[0, 0, 0][..]), Err(Error::UnexpectedEof));
    assert_eq!(check_length(&[1, 0, 0, 0][..]), Err(Error::InvalidLengthHeader));
    assert_eq!(check_length(&[0, 1, 0, 0, 9][..]), Err(Error::InvalidLengthHeader));
    assert_eq!(check_length(&[0, 0, 0, 0, 9][..]), Err(Error::InvalidLengthHeader));

    let mut long = vec![0u8; 4 + 0x0102_03];
    long[0] = 0x03;
    long[1] = 0x02;
    long[2] = 0x01;
    assert_eq!(check_length(&long[..]), Ok(()));
    long[3] = 0x01;
    assert_eq!(check_length(&long[..]), Err(Error::InvalidLengthHeader));
}

#[test]
fn header_numbers() {
    assert_eq!(read_header_number(&[0][..], 0), Ok((0, 1)));
    assert_eq!(read_header_number(&[0x7f][..], 0), Ok((0x7f, 1)));
    assert_eq!(read_header_number(&[0x80, 0x01][..], 0), Ok((0x80, 2)));
    assert_eq!(read_header_number(&[9, 0xff, 0x7f, 9][..], 1), Ok((0x3fff, 2)));
    assert_eq!(
        read_header_number(&[0xff, 0xff, 0xff, 0xff, 0x0f][..], 0),
        Ok((u32::MAX as usize, 5)),
    );
    // Bytes that add nothing to the number are read all the same.
    assert_eq!(read_header_number(&[0x81, 0x80, 0x00][..], 0), Ok((1, 3)));
    assert_eq!(read_header_number(&[][..], 0), Err(Error::UnexpectedEof));
    assert_eq!(read_header_number(&[0][..], 1), Err(Error::UnexpectedEof));
    assert_eq!(read_header_number(&[0][..], 7), Err(Error::UnexpectedEof));
    assert_eq!(read_header_number(&[0x80][..], 0), Err(Error::UnexpectedEof));
    assert_eq!(read_header_number(&[0x80, 0x80][..], 0), Err(Error::UnexpectedEof));
}

#[test]
fn sibling_offsets() {
    assert_eq!(read_sibling_offset(&[0][..], 0), Ok((0, false, 1)));
    assert_eq!(read_sibling_offset(&[1][..], 0), Ok((0, true, 1)));
    assert_eq!(read_sibling_offset(&[2][..], 0), Ok((1, false, 1)));
    assert_eq!(read_sibling_offset(&[0x7f][..], 0), Ok((0x3f, true, 1)));
    assert_eq!(read_sibling_offset(&[0x80, 0x01][..], 0), Ok((0x40, false, 2)));
    assert_eq!(read_sibling_offset(&[0x81, 0x01][..], 0), Ok((0x40, true, 2)));
    assert_eq!(read_sibling_offset(&[9, 0xff, 0x7f, 9][..], 1), Ok((0x1fff, true, 2)));
    assert_eq!(
        read_sibling_offset(&[0xff, 0xff, 0xff, 0xff, 0x0f][..], 0),
        Ok((u32::MAX as usize / 2, true, 5)),
    );
    assert_eq!(read_sibling_offset(&[0x81, 0x80, 0x00][..], 0), Ok((0, true, 3)));
    assert_eq!(read_sibling_offset(&[][..], 0), Err(Error::UnexpectedEof));
    assert_eq!(read_sibling_offset(&[0][..], 1), Err(Error::UnexpectedEof));
    assert_eq!(read_sibling_offset(&[0x80][..], 0), Err(Error::UnexpectedEof));
    assert_eq!(read_sibling_offset(&[0x80, 0x80][..], 0), Err(Error::UnexpectedEof));
}

#[test]
fn offsets_longer_than_a_word() {
    let max_len = usize::BITS as usize / 7;
    let mut bytes = vec![0x80u8; max_len];
    assert_eq!(read_header_number(&bytes[..], 0), Err(Error::UnexpectedEof));
    assert_eq!(read_sibling_offset(&bytes[..], 0), Err(Error::UnexpectedEof));
    bytes.push(0);
    assert_eq!(read_header_number(&bytes[..], 0), Err(Error::OffsetTooLong));
    assert_eq!(read_sibling_offset(&bytes[..], 0), Err(Error::OffsetTooLong));
    bytes[max_len - 1] = 0x01;
    assert_eq!(
        read_header_number(&bytes[..], 0),
        Ok((1usize << (7 * (max_len - 1)), max_len)),
    );
    assert_eq!(
        read_sibling_offset(&bytes[..], 0),
        Ok((1usize << (7 * (max_len - 1) - 1), false, max_len)),
    );
}

#[test]
fn written_offsets_read_back() {
    let limit = usize::BITS as usize / 7 * 7;
    for shift in 0..limit {
        for delta in [0usize, 1] {
            let offset = (1usize << shift) - delta;
            let mut bytes = vec![0xaa];
            write_offset(offset, &mut bytes);
            let len = bytes.len() - 1;
            bytes.push(0xff);
            assert_eq!(read_header_number(&bytes[..], 1), Ok((offset, len)));
            assert_eq!(
                read_sibling_offset(&bytes[..], 1),
                Ok((offset >> 1, offset & 1 == 1, len)),
            );
        }
    }
}

#[test]
fn header_numbers_of_the_builder_read_back() {
    // The builder keeps whether a node has children in the lowest bit
    // of the number, and the distance to the next sibling above it.
    for sibling_offset in [0usize, 1, 0x3f, 0x40, 0x1fff, 0x2000, 0x7fff_ffff] {
        for has_child in [false, true] {
            let mut bytes = Vec::new();
            write_offset(sibling_offset << 1 | has_child as usize, &mut bytes);
            let len = bytes.len();
            assert_eq!(
                read_sibling_offset(&bytes[..], 0),
                Ok((sibling_offset, has_child, len)),
            );
        }
    }
}

#[test]
fn characters() {
    assert_eq!(read_character(&[b'a'][..], 0), Ok(('a', 1)));
    assert_eq!(read_character(&[0][..], 0), Ok(('\0', 1)));
    assert_eq!(read_character(&[b'a', 0xc3, 0xa9, b'b'][..], 1), Ok(('é', 2)));
    assert_eq!(read_character(&[0xe2, 0x80, 0x99][..], 0), Ok(('’', 3)));
    assert_eq!(read_character(&[0xf0, 0x90, 0x91, 0xa6, 0x80][..], 0), Ok(('𐑦', 4)));
    assert_eq!(read_character(&[][..], 0), Err(Error::UnexpectedEof));
    assert_eq!(read_character(&[b'a'][..], 1), Err(Error::UnexpectedEof));
    assert_eq!(read_character(&[b'a'][..], 2), Err(Error::UnexpectedEof));
    assert_eq!(read_character(&[0xc3][..], 0), Err(Error::UnexpectedEof));
    assert_eq!(read_character(&[0xf0, 0x90, 0x91][..], 0), Err(Error::UnexpectedEof));
    assert_eq!(read_character(&[0x80][..], 0), Err(Error::InvalidCharacter));
    assert_eq!(read_character(&[0xc3, b'a'][..], 0), Err(Error::InvalidCharacter));
    assert_eq!(read_character(&[0xc0, 0x80][..], 0), Err(Error::InvalidCharacter));
    assert_eq!(read_character(&[0xed, 0xa0, 0x80][..], 0), Err(Error::InvalidCharacter));
    assert_eq!(
        read_character(&[0xf8, 0x80, 0x80, 0x80, 0x80][..], 0),
        Err(Error::InvalidCharacter),
    );
    assert_eq!(read_character(&[0xff, 0, 0, 0, 0, 0, 0][..], 0), Err(Error::UnexpectedEof));
    assert_eq!(
        read_character(&[0xff, 0, 0, 0, 0, 0, 0, 0][..], 0),
        Err(Error::InvalidCharacter),
    );
}

#[test]
fn nodes() {
    let node = read_node(&WORDS[..], 28).ok().unwrap();
    assert_eq!(node.ch, 'd');
    assert_eq!(node.sibling_offset, 17);
    assert!(node.has_child);
    assert_eq!(node.char_offset, 1);
    assert_eq!(node.data_offset, 2);

    let node = read_node(&WORDS[..], 94).ok().unwrap();
    assert_eq!(node.ch, '𐑐');
    assert_eq!(node.sibling_offset, 15);
    assert!(node.has_child);
    assert_eq!(node.char_offset, 1);
    assert_eq!(node.data_offset, 5);

    let node = read_node(&[0x80, 0x01, b'x'][..], 0).ok().unwrap();
    assert_eq!(node.ch, 'x');
    assert_eq!(node.sibling_offset, 0x40);
    assert!(!node.has_child);
    assert_eq!(node.char_offset, 2);
    assert_eq!(node.data_offset, 3);

    let node = read_node(&WORDS[..], 30).ok().unwrap();
    assert_eq!(node.ch, '\0');
    assert_eq!(node.sibling_offset, 5);
    assert!(!node.has_child);
    assert_eq!(node.char_offset, 1);
    assert_eq!(node.data_offset, 2);

    assert_eq!(read_node(&[0][..], 0).err(), Some(Error::UnexpectedEof));
    assert_eq!(read_node(&[0x80][..], 0).err(), Some(Error::UnexpectedEof));
    assert_eq!(read_node(&[0, 0xbf][..], 0).err(), Some(Error::InvalidCharacter));
    assert_eq!(read_node(&WORDS[..], 132).err(), Some(Error::UnexpectedEof));
}

#[test]
fn counting_and_skipping_siblings() {
    assert_eq!(count_siblings(&WORDS[..], 4), Ok(11));
    assert_eq!(count_siblings(&WORDS[..], 30), Ok(2));
    assert_eq!(count_siblings(&WORDS[..], 36), Ok(1));
    assert_eq!(count_siblings(&WORDS[..], 121), Ok(1));
    assert_eq!(count_siblings(&WORDS[..], 132), Err(Error::UnexpectedEof));
    assert_eq!(count_siblings(&[7, b'a'][..], 0), Err(Error::UnexpectedEof));
    // An offset that leads to the very end of the buffer finds no
    // sibling there.
    assert_eq!(count_siblings(&[3, b'a'][..], 0), Err(Error::UnexpectedEof));
    assert_eq!(count_siblings(&[1, b'a'][..], 0), Ok(1));

    assert_eq!(skip_nodes(&WORDS[..], 4, 0), Ok(0));
    assert_eq!(skip_nodes(&WORDS[..], 4, 1), Ok(8));
    assert_eq!(skip_nodes(&WORDS[..], 4, 3), Ok(24));
    assert_eq!(skip_nodes(&WORDS[..], 4, 10), Ok(117));
    assert_eq!(skip_nodes(&WORDS[..], 30, 1), Ok(6));
    assert_eq!(skip_nodes(&WORDS[..], 132, 0), Ok(0));
    assert_eq!(skip_nodes(&WORDS[..], 132, 1), Err(Error::UnexpectedEof));
    assert_eq!(skip_nodes(&[7, b'a'][..], 0, 1), Err(Error::UnexpectedEof));
}

#[test]
fn bit_lengths() {
    assert_eq!(bit_length(0), 0);
    assert_eq!(bit_length(1), 1);
    assert_eq!(bit_length(2), 2);
    assert_eq!(bit_length(3), 2);
    assert_eq!(bit_length(4), 3);
    assert_eq!(bit_length(10), 4);
    assert_eq!(bit_length(255), 8);
    assert_eq!(bit_length(256), 9);
    assert_eq!(bit_length(usize::MAX) as u32, usize::BITS);
}

#[test]
fn finding_siblings() {
    assert_eq!(find_sibling_for_character(&WORDS[..], 4, 'a'), Ok(Some(6)));
    assert_eq!(find_sibling_for_character(&WORDS[..], 4, 'd'), Ok(Some(30)));
    assert_eq!(find_sibling_for_character(&WORDS[..], 4, '𐑲'), Ok(Some(126)));
    assert_eq!(find_sibling_for_character(&WORDS[..], 4, 'z'), Ok(None));
    assert_eq!(find_sibling_for_character(&WORDS[..], 30, '\0'), Ok(Some(32)));
    assert_eq!(find_sibling_for_character(&WORDS[..], 30, '\''), Ok(Some(38)));
    assert_eq!(find_sibling_for_character(&WORDS[..], 36, '\0'), Ok(None));
    assert_eq!(find_sibling_for_character(&WORDS[..], 132, 'a'), Err(Error::UnexpectedEof));
    assert_eq!(find_sibling_for_character(&WORDS[..], 133, 'a'), Err(Error::UnexpectedEof));
    assert_eq!(find_sibling_for_character(&[19, b'a'][..], 0, 'b'), Err(Error::UnexpectedEof));
    assert_eq!(find_sibling_for_character(&[19, b'a'][..], 0, 'a'), Ok(Some(2)));
}

#[test]
fn prefixes() {
    assert_eq!(find_prefix(&WORDS[..], ""), Ok(Some(4)));
    assert_eq!(find_prefix(&WORDS[..], "a"), Ok(Some(6)));
    assert_eq!(find_prefix(&WORDS[..], "d"), Ok(Some(30)));
    assert_eq!(find_prefix(&WORDS[..], "d'"), Ok(Some(38)));
    assert_eq!(find_prefix(&WORDS[..], "d'b"), Ok(Some(40)));
    assert_eq!(find_prefix(&WORDS[..], "par"), Ok(Some(84)));
    assert_eq!(find_prefix(&WORDS[..], "𐑐"), Ok(Some(99)));
    assert_eq!(find_prefix(&WORDS[..], "x"), Ok(None));
    assert_eq!(find_prefix(&WORDS[..], "ab"), Ok(None));
    assert_eq!(find_prefix(&WORDS[..], "pax"), Ok(None));
    // The character that marks the end of a word is never part of a
    // prefix.
    assert_eq!(find_prefix(&WORDS[..], "a\0"), Ok(None));
    assert_eq!(find_prefix(&WORDS[..], "\0"), Ok(None));
    assert_eq!(find_prefix(&[][..], ""), Ok(Some(4)));
    assert_eq!(find_prefix(&[][..], "a"), Err(Error::UnexpectedEof));
}

#[test]
fn words() {
    assert_eq!(find_word(&WORDS[..], "a"), Ok(Some(8)));
    assert_eq!(find_word(&WORDS[..], "d"), Ok(Some(32)));
    assert_eq!(find_word(&WORDS[..], "d'b"), Ok(Some(42)));
    assert_eq!(find_word(&WORDS[..], "e-f"), Ok(Some(54)));
    assert_eq!(find_word(&WORDS[..], "j"), Ok(Some(70)));
    assert_eq!(find_word(&WORDS[..], "paris"), Ok(Some(90)));
    assert_eq!(find_word(&WORDS[..], "𐑐𐑨"), Ok(Some(106)));
    assert_eq!(find_word(&WORDS[..], "𐑲"), Ok(Some(128)));
    assert_eq!(find_word(&WORDS[..], ""), Ok(None));
    assert_eq!(find_word(&WORDS[..], "d'"), Ok(None));
    assert_eq!(find_word(&WORDS[..], "e"), Ok(None));
    assert_eq!(find_word(&WORDS[..], "pari"), Ok(None));
    assert_eq!(find_word(&WORDS[..], "z"), Ok(None));
    assert_eq!(find_word(&WORDS[..], "a\0"), Ok(None));
    assert_eq!(find_word(&ONE_WORD[..], "a"), Ok(Some(8)));
}

#[test]
fn variants() {
    let variant = extract_variant(&WORDS[..], 70).ok().unwrap();
    assert_eq!(variant.payload, PNP);
    assert_eq!(variant.article_num, 0);
    assert!(!variant.is_last);
    assert_eq!(variant.pos, 70);
    assert_eq!(variant.into_next_offset(), Ok(Some(74)));

    let variant = extract_variant(&WORDS[..], 74).ok().unwrap();
    assert_eq!(variant.payload, VVB);
    assert!(variant.is_last);
    assert_eq!(variant.into_next_offset(), Ok(None));

    let variant = extract_variant(&ONE_WORD[..], 8).ok().unwrap();
    assert_eq!(variant.payload, 5);
    assert_eq!(variant.article_num, 0x1234);
    assert!(variant.is_last);

    assert_eq!(extract_variant(&WORDS[..], 130).err(), Some(Error::UnexpectedEof));
    assert_eq!(extract_variant(&WORDS[..], 132).err(), Some(Error::UnexpectedEof));
    assert_eq!(extract_variant(&WORDS[..], usize::MAX).err(), Some(Error::UnexpectedEof));
    assert_eq!(extract_variant(&[][..], 0).err(), Some(Error::UnexpectedEof));
    assert!(extract_variant(&WORDS[..], 129).is_ok());
}

#[test]
fn next_variant_after_a_path_of_no_bits() {
    // Two variants of the one word: their paths take no bits, so the
    // second follows the first three bytes of the first.
    let buf = [10, 0, 0, 0, 1, b'a', 0, b'\0', 0x81, 1, 0, 0x02, 2, 0];
    let variant = extract_variant(&buf[..], 8).ok().unwrap();
    assert_eq!(variant.payload, 1);
    assert_eq!(variant.article_num, 1);
    assert_eq!(variant.into_next_offset(), Ok(Some(11)));
    let variant = extract_variant(&buf[..], 11).ok().unwrap();
    assert_eq!(variant.payload, 2);
    assert_eq!(variant.article_num, 2);
    assert_eq!(variant.into_next_offset(), Ok(None));
}

#[test]
fn next_variant_after_a_malformed_path() {
    let buf = [
        0, 0, 0, 0,
        15, b'a', 0, b'\0', 0x80, 0, 0, 3,
        15, b'b', 0, b'\0', 0, 0, 0, 0,
        1, b'c', 0, b'\0', 0, 0, 0, 1,
    ];
    let variant = extract_variant(&buf[..], 8).ok().unwrap();
    assert_eq!(variant.into_next_offset(), Err(Error::ChildIndexOutOfRange));
}

#[test]
fn translations() {
    assert_eq!(translation(&WORDS[..], 8), Ok("b".to_string()));
    assert_eq!(translation(&WORDS[..], 16), Ok("a".to_string()));
    assert_eq!(translation(&WORDS[..], 24), Ok("d".to_string()));
    assert_eq!(translation(&WORDS[..], 32), Ok("c".to_string()));
    assert_eq!(translation(&WORDS[..], 70), Ok("a".to_string()));
    assert_eq!(translation(&WORDS[..], 74), Ok("b".to_string()));
    assert_eq!(translation(&WORDS[..], 90), Ok("𐑐𐑨".to_string()));
    assert_eq!(translation(&WORDS[..], 106), Ok("paris".to_string()));
    assert_eq!(translation(&WORDS[..], 117), Ok("i".to_string()));
    assert_eq!(translation(&ONE_WORD[..], 8), Ok("a".to_string()));
}

#[test]
fn path_walker_step_by_step() {
    let mut walker = PathWalker::new(&WORDS[..], 109);
    assert_eq!(walker.next_char(), Ok(Some('p')));
    assert_eq!(walker.next_char(), Ok(Some('a')));
    assert_eq!(walker.next(), Some(Ok('r')));
    assert_eq!(walker.next(), Some(Ok('i')));
    assert_eq!(walker.next_char(), Ok(Some('s')));
    assert_eq!(walker.next_char(), Ok(None));
    assert_eq!(walker.next_char(), Ok(None));
    assert_eq!(walker.next(), None);
}

#[test]
fn path_walker_errors() {
    // No bytes for the path, and the top of the trie has siblings.
    let mut walker = PathWalker::new(&WORDS[..], 132);
    assert_eq!(walker.next_char(), Err(Error::UnexpectedEof));
    assert_eq!(walker.next(), Some(Err(Error::UnexpectedEof)));

    // Eleven siblings take four bits; the index 15 is none of them.
    let mut path = WORDS.to_vec();
    path.push(0x0f);
    let mut walker = PathWalker::new(&path[..], 132);
    assert_eq!(walker.next_char(), Err(Error::ChildIndexOutOfRange));

    // A buffer too short to hold a trie.
    let mut walker = PathWalker::new(&[0, 0][..], 2);
    assert_eq!(walker.next_char(), Err(Error::UnexpectedEof));

    let mut output = String::from("x");
    let mut walker = PathWalker::new(&path[..], 132);
    assert_eq!(walker.read_to_end(&mut output), Err(Error::ChildIndexOutOfRange));
    assert_eq!(&output, "x");
}

#[test]
fn walking_the_whole_dictionary() {
    let expected: [(&str, usize); 12] = [
        ("a", 8),
        ("b", 16),
        ("c", 24),
        ("d", 32),
        ("d'b", 42),
        ("e-f", 54),
        ("i", 62),
        ("j", 70),
        ("paris", 90),
        ("𐑐𐑨", 106),
        ("𐑦", 117),
        ("𐑲", 128),
    ];
    let mut walker = DictionaryWalker::new(&WORDS[..]);
    for &(word, pos) in expected.iter() {
        assert_eq!(walker.next(), Ok(Some((word.to_string(), pos))));
    }
    assert_eq!(walker.next(), Ok(None));
    assert_eq!(walker.next(), Ok(None));
}

#[test]
fn walking_below_a_prefix() {
    let mut walker = DictionaryWalker::start_from(&WORDS[..], 30);
    assert_eq!(walker.next(), Ok(Some(("".to_string(), 32))));
    assert_eq!(walker.next(), Ok(Some(("'b".to_string(), 42))));
    assert_eq!(walker.next(), Ok(None));

    let mut walker = DictionaryWalker::start_from(&WORDS[..], 84);
    assert_eq!(walker.next(), Ok(Some(("is".to_string(), 90))));
    assert_eq!(walker.next(), Ok(None));
}

#[test]
fn walking_a_malformed_dictionary() {
    let mut walker = DictionaryWalker::new(&[][..]);
    assert_eq!(walker.next(), Err(Error::UnexpectedEof));
    assert_eq!(walker.next(), Ok(None));

    let mut walker = DictionaryWalker::start_from(&WORDS[..], 133);
    assert_eq!(walker.next(), Err(Error::UnexpectedEof));

    // The sibling offset of “a” leads past the end.
    let buf = [0, 0, 0, 0, 19, b'a', 0, b'\0', 0, 0, 0];
    let mut walker = DictionaryWalker::new(&buf[..]);
    assert_eq!(walker.next(), Err(Error::UnexpectedEof));

    let buf = [0, 0, 0, 0, 1, 0xff, 0, b'\0', 0, 0, 0];
    let mut walker = DictionaryWalker::new(&buf[..]);
    assert_eq!(walker.next(), Err(Error::UnexpectedEof));

    let buf = [0, 0, 0, 0, 1, 0x80, 0, b'\0', 0, 0, 0];
    let mut walker = DictionaryWalker::new(&buf[..]);
    assert_eq!(walker.next(), Err(Error::InvalidCharacter));
}

#[test]
fn error_messages() {
    assert_eq!(Error::UnexpectedEof.to_string(), "unexpected EOF");
    assert_eq!(Error::InvalidLengthHeader.to_string(), "invalid length header");
    assert_eq!(Error::OffsetTooLong.to_string(), "offset too long");
    assert_eq!(Error::InvalidCharacter.to_string(), "invalid character");
    assert_eq!(Error::ChildIndexOutOfRange.to_string(), "child index out of range");
}
