use compiledb::text::{
    bytes_eq, char_from_code_point, chars_to_string, index_of, read_chars, str_to_chars, CharRead,
    InputError,
};

fn read(bytes: &[u8]) -> (Result<(), InputError>, String) {
    let mut output = String::new();
    let result = read_chars(bytes, &mut output);
    (result, output)
}

#[test]
fn strings_and_characters() {
    assert_eq!(str_to_chars(""), Vec::<char>::new());
    assert_eq!(str_to_chars("a𐑦é"), vec!['a', '𐑦', 'é']);
    assert_eq!(&chars_to_string(&['a', '𐑦', 'é']), "a𐑦é");
    assert_eq!(&chars_to_string(&[]), "");
}

#[test]
fn finding_a_character() {
    let chars = ['a', '-', 'b', 'c', '-', 'd'];
    assert_eq!(index_of(&chars, 0, '-'), 1);
    assert_eq!(index_of(&chars, 1, '-'), 1);
    assert_eq!(index_of(&chars, 2, '-'), 4);
    assert_eq!(index_of(&chars, 5, '-'), 6);
    assert_eq!(index_of(&chars, 6, '-'), 6);
    assert_eq!(index_of(&chars, 0, 'x'), 6);
    assert_eq!(index_of(&[], 0, 'x'), 0);
}

#[test]
fn comparing_bytes() {
    assert!(bytes_eq(&[], &[]));
    assert!(bytes_eq(&[1, 2], &[1, 2]));
    assert!(!bytes_eq(&[1, 2], &[1, 3]));
    assert!(!bytes_eq(&[1, 2], &[1]));
    assert!(!bytes_eq(&[], &[0]));
}

#[test]
fn reading_characters_one_by_one() {
    let bytes = "a𐑦é’".as_bytes();
    let mut reader = CharRead::new(bytes);
    assert_eq!(reader.read_char(), Ok(Some('a')));
    assert_eq!(reader.read_char(), Ok(Some('𐑦')));
    assert_eq!(reader.next(), Some('é'));
    assert_eq!(reader.next(), Some('’'));
    assert_eq!(reader.read_char(), Ok(None));
    assert_eq!(reader.next(), None);
    assert_eq!(reader.error(), None);
}

#[test]
fn reading_a_text() {
    assert_eq!(read(b""), (Ok(()), String::new()));
    assert_eq!(read("hello, 𐑢𐑻𐑤𐑛\n".as_bytes()), (Ok(()), "hello, 𐑢𐑻𐑤𐑛\n".to_string()));
    assert_eq!(read(&[0]), (Ok(()), "\0".to_string()));
}

#[test]
fn reading_what_is_no_text() {
    assert_eq!(read(&[b'a', 0x80, b'b']), (Err(InputError::InvalidUtf8), "a".to_string()));
    assert_eq!(read(&[b'a', 0xc3, b'b']), (Err(InputError::InvalidUtf8), "a".to_string()));
    assert_eq!(read(&[0xc0, 0x80]), (Err(InputError::InvalidUtf8), String::new()));
    assert_eq!(read(&[0xed, 0xa0, 0x80]), (Err(InputError::InvalidUtf8), String::new()));
    assert_eq!(read(&[b'a', b'b', 0xc3]), (Err(InputError::UnexpectedEof), "ab".to_string()));
    assert_eq!(read(&[0xf0, 0x90, 0x91]), (Err(InputError::UnexpectedEof), String::new()));
    // A first byte that announces more than four bytes is taken with
    // the three bytes that follow it.
    assert_eq!(read(&[0xff, 0, 0]), (Err(InputError::UnexpectedEof), String::new()));
    assert_eq!(read(&[0xff, 0, 0, 0]), (Err(InputError::InvalidUtf8), String::new()));
    assert_eq!(read(&[0xf8, 0x80, 0x80, 0x80, 0x80]), (Err(InputError::InvalidUtf8), String::new()));
}

#[test]
fn the_error_of_a_reader_is_kept() {
    let bytes = [b'a', 0xff, b'b', b'c', b'd'];
    let mut reader = CharRead::new(&bytes);
    assert_eq!(reader.next(), Some('a'));
    assert_eq!(reader.error(), None);
    assert_eq!(reader.next(), None);
    assert_eq!(reader.error(), Some(InputError::InvalidUtf8));
    assert_eq!(reader.read_char(), Err(InputError::InvalidUtf8));
}

#[test]
fn read_text_is_appended() {
    let mut output = String::from("> ");
    assert_eq!(read_chars(b"abc", &mut output), Ok(()));
    assert_eq!(&output, "> abc");
}

#[test]
fn code_points_become_characters() {
    assert_eq!(char_from_code_point(0), '\0');
    assert_eq!(char_from_code_point(0x61), 'a');
    assert_eq!(char_from_code_point(0x10466), '𐑦');
    assert_eq!(char_from_code_point(0xD7FF), '\u{D7FF}');
    assert_eq!(char_from_code_point(0xE000), '\u{E000}');
    assert_eq!(char_from_code_point(0x10FFFF), '\u{10FFFF}');
}

#[test]
fn other_numbers_become_the_replacement_character() {
    assert_eq!(char_from_code_point(-1), '\u{FFFD}');
    assert_eq!(char_from_code_point(i32::MIN), '\u{FFFD}');
    assert_eq!(char_from_code_point(0xD800), '\u{FFFD}');
    assert_eq!(char_from_code_point(0xDFFF), '\u{FFFD}');
    assert_eq!(char_from_code_point(0x110000), '\u{FFFD}');
    assert_eq!(char_from_code_point(i32::MAX), '\u{FFFD}');
}
