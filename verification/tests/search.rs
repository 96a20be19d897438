use compiledb::dictionary::Error;
use compiledb::search::{dump_dictionary, search, SearchResult};

const PNP: u8 = 22;
const NP0: u8 = 19;
const VVB: u8 = 32;

const WORD_LIST: [u8; 132] = [
    128, 0, 0, 0,
    15, b'a', 0, b'\0', 0, 0, 0, 1,
    15, b'b', 0, b'\0', 0, 0, 0, 0,
    15, b'c', 0, b'\0', 0, 0, 0, 3,
    35, b'd', 10, b'\0', 0, 0, 0, 2,
    1, b'\'', 1, b'b', 0, b'\0', 0, 0, 0, 1,
    23, b'e', 1, b'-', 1, b'f', 0, b'\0', 0, 0, 0, 1,
    15, b'i', 0, b'\0', 0, 0, 0, 6,
    23, b'j', 0, b'\0',
    0x80 | PNP, 0, 0, 0,
    VVB, 0, 0, 1,
    31, b'p', 1, b'a', 1, b'r', 1, b'i', 1, b's', 0, b'\0',
    NP0, 0, 0, 8,
    31, 0xf0, 0x90, 0x91, 0x90, 1, 0xf0, 0x90, 0x91, 0xa8, 0, b'\0',
    NP0, 0, 0, 7,
    21, 0xf0, 0x90, 0x91, 0xa6, 0, b'\0', VVB, 0, 0, 5,
    1, 0xf0, 0x90, 0x91, 0xb2, 0, b'\0', PNP, 0, 0, 5,
];

const WITH_ARTICLES: [u8; 14] = [10, 0, 0, 0, 1, b'a', 0, b'\0', 0x81, 0x34, 0x12, 0x7f, 0xff, 0xff];

fn records(results: &[SearchResult]) -> Vec<(String, String, u8, u16)> {
    results
        .iter()
        .map(|r| (r.word.clone(), r.translation.clone(), r.pos, r.article_num))
        .collect()
}

fn record(word: &str, translation: &str, pos: u8, article_num: u16) -> (String, String, u8, u16) {
    (word.to_string(), translation.to_string(), pos, article_num)
}

fn dump(dictionary: &[u8], prefix: Option<&str>) -> (Result<(), Error>, String) {
    let mut output = String::new();
    let result = dump_dictionary(dictionary, prefix, &mut output);
    (result, output)
}

#[test]
fn search_by_prefix() {
    let results = search(&WORD_LIST[..], "d", 10).ok().unwrap();
    assert_eq!(records(&results), vec![record("d", "c", 0, 0), record("d'b", "b", 0, 0)]);

    let results = search(&WORD_LIST[..], "j", 10).ok().unwrap();
    assert_eq!(records(&results), vec![record("j", "a", PNP, 0), record("j", "b", VVB, 0)]);

    let results = search(&WORD_LIST[..], "pa", 10).ok().unwrap();
    assert_eq!(records(&results), vec![record("paris", "𐑐𐑨", NP0, 0)]);

    let results = search(&WORD_LIST[..], "z", 10).ok().unwrap();
    assert_eq!(results.len(), 0);

    let results = search(&WORD_LIST[..], "a\0", 10).ok().unwrap();
    assert_eq!(results.len(), 0);
}

#[test]
fn search_fills_up_to_the_capacity() {
    let results = search(&WORD_LIST[..], "", 100).ok().unwrap();
    assert_eq!(results.len(), 13);
    assert_eq!(records(&results)[0], record("a", "b", 0, 0));
    assert_eq!(records(&results)[8], record("j", "b", VVB, 0));
    assert_eq!(records(&results)[12], record("𐑲", "i", PNP, 0));

    let results = search(&WORD_LIST[..], "", 8).ok().unwrap();
    assert_eq!(results.len(), 8);
    assert_eq!(records(&results)[7], record("j", "a", PNP, 0));

    let results = search(&WORD_LIST[..], "j", 1).ok().unwrap();
    assert_eq!(records(&results), vec![record("j", "a", PNP, 0)]);

    let results = search(&WORD_LIST[..], "", 0).ok().unwrap();
    assert_eq!(results.len(), 0);

    let results = search(&WORD_LIST[..], "", 13).ok().unwrap();
    assert_eq!(results.len(), 13);
}

#[test]
fn search_gives_the_article_numbers() {
    let results = search(&WITH_ARTICLES[..], "", 10).ok().unwrap();
    assert_eq!(
        records(&results),
        vec![record("a", "a", 1, 0x1234), record("a", "a", 0x7f, 0xffff)],
    );
}

#[test]
fn search_in_a_malformed_dictionary() {
    assert_eq!(search(&[][..], "a", 10).err(), Some(Error::UnexpectedEof));
    assert_eq!(search(&[][..], "", 10).err(), Some(Error::UnexpectedEof));
    assert_eq!(search(&[][..], "", 0).ok().map(|r| r.len()), Some(0));

    let broken = [
        0, 0, 0, 0,
        15, b'a', 0, b'\0', 0, 0, 0, 1,
        15, b'b', 0, b'\0', 0, 0, 0, 3,
        1, b'c', 0, b'\0', 0, 0, 0, 1,
    ];
    assert_eq!(search(&broken[..], "", 10).err(), Some(Error::ChildIndexOutOfRange));
    assert_eq!(search(&broken[..], "", 1).ok().map(|r| r.len()), Some(1));
    assert_eq!(search(&broken[..], "c", 10).ok().map(|r| r.len()), Some(1));
}

#[test]
fn dump_everything() {
    let (result, output) = dump(&WORD_LIST[..], None);
    assert_eq!(result, Ok(()));
    assert_eq!(
        &output,
        "a (0, 0, b)\n\
         b (0, 0, a)\n\
         c (0, 0, d)\n\
         d (0, 0, c)\n\
         d'b (0, 0, b)\n\
         e-f (0, 0, b)\n\
         i (0, 0, j)\n\
         j (22, 0, a) (32, 0, b)\n\
         paris (19, 0, 𐑐𐑨)\n\
         𐑐𐑨 (19, 0, paris)\n\
         𐑦 (32, 0, i)\n\
         𐑲 (22, 0, i)\n",
    );
}

#[test]
fn dump_below_a_prefix() {
    let (result, output) = dump(&WORD_LIST[..], Some("d"));
    assert_eq!(result, Ok(()));
    assert_eq!(&output, "d (0, 0, c)\nd'b (0, 0, b)\n");

    let (result, output) = dump(&WORD_LIST[..], Some("z"));
    assert_eq!(result, Ok(()));
    assert_eq!(&output, "");

    let (result, output) = dump(&WORD_LIST[..], Some(""));
    assert_eq!(result, Ok(()));
    assert_eq!(output.lines().count(), 12);
}

#[test]
fn dump_writes_numbers_to_the_base_ten() {
    let (result, output) = dump(&WITH_ARTICLES[..], None);
    assert_eq!(result, Ok(()));
    assert_eq!(&output, "a (1, 4660, a) (127, 65535, a)\n");
}

#[test]
fn dump_appends_to_the_output() {
    let mut output = String::from("# ");
    assert_eq!(dump_dictionary(&WITH_ARTICLES[..], Some("a"), &mut output), Ok(()));
    assert_eq!(&output, "# a (1, 4660, a) (127, 65535, a)\n");
}

#[test]
fn dump_checks_the_length_header() {
    let mut wrong = WORD_LIST;
    wrong[0] = 0;
    assert_eq!(dump(&wrong[..], None), (Err(Error::InvalidLengthHeader), String::new()));
    assert_eq!(dump(&wrong[..], Some("a")), (Err(Error::InvalidLengthHeader), String::new()));
    assert_eq!(dump(&[0, 0][..], None), (Err(Error::UnexpectedEof), String::new()));
    assert_eq!(dump(&[0, 0, 0, 0][..], None), (Err(Error::UnexpectedEof), String::new()));
    assert_eq!(dump(&[0, 0, 0, 0][..], Some("")), (Err(Error::UnexpectedEof), String::new()));
}

#[test]
fn dump_keeps_what_was_written_before_an_error() {
    let broken = [
        24, 0, 0, 0,
        15, b'a', 0, b'\0', 0, 0, 0, 1,
        15, b'b', 0, b'\0', 9, 1, 0, 3,
        1, b'c', 0, b'\0', 0, 0, 0, 1,
    ];
    assert_eq!(
        dump(&broken[..], None),
        (Err(Error::ChildIndexOutOfRange), "a (0, 0, b)\nb (9, 1, ".to_string()),
    );
}
