use compiledb::articles::{
    article_file_name, build_articles, build_trie, combine_variants, filter_entries, has_nul,
    lookup_pos, lookup_var, remap_ipa, remap_pos, write_article, write_string, BuildError,
    Entry, Error, ARTICLES_PER_FILE, PARTS_OF_SPEECH_REMAP, VARIATIONS,
};
use compiledb::dictionary::check_length;
use compiledb::parts_of_speech::NAMES;
use compiledb::search::search;
use compiledb::trie_builder::TrieBuilder;

fn entry(latin: &str, shavian: &str, pos: &str, ipa: &str, var: &str, freq: u32) -> Entry {
    Entry {
        latin: latin.to_string(),
        shavian: shavian.to_string(),
        pos: pos.to_string(),
        ipa: ipa.to_string(),
        var: var.to_string(),
        freq,
    }
}

fn cat() -> Entry {
    entry("cat", "𐑒𐑨𐑑", "NN1", "kÆt", "RRP", 5)
}

const CAT_ARTICLE: [u8; 28] = [
    26, 0,
    3, b'c', b'a', b't',
    1, 17,
    1,
    2,
    12, 0xf0, 0x90, 0x91, 0x92, 0xf0, 0x90, 0x91, 0xa8, 0xf0, 0x90, 0x91, 0x91,
    4, b'k', 0xc3, 0xa6, b't',
];

#[test]
fn tables_are_sorted() {
    for i in 1..PARTS_OF_SPEECH_REMAP.len() {
        assert!(PARTS_OF_SPEECH_REMAP[i - 1].0 < PARTS_OF_SPEECH_REMAP[i].0);
    }
    for i in 1..VARIATIONS.len() {
        assert!(VARIATIONS[i - 1] < VARIATIONS[i]);
    }
    for &(_, name) in PARTS_OF_SPEECH_REMAP.iter() {
        assert!(NAMES.contains(&name));
    }
    assert!(!NAMES.contains(&"VVI"));
    assert_eq!(ARTICLES_PER_FILE, 128);
}

#[test]
fn remapping_tags() {
    assert_eq!(remap_pos("AJ0"), Some(0));
    assert_eq!(remap_pos("NN1"), Some(17));
    assert_eq!(remap_pos("NP0"), Some(19));
    assert_eq!(remap_pos("PNP"), Some(22));
    assert_eq!(remap_pos("ZZ0"), Some(38));
    assert_eq!(remap_pos("P0"), Some(19));
    assert_eq!(remap_pos("VBB"), Some(32));
    assert_eq!(remap_pos("VHI"), Some(32));
    assert_eq!(remap_pos("VVI"), Some(32));
    assert_eq!(remap_pos("VBD"), Some(33));
    assert_eq!(remap_pos("VDG"), Some(34));
    assert_eq!(remap_pos("VHN"), Some(35));
    assert_eq!(remap_pos("VBZ"), Some(36));
    assert_eq!(remap_pos("AJ0+NN1"), Some(0));
    assert_eq!(remap_pos("VBB+XYZ"), Some(32));
    assert_eq!(remap_pos("XYZ"), None);
    assert_eq!(remap_pos("XYZ+NN1"), None);
    assert_eq!(remap_pos("nn1"), None);
    assert_eq!(remap_pos(""), None);
    assert_eq!(remap_pos("+NN1"), None);
    for (i, &name) in NAMES.iter().enumerate() {
        assert_eq!(remap_pos(name), Some(i as u8));
    }
}

#[test]
fn looking_up_tags() {
    assert_eq!(lookup_pos("NN1"), Some(vec![17]));
    assert_eq!(lookup_pos("AJ0+NN1"), Some(vec![0, 17]));
    assert_eq!(lookup_pos("VVI+VBB+P0"), Some(vec![32, 32, 19]));
    assert_eq!(lookup_pos("AJ0+QQ"), None);
    assert_eq!(lookup_pos("QQ+AJ0"), None);
    assert_eq!(lookup_pos(""), None);
    assert_eq!(lookup_pos("AJ0+"), None);
    assert_eq!(lookup_pos("+AJ0"), None);
    assert_eq!(lookup_pos("AJ0++NN1"), None);
}

#[test]
fn looking_up_variations() {
    assert_eq!(lookup_var("GenAm"), Some(0));
    assert_eq!(lookup_var("GenAus"), Some(1));
    assert_eq!(lookup_var("RRP"), Some(2));
    assert_eq!(lookup_var("RRPVar"), Some(3));
    assert_eq!(lookup_var("SSB"), Some(4));
    assert_eq!(lookup_var("TrapBath"), Some(5));
    assert_eq!(lookup_var("Foo"), None);
    assert_eq!(lookup_var(""), None);
    assert_eq!(lookup_var("rrp"), None);
}

#[test]
fn remapping_pronunciations() {
    assert_eq!(&remap_ipa(""), "");
    assert_eq!(&remap_ipa("kat"), "kat");
    assert_eq!(&remap_ipa("I"), "ə");
    assert_eq!(&remap_ipa("R"), "(r)");
    assert_eq!(&remap_ipa("Æ"), "æ");
    assert_eq!(&remap_ipa("Ə"), "ə");
    assert_eq!(&remap_ipa("Ɑ"), "ɑ");
    assert_eq!(&remap_ipa("IRÆƏⱭx"), "ə(r)æəɑx");
    assert_eq!(&remap_ipa("ˈfɑːðəR"), "ˈfɑːðə(r)");
    assert_eq!(&remap_ipa("iræə"), "iræə");
}

#[test]
fn filtering_entries() {
    let entries = vec![
        entry("a", "𐑩", "AT0", "ə", "RRP", 3),
        entry("a", "𐑩", "AT0", "ə", "RRP", 9),
        entry("a", "𐑩", "AT0", "ə", "GenAm", 1),
        entry("a", "𐑩", "AT0", "ə", "RRP", 5),
        entry("a", "𐑩", "AT0+NN1", "ə", "RRP", 2),
        entry("b", "𐑚", "VVI", "b", "RRP", 7),
        entry("b", "𐑚", "VVB", "b", "RRP", 6),
    ];
    let filtered = filter_entries(&entries[..]).ok().unwrap();
    let seen: Vec<(&str, &str, Vec<u8>, &str, &str, u32)> = filtered
        .iter()
        .map(|f| (f.latin, f.shavian, f.pos.clone(), f.ipa, f.var, f.freq))
        .collect();
    assert_eq!(
        seen,
        vec![
            ("a", "𐑩", vec![3], "ə", "RRP", 9),
            ("a", "𐑩", vec![3], "ə", "GenAm", 1),
            ("a", "𐑩", vec![3, 17], "ə", "RRP", 2),
            ("b", "𐑚", vec![32], "b", "RRP", 7),
        ],
    );

    assert_eq!(filter_entries(&[][..]).ok().map(|f| f.len()), Some(0));
}

#[test]
fn filtering_entries_with_an_unknown_tag() {
    let entries = vec![cat(), entry("x", "𐑻", "NN1+??", "x", "RRP", 0), cat()];
    assert_eq!(filter_entries(&entries[..]).err(), Some(Error::UnknownPartOfSpeech(1)));
    // The variation is not looked at here.
    let entries = vec![entry("x", "𐑻", "NN1", "x", "??", 0)];
    assert_eq!(filter_entries(&entries[..]).ok().map(|f| f.len()), Some(1));
}

#[test]
fn combining_variants() {
    let entries = vec![
        entry("bath", "𐑚𐑭𐑔", "NN1", "bⱭːθ", "RRP", 3),
        entry("bath", "𐑚𐑨𐑔", "NN1", "bÆθ", "TrapBath", 3),
        entry("bath", "𐑚𐑭𐑔", "VVB", "bⱭːθ", "RRP", 1),
        entry("bath", "𐑚𐑭𐑔", "NN1", "bⱭːθ", "SSB", 3),
        entry("Bath", "𐑚𐑭𐑔", "NN1", "bⱭːθ", "RRP", 3),
    ];
    let combined = combine_variants(&entries[..]).ok().unwrap();
    let seen: Vec<(&str, Vec<u8>, Vec<(u8, &str, &str)>)> = combined
        .iter()
        .map(|e| {
            (
                e.latin,
                e.pos.clone(),
                e.variants.iter().map(|v| (v.var, v.shavian, v.ipa.as_str())).collect(),
            )
        })
        .collect();
    assert_eq!(
        seen,
        vec![
            ("bath", vec![17], vec![(2, "𐑚𐑭𐑔", "bɑːθ"), (5, "𐑚𐑨𐑔", "bæθ")]),
            ("bath", vec![32], vec![(2, "𐑚𐑭𐑔", "bɑːθ")]),
            ("bath", vec![17], vec![(4, "𐑚𐑭𐑔", "bɑːθ")]),
            ("Bath", vec![17], vec![(2, "𐑚𐑭𐑔", "bɑːθ")]),
        ],
    );
}

#[test]
fn combining_variants_with_errors() {
    let entries = vec![cat(), entry("x", "𐑻", "NN1", "x", "Posh", 0)];
    assert_eq!(combine_variants(&entries[..]).err(), Some(Error::UnknownVariation(1)));
    // An entry that says what an earlier one says is gone before the
    // variations are looked up, so the number counts the entries left.
    let entries = vec![cat(), cat(), entry("x", "𐑻", "NN1", "x", "Posh", 0)];
    assert_eq!(combine_variants(&entries[..]).err(), Some(Error::UnknownVariation(1)));
    let entries = vec![entry("x", "𐑻", "N", "x", "Posh", 0)];
    assert_eq!(combine_variants(&entries[..]).err(), Some(Error::UnknownPartOfSpeech(0)));
}

#[test]
fn strings_in_articles() {
    let mut output = vec![0xffu8];
    write_string("", &mut output);
    write_string("cat", &mut output);
    write_string("æ", &mut output);
    assert_eq!(&output, &[0xff, 0, 3, b'c', b'a', b't', 2, 0xc3, 0xa6]);

    let long = "x".repeat(258);
    let mut output = Vec::new();
    write_string(&long, &mut output);
    assert_eq!(output.len(), 259);
    assert_eq!(output[0], 2);
}

#[test]
fn writing_an_article() {
    let mut output = Vec::new();
    assert_eq!(write_article(&[cat()][..], &mut output), Ok(()));
    assert_eq!(&output, &CAT_ARTICLE);

    let mut output = vec![7u8];
    assert_eq!(write_article(&[][..], &mut output), Ok(()));
    assert_eq!(&output, &[7, 0, 0]);
}

#[test]
fn writing_an_article_of_several_entries() {
    let entries = vec![
        entry("a", "𐑩", "AT0+NN1", "I", "RRP", 3),
        entry("a", "𐑱", "AT0+NN1", "eɪ", "GenAm", 3),
        entry("b", "𐑚", "ZZ0", "R", "SSB", 3),
    ];
    let mut output = Vec::new();
    assert_eq!(write_article(&entries[..], &mut output), Ok(()));
    assert_eq!(
        &output,
        &[
            40, 0,
            1, b'a',
            2, 3, 17,
            2,
            2, 4, 0xf0, 0x90, 0x91, 0xa9, 2, 0xc9, 0x99,
            0, 4, 0xf0, 0x90, 0x91, 0xb1, 3, b'e', 0xc9, 0xaa,
            1, b'b',
            1, 38,
            1,
            4, 4, 0xf0, 0x90, 0x91, 0x9a, 3, b'(', b'r', b')',
        ],
    );
}

#[test]
fn writing_a_wrong_article_writes_nothing() {
    let mut output = vec![1u8, 2];
    let entries = vec![cat(), entry("x", "𐑻", "NN1", "x", "Posh", 0)];
    assert_eq!(write_article(&entries[..], &mut output), Err(Error::UnknownVariation(1)));
    assert_eq!(&output, &[1, 2]);
}

#[test]
fn the_length_of_a_long_article_wraps() {
    let long = "x".repeat(200);
    let entries: Vec<Entry> = (0..400)
        .map(|i| entry(&long, "𐑻", "NN1", "x", "RRP", i))
        .collect();
    let mut output = Vec::new();
    assert_eq!(write_article(&entries[..], &mut output), Ok(()));
    // Entries with different frequencies say the same, so one is left:
    // 201 bytes of the word, 2 of the tag, 1 for the count and 8 for the
    // one way to say it.
    assert_eq!(output.len(), 2 + 212);
    assert_eq!(&output[0..3], &[212, 0, 200]);

    let entries: Vec<Entry> = (0..400)
        .map(|i| entry(&long, "𐑻", "NN1", &format!("{}", i), "RRP", 0))
        .collect();
    let mut output = Vec::new();
    assert_eq!(write_article(&entries[..], &mut output), Ok(()));
    // One entry with 400 ways to say it: each takes the number of the
    // variation, five bytes for the Shavian form and two to four for
    // the pronunciation.
    let body = 201 + 2 + 1 + 400 * 6 + (10 * 2 + 90 * 3 + 300 * 4);
    assert_eq!(output.len(), 2 + body);
    assert_eq!(output[0] as usize, body % 256);
    assert_eq!(output[1] as usize, body / 256);
    assert_eq!(output[2 + 201 + 2] as usize, 400 % 256);
}

#[test]
fn file_names() {
    assert_eq!(&article_file_name(0), "article-0000.bin");
    assert_eq!(&article_file_name(128), "article-0080.bin");
    assert_eq!(&article_file_name(0xabc), "article-0abc.bin");
    assert_eq!(&article_file_name(0xffff), "article-ffff.bin");
    assert_eq!(&article_file_name(0x10000), "article-10000.bin");
    assert_eq!(&article_file_name(0x12345f), "article-12345f.bin");
}

#[test]
fn article_files() {
    let articles: Vec<Vec<Entry>> = (0..257).map(|_| vec![cat()]).collect();
    let files = build_articles(&articles[..]).ok().unwrap();
    assert_eq!(files.len(), 3);
    assert_eq!(&files[0].name, "article-0000.bin");
    assert_eq!(&files[1].name, "article-0080.bin");
    assert_eq!(&files[2].name, "article-0100.bin");
    assert_eq!(files[0].contents.len(), 128 * CAT_ARTICLE.len());
    assert_eq!(files[1].contents.len(), 128 * CAT_ARTICLE.len());
    assert_eq!(&files[2].contents, &CAT_ARTICLE);
    assert_eq!(&files[0].contents[CAT_ARTICLE.len()..2 * CAT_ARTICLE.len()], &CAT_ARTICLE);

    let files = build_articles(&articles[0..128]).ok().unwrap();
    assert_eq!(files.len(), 1);
    assert_eq!(files[0].contents.len(), 128 * CAT_ARTICLE.len());

    let files = build_articles(&articles[0..129]).ok().unwrap();
    assert_eq!(files.len(), 2);
    assert_eq!(&files[1].contents, &CAT_ARTICLE);

    let files = build_articles(&[][..]).ok().unwrap();
    assert_eq!(files.len(), 0);

    let files = build_articles(&[vec![], vec![cat()]][..]).ok().unwrap();
    assert_eq!(files.len(), 1);
    assert_eq!(&files[0].contents[0..2], &[0, 0]);
    assert_eq!(&files[0].contents[2..], &CAT_ARTICLE);
}

#[test]
fn article_files_with_a_wrong_article() {
    let mut articles: Vec<Vec<Entry>> = (0..130).map(|_| vec![cat()]).collect();
    articles[129].push(entry("x", "𐑻", "NN1", "x", "Posh", 0));
    assert_eq!(
        build_articles(&articles[..]).err(),
        Some(BuildError::Article(129, Error::UnknownVariation(1))),
    );
    articles[3][0].pos = "Q".to_string();
    assert_eq!(
        build_articles(&articles[..]).err(),
        Some(BuildError::Article(3, Error::UnknownPartOfSpeech(0))),
    );
}

#[test]
fn nul_characters() {
    assert!(!has_nul(""));
    assert!(!has_nul("abc"));
    assert!(has_nul("\0"));
    assert!(has_nul("ab\0c"));
}

#[test]
fn dictionary_file() {
    let articles = vec![
        vec![cat(), entry("a", "𐑩", "AT0+NN1", "I", "RRP", 3)],
        vec![entry("cat", "𐑒𐑨𐑑", "NN1", "kÆt", "RRP", 9), entry("be", "𐑚", "VBI", "b", "SSB", 0)],
    ];
    let file = build_trie(&articles[..]).ok().unwrap();

    let mut builder = TrieBuilder::new();
    builder.add_entry("𐑒𐑨𐑑", "cat", 17, 0, u32::MAX - 5);
    builder.add_entry("𐑩", "a", 3, 0, u32::MAX - 3);
    builder.add_entry("𐑒𐑨𐑑", "cat", 17, 1, u32::MAX - 9);
    builder.add_entry("𐑚", "be", 32, 1, u32::MAX);
    let mut expected = Vec::new();
    builder.into_dictionary(&mut expected).unwrap();

    assert_eq!(&file, &expected);
    assert_eq!(&file[0..4], &(file.len() as u32 - 4).to_le_bytes());
    assert_eq!(check_length(&file[..]), Ok(()));
}

#[test]
fn dictionary_file_can_be_read() {
    let articles = vec![
        vec![cat(), entry("a", "𐑩", "AT0+NN1", "I", "RRP", 3)],
        vec![entry("cat", "𐑒𐑨𐑑", "NN1", "kÆt", "RRP", 9), entry("be", "𐑚", "VBI", "b", "SSB", 0)],
    ];
    let file = build_trie(&articles[..]).ok().unwrap();

    let results = search(&file[..], "", 100).ok().unwrap();
    let seen: Vec<(&str, &str, u8, u16)> = results
        .iter()
        .map(|r| (r.word.as_str(), r.translation.as_str(), r.pos, r.article_num))
        .collect();
    assert_eq!(
        seen,
        vec![
            ("a", "𐑩", 3, 0),
            ("be", "𐑚", 32, 1),
            // The more frequent translation comes first.
            ("cat", "𐑒𐑨𐑑", 17, 1),
            ("cat", "𐑒𐑨𐑑", 17, 0),
            ("𐑒𐑨𐑑", "cat", 17, 1),
            ("𐑒𐑨𐑑", "cat", 17, 0),
            ("𐑚", "be", 32, 1),
            ("𐑩", "a", 3, 0),
        ],
    );
}

#[test]
fn the_most_frequent_translation_comes_first() {
    let articles = vec![vec![
        entry("read", "𐑮𐑧𐑛", "VVD", "rɛd", "RRP", 50),
        entry("read", "𐑮𐑰𐑛", "VVB", "riːd", "RRP", 7),
        entry("read", "𐑮𐑰𐑛", "VVB", "riːd", "RRP", 100),
        entry("read", "𐑮𐑰𐑛", "NN1", "riːd", "RRP", 50),
    ]];
    let file = build_trie(&articles[..]).ok().unwrap();
    let results = search(&file[..], "read", 100).ok().unwrap();
    let seen: Vec<(&str, u8)> =
        results.iter().map(|r| (r.translation.as_str(), r.pos)).collect();
    assert_eq!(seen, vec![("𐑮𐑰𐑛", 32), ("𐑮𐑧𐑛", 33), ("𐑮𐑰𐑛", 17)]);
}

#[test]
fn article_numbers_wrap() {
    let mut articles: Vec<Vec<Entry>> = (0..0x1_0001).map(|_| Vec::new()).collect();
    articles[0x1_0000].push(cat());
    articles[0xffff].push(entry("a", "𐑩", "AT0", "I", "RRP", 3));
    let file = build_trie(&articles[..]).ok().unwrap();
    let results = search(&file[..], "", 100).ok().unwrap();
    let seen: Vec<(&str, u16)> =
        results.iter().map(|r| (r.word.as_str(), r.article_num)).collect();
    assert_eq!(seen, vec![("a", 0xffff), ("cat", 0), ("𐑒𐑨𐑑", 0), ("𐑩", 0xffff)]);
}

#[test]
fn dictionary_file_of_nothing() {
    let file = build_trie(&[][..]).ok().unwrap();
    assert_eq!(&file, &[0, 0, 0, 0]);
    let file = build_trie(&[vec![], vec![]][..]).ok().unwrap();
    assert_eq!(&file, &[0, 0, 0, 0]);
    assert_eq!(check_length(&file[..]), Ok(()));
}

#[test]
fn dictionary_file_with_wrong_entries() {
    let articles = vec![vec![cat()], vec![cat(), entry("x", "𐑻", "NN9", "x", "RRP", 0)]];
    assert_eq!(
        build_trie(&articles[..]).err(),
        Some(BuildError::Article(1, Error::UnknownPartOfSpeech(1))),
    );
    let articles = vec![vec![cat(), entry("x\0y", "𐑻", "NN1", "x", "RRP", 0)]];
    assert_eq!(
        build_trie(&articles[..]).err(),
        Some(BuildError::Article(0, Error::NulCharacter(1))),
    );
    let articles = vec![vec![entry("x", "\0", "NN1", "x", "RRP", 0)]];
    assert_eq!(
        build_trie(&articles[..]).err(),
        Some(BuildError::Article(0, Error::NulCharacter(0))),
    );
    // The variation plays no part in the trie.
    let articles = vec![vec![entry("x", "𐑻", "NN1", "x", "Posh", 0)]];
    assert!(build_trie(&articles[..]).is_ok());
}
