use compiledb::parts_of_speech::{
    pair_priority, NAMES, NP0, N_POS, PAIR_PRIORITIES, PNP, START_OF_SENTENCE,
};

#[test]
fn constants() {
    assert_eq!(NAMES[NP0 as usize], "NP0");
    assert_eq!(NAMES[PNP as usize], "PNP");
}

#[test]
fn names_are_sorted() {
    for i in 1..NAMES.len() {
        assert!(NAMES[i - 1] < NAMES[i]);
    }
    assert_eq!(NAMES[32], "VVB");
}

#[test]
fn start_of_sentence_is_the_last_tag() {
    assert_eq!(N_POS, 40);
    assert_eq!(START_OF_SENTENCE as usize, N_POS - 1);
    assert_eq!(NAMES.len(), N_POS - 1);
}

#[test]
fn pair_priority_reads_the_table_by_rows() {
    assert_eq!(PAIR_PRIORITIES.len(), N_POS * N_POS);
    for left in 0..N_POS {
        for right in 0..N_POS {
            assert_eq!(
                pair_priority(left as u8, right as u8),
                PAIR_PRIORITIES[left * N_POS + right],
            );
        }
    }
}

#[test]
fn a_verb_is_expected_after_a_pronoun() {
    let vvb = 32u8;
    assert_eq!(pair_priority(PNP, vvb), 210);
    assert_eq!(pair_priority(PNP, PNP), 10);
    assert_eq!(pair_priority(START_OF_SENTENCE, PNP), 200);
    assert_eq!(pair_priority(START_OF_SENTENCE, vvb), 60);
}
