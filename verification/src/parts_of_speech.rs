//! The inventory of part-of-speech tags and the table that says how likely
//! one tag is to follow another.

use vstd::prelude::*;

verus! {

/// The number of tags, the mark for the start of a sentence included.
pub const N_POS: usize = 40;

/// Personal pronoun.
pub const PNP: u8 = 22;

/// Proper noun.
pub const NP0: u8 = 19;

/// Not a tag of a word: the mark that stands for "no word before this one".
pub const START_OF_SENTENCE: u8 = 39;

/// The names of the tags, in the order of their numbers, which is the
/// alphabetical one.
pub const NAMES: [&'static str; 39] = [
    "AJ0", "AJC", "AJS", "AT0", "AV0", "AVP", "AVQ", "CJC", "CJS", "CJT", "CRD", "DPS", "DT0",
    "DTQ", "EX0", "ITJ", "NN0", "NN1", "NN2", "NP0", "ORD", "PNI", "PNP", "PNQ", "PNX", "POS",
    "PRE", "PRF", "PRP", "TO0", "UNC", "VM0", "VVB", "VVD", "VVG", "VVN", "VVZ", "XX0", "ZZ0",
];

/// For each tag, a row of forty scores: how much each tag is expected
/// straight after it.  A higher score is a better match.  The last row is
/// for the first word of a sentence.
pub const PAIR_PRIORITIES: [u8; 1600] = [
    // after AJ0
    100, 100, 100, 8, 8, 8, 8, 70, 70, 70, 8, 8, 8, 8, 8, 8, 220, 220, 220, 80,
    8, 8, 8, 8, 8, 8, 90, 90, 90, 60, 8, 8, 12, 12, 12, 12, 12, 8, 8, 0,
    // after AJC
    100, 100, 100, 8, 8, 8, 8, 70, 70, 70, 8, 8, 8, 8, 8, 8, 220, 220, 220, 80,
    8, 8, 8, 8, 8, 8, 90, 90, 90, 60, 8, 8, 12, 12, 12, 12, 12, 8, 8, 0,
    // after AJS
    100, 100, 100, 8, 8, 8, 8, 70, 70, 70, 8, 8, 8, 8, 8, 8, 220, 220, 220, 80,
    8, 8, 8, 8, 8, 8, 90, 90, 90, 60, 8, 8, 12, 12, 12, 12, 12, 8, 8, 0,
    // after AT0
    180, 180, 180, 8, 60, 8, 8, 8, 8, 8, 120, 8, 8, 8, 8, 8, 220, 220, 220, 90,
    120, 8, 8, 8, 8, 8, 8, 8, 8, 8, 8, 4, 4, 4, 4, 4, 4, 8, 8, 0,
    // after AV0
    140, 140, 140, 80, 90, 90, 90, 60, 60, 60, 8, 80, 80, 80, 8, 8, 40, 40, 40, 8,
    8, 8, 70, 8, 8, 8, 100, 100, 100, 8, 8, 8, 120, 120, 110, 110, 120, 8, 8, 0,
    // after AVP
    140, 140, 140, 80, 90, 90, 90, 60, 60, 60, 8, 80, 80, 80, 8, 8, 40, 40, 40, 8,
    8, 8, 70, 8, 8, 8, 100, 100, 100, 8, 8, 8, 120, 120, 110, 110, 120, 8, 8, 0,
    // after AVQ
    140, 140, 140, 80, 90, 90, 90, 60, 60, 60, 8, 80, 80, 80, 8, 8, 40, 40, 40, 8,
    8, 8, 70, 8, 8, 8, 100, 100, 100, 8, 8, 8, 120, 120, 110, 110, 120, 8, 8, 0,
    // after CJC
    70, 70, 70, 180, 110, 16, 60, 80, 80, 16, 16, 120, 120, 60, 60, 60, 90, 90, 90, 140,
    16, 16, 190, 60, 16, 16, 16, 16, 100, 16, 16, 30, 50, 16, 50, 16, 16, 16, 16, 0,
    // after CJS
    70, 70, 70, 180, 110, 16, 60, 80, 80, 16, 16, 120, 120, 60, 60, 60, 90, 90, 90, 140,
    16, 16, 190, 60, 16, 16, 16, 16, 100, 16, 16, 30, 50, 16, 50, 16, 16, 16, 16, 0,
    // after CJT
    70, 70, 70, 180, 110, 16, 60, 80, 80, 16, 16, 120, 120, 60, 60, 60, 90, 90, 90, 140,
    16, 16, 190, 60, 16, 16, 16, 16, 100, 16, 16, 30, 50, 16, 50, 16, 16, 16, 16, 0,
    // after CRD
    110, 110, 110, 8, 8, 8, 8, 8, 8, 8, 8, 8, 8, 8, 8, 8, 200, 200, 200, 8,
    8, 8, 8, 8, 8, 8, 80, 80, 80, 8, 8, 8, 8, 8, 8, 8, 8, 8, 8, 0,
    // after DPS
    180, 180, 180, 8, 60, 8, 8, 8, 8, 8, 120, 8, 8, 8, 8, 8, 220, 220, 220, 90,
    120, 8, 8, 8, 8, 8, 8, 8, 8, 8, 8, 4, 4, 4, 4, 4, 4, 8, 8, 0,
    // after DT0
    180, 180, 180, 8, 60, 8, 8, 8, 8, 8, 120, 8, 8, 8, 8, 8, 220, 220, 220, 90,
    120, 8, 8, 8, 8, 8, 8, 8, 8, 8, 8, 4, 4, 4, 4, 4, 4, 8, 8, 0,
    // after DTQ
    180, 180, 180, 8, 60, 8, 8, 8, 8, 8, 120, 8, 8, 8, 8, 8, 220, 220, 220, 90,
    120, 8, 8, 8, 8, 8, 8, 8, 8, 8, 8, 4, 4, 4, 4, 4, 4, 8, 8, 0,
    // after EX0
    8, 8, 8, 8, 8, 8, 8, 8, 8, 8, 8, 8, 8, 8, 8, 8, 8, 8, 8, 8,
    8, 8, 8, 8, 8, 8, 8, 8, 8, 8, 8, 150, 220, 220, 8, 8, 220, 8, 8, 0,
    // after ITJ
    16, 16, 16, 16, 16, 16, 16, 16, 16, 16, 16, 16, 16, 16, 16, 16, 16, 16, 16, 16,
    16, 16, 16, 16, 16, 16, 16, 16, 16, 16, 16, 16, 16, 16, 16, 16, 16, 16, 16, 0,
    // after NN0
    8, 8, 8, 8, 70, 70, 70, 120, 120, 120, 8, 8, 8, 8, 8, 8, 80, 80, 80, 90,
    8, 30, 30, 30, 30, 100, 170, 170, 170, 50, 8, 140, 150, 150, 60, 60, 150, 8, 8, 0,
    // after NN1
    8, 8, 8, 8, 70, 70, 70, 120, 120, 120, 8, 8, 8, 8, 8, 8, 80, 80, 80, 90,
    8, 30, 30, 30, 30, 100, 170, 170, 170, 50, 8, 140, 150, 150, 60, 60, 150, 8, 8, 0,
    // after NN2
    8, 8, 8, 8, 70, 70, 70, 120, 120, 120, 8, 8, 8, 8, 8, 8, 80, 80, 80, 90,
    8, 30, 30, 30, 30, 100, 170, 170, 170, 50, 8, 140, 150, 150, 60, 60, 150, 8, 8, 0,
    // after NP0
    8, 8, 8, 8, 70, 70, 70, 120, 120, 120, 8, 8, 8, 8, 8, 8, 80, 80, 80, 90,
    8, 30, 30, 30, 30, 100, 170, 170, 170, 50, 8, 140, 150, 150, 60, 60, 150, 8, 8, 0,
    // after ORD
    110, 110, 110, 8, 8, 8, 8, 8, 8, 8, 8, 8, 8, 8, 8, 8, 200, 200, 200, 8,
    8, 8, 8, 8, 8, 8, 80, 80, 80, 8, 8, 8, 8, 8, 8, 8, 8, 8, 8, 0,
    // after PNI
    8, 8, 8, 8, 90, 90, 90, 60, 60, 60, 8, 8, 8, 8, 8, 8, 30, 30, 30, 8,
    8, 10, 10, 10, 10, 8, 70, 70, 70, 8, 8, 190, 210, 210, 50, 50, 210, 40, 8, 0,
    // after PNP
    8, 8, 8, 8, 90, 90, 90, 60, 60, 60, 8, 8, 8, 8, 8, 8, 30, 30, 30, 8,
    8, 10, 10, 10, 10, 8, 70, 70, 70, 8, 8, 190, 210, 210, 50, 50, 210, 40, 8, 0,
    // after PNQ
    8, 8, 8, 8, 90, 90, 90, 60, 60, 60, 8, 8, 8, 8, 8, 8, 30, 30, 30, 8,
    8, 10, 10, 10, 10, 8, 70, 70, 70, 8, 8, 190, 210, 210, 50, 50, 210, 40, 8, 0,
    // after PNX
    8, 8, 8, 8, 90, 90, 90, 60, 60, 60, 8, 8, 8, 8, 8, 8, 30, 30, 30, 8,
    8, 10, 10, 10, 10, 8, 70, 70, 70, 8, 8, 190, 210, 210, 50, 50, 210, 40, 8, 0,
    // after POS
    150, 150, 150, 8, 8, 8, 8, 8, 8, 8, 8, 8, 8, 8, 8, 8, 220, 220, 220, 8,
    8, 8, 8, 8, 8, 8, 8, 8, 8, 8, 8, 8, 8, 8, 8, 8, 8, 8, 8, 0,
    // after PRE
    100, 100, 100, 210, 8, 8, 8, 8, 8, 8, 90, 160, 160, 160, 8, 8, 150, 150, 150, 140,
    90, 60, 120, 60, 60, 8, 8, 8, 8, 8, 8, 8, 6, 6, 70, 8, 6, 8, 8, 0,
    // after PRF
    100, 100, 100, 210, 8, 8, 8, 8, 8, 8, 90, 160, 160, 160, 8, 8, 150, 150, 150, 140,
    90, 60, 120, 60, 60, 8, 8, 8, 8, 8, 8, 8, 6, 6, 70, 8, 6, 8, 8, 0,
    // after PRP
    100, 100, 100, 210, 8, 8, 8, 8, 8, 8, 90, 160, 160, 160, 8, 8, 150, 150, 150, 140,
    90, 60, 120, 60, 60, 8, 8, 8, 8, 8, 8, 8, 6, 6, 70, 8, 6, 8, 8, 0,
    // after TO0
    8, 8, 8, 8, 40, 40, 40, 8, 8, 8, 8, 8, 8, 8, 8, 8, 8, 8, 8, 8,
    8, 8, 8, 8, 8, 8, 8, 8, 8, 8, 8, 8, 250, 4, 4, 4, 4, 8, 8, 0,
    // after UNC
    16, 16, 16, 16, 16, 16, 16, 16, 16, 16, 16, 16, 16, 16, 16, 16, 16, 16, 16, 16,
    16, 16, 16, 16, 16, 16, 16, 16, 16, 16, 16, 16, 16, 16, 16, 16, 16, 16, 16, 0,
    // after VM0
    8, 8, 8, 8, 100, 100, 100, 8, 8, 8, 8, 8, 8, 8, 8, 8, 8, 8, 8, 8,
    8, 8, 60, 8, 8, 8, 8, 8, 8, 8, 8, 4, 230, 4, 8, 8, 4, 150, 8, 0,
    // after VVB
    95, 95, 95, 170, 130, 130, 130, 70, 70, 70, 8, 130, 130, 130, 8, 8, 100, 100, 100, 90,
    8, 60, 140, 60, 60, 8, 150, 150, 150, 110, 8, 8, 12, 12, 85, 85, 12, 75, 8, 0,
    // after VVD
    95, 95, 95, 170, 130, 130, 130, 70, 70, 70, 8, 130, 130, 130, 8, 8, 100, 100, 100, 90,
    8, 60, 140, 60, 60, 8, 150, 150, 150, 110, 8, 8, 12, 12, 85, 85, 12, 75, 8, 0,
    // after VVG
    95, 95, 95, 170, 130, 130, 130, 70, 70, 70, 8, 130, 130, 130, 8, 8, 100, 100, 100, 90,
    8, 60, 140, 60, 60, 8, 150, 150, 150, 110, 8, 8, 12, 12, 85, 85, 12, 75, 8, 0,
    // after VVN
    95, 95, 95, 170, 130, 130, 130, 70, 70, 70, 8, 130, 130, 130, 8, 8, 100, 100, 100, 90,
    8, 60, 140, 60, 60, 8, 150, 150, 150, 110, 8, 8, 12, 12, 85, 85, 12, 75, 8, 0,
    // after VVZ
    95, 95, 95, 170, 130, 130, 130, 70, 70, 70, 8, 130, 130, 130, 8, 8, 100, 100, 100, 90,
    8, 60, 140, 60, 60, 8, 150, 150, 150, 110, 8, 8, 12, 12, 85, 85, 12, 75, 8, 0,
    // after XX0
    100, 100, 100, 80, 90, 90, 90, 8, 8, 8, 8, 80, 80, 80, 8, 8, 8, 8, 8, 8,
    8, 8, 8, 8, 8, 8, 8, 8, 8, 8, 8, 8, 180, 8, 180, 180, 8, 8, 8, 0,
    // after ZZ0
    16, 16, 16, 16, 16, 16, 16, 16, 16, 16, 16, 16, 16, 16, 16, 16, 16, 16, 16, 16,
    16, 16, 16, 16, 16, 16, 16, 16, 16, 16, 16, 16, 16, 16, 16, 16, 16, 16, 16, 0,
    // after START_OF_SENTENCE
    80, 80, 80, 190, 120, 16, 70, 90, 90, 16, 16, 130, 130, 70, 70, 70, 100, 100, 100, 150,
    16, 16, 200, 70, 16, 16, 16, 16, 110, 16, 16, 40, 60, 16, 60, 16, 16, 16, 16, 0,
];

/// The score of the tag `right` straight after the tag `left`, as the table
/// gives it: the entry `right` of the row `left`.
#[verifier::opaque]
pub open spec fn spec_pair_priority(left: u8, right: u8) -> u8 {
    PAIR_PRIORITIES[left * N_POS + right]
}

/// The score of the tag `right` straight after the tag `left`.
pub fn pair_priority(left: u8, right: u8) -> (score: u8)
    requires
        left < N_POS,
        right < N_POS,
    ensures
        score == spec_pair_priority(left, right),
{
    proof {
        reveal(spec_pair_priority);
    }
    let index: usize = left as usize * N_POS + right as usize;
    PAIR_PRIORITIES[index]
}

} // verus!
