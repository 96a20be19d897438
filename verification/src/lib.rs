//! A dictionary between two scripts of one language, compiled into a compact
//! file and read back without unpacking it.
//!
//! A lexicon is compiled by `articles` with a `trie_builder` into a
//! dictionary file and into files of articles.  A dictionary file is read by
//! `dictionary`, listed by `search`, and used by `transliteration` to turn
//! running text from one script into the other.  `bit_writer` and
//! `bit_reader` pack and unpack the paths that lead through the trie of a
//! dictionary; `parts_of_speech` holds the tags of the words, and `text`
//! what the library asks of strings and characters.
//!
//! `bits` holds the model of a bit stream, `trie_laws` what holds of every
//! trie that a builder can hold, and `file_laws` what holds of every
//! dictionary file that a builder lays out: that the reader finds in it what
//! the builder was given.

pub mod articles;
pub mod bit_reader;
pub mod bit_writer;
pub mod bits;
pub mod dictionary;
pub mod file_laws;
pub mod parts_of_speech;
pub mod search;
pub mod text;
pub mod transliteration;
pub mod trie_builder;
pub mod trie_laws;
