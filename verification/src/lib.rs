//! Decodes strings of keypad digits into dictionary words.
//!
//! Every letter stands for a digit, so every word has a digit sequence. The
//! words of a dictionary are stored by digit sequence in a trie, and a digit
//! string is decoded by finding every way to cut it into such sequences. A
//! digit at which no word starts may stand for itself, but never two such
//! digits in a row.
//!
//! - [`keypad`]: the letters' digits, and the digit sequences of words.
//! - [`trie`]: the trie, filled with `insert` and `build`.
//! - [`search`]: the search for all decompositions of a digit string.
//! - [`theorems`]: what holds of the search and of the trie.
//! - [`clean`]: the digits of an input line.
//! - [`render`]: the text of the output.
//! - [`decoder`]: all of it in a row, from lines to text.

pub mod clean;
pub mod decoder;
pub mod keypad;
pub mod render;
pub mod search;
pub mod theorems;
pub mod trie;
