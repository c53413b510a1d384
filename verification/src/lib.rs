//! A small pattern-matching engine.
//!
//! A pattern is split into tokens, the tokens are parsed into a syntax tree,
//! and the tree is evaluated greedily, without backtracking, against a text.
//!
//! The pattern language has literal characters, `.`, the escapes `\d \D \s
//! \S \w \W \n \t \0`, classes in `[...]`, groups in `(...)`, the
//! quantifiers `* + ?` and the anchors `^ $`. There is no alternation, no
//! counted repetition, and a group captures nothing.
//!
//! Some points of the language are settled as follows.
//! - All offsets, in tokens and in matches, count characters, not bytes.
//! - The named sets are the ASCII ones.
//! - A class accepts a character that any of its rules accepts; a `.` or an
//!   escape inside a class keeps its meaning.
//! - A group matches as its atoms in order do.
//! - A `[` or `(` that is never closed reaches to the end of the pattern.
//! - A `$` ends the pattern and takes no quantifier.
//! - A repetition stops after a repetition that consumed nothing.
//! - A search also tries the offset just after the last character, where only
//!   an empty match is possible.
//!
//! The executable functions are verified against the mathematical
//! description of the language in `tokenizer`, `parser` and `semantics`;
//! `laws` holds properties that follow from it. Two things are taken from
//! `std` on trust, both in `text`: that `String::push` appends a character,
//! and the text that `{:?}` writes for a character, which is only named.

pub mod errors;
pub mod laws;
pub mod parser;
pub mod regex;
pub mod semantics;
pub mod text;
pub mod tokenizer;

pub use regex::Match;
pub use regex::Regex;
