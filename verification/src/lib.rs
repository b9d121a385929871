//! A lexical analyzer for a small imperative language.
//!
//! Source text is split into whitespace runs, integer and decimal literals,
//! operators, keywords and identifiers by a fixed, ordered table of lexical
//! rules. Every function is specified over the bytes of the text and proved
//! against that specification.

pub mod classify;
pub mod rules;
pub mod token;
pub mod number;
pub mod scanner;
pub mod laws;

pub use classify::{parse_keyword, parse_operator, Dialect, Keyword, Operator};
pub use rules::{match_rule, Rule};
pub use scanner::{extract_tokens, match_next, tokenize, tokenize_in};
pub use token::{LexError, Token};
