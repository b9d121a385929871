//! Tokens, lexical errors, and what each stands for in specifications.

use crate::classify::{Keyword, Operator};
use vstd::prelude::*;

verus! {

/// A classified unit of lexical output.
#[derive(Debug, Clone, PartialEq)]
pub enum Token {
    /// An integer literal, by its value.
    Integer(i64),
    /// A run of spaces, tabs and newlines.
    Whitespace,
    /// A name that is no keyword.
    Identifier(String),
    /// A decimal literal, by its text: an optional minus sign, digits, a dot,
    /// digits.
    Decimal(String),
    /// A reserved word.
    Keyword(Keyword),
    /// An operator.
    Operator(Operator),
}

/// What a `Token` stands for: the same variants, with text as a sequence of
/// characters.
pub ghost enum TokenView {
    Integer(i64),
    Whitespace,
    Identifier(Seq<char>),
    Decimal(Seq<char>),
    Keyword(Keyword),
    Operator(Operator),
}

impl View for Token {
    type V = TokenView;

    open spec fn view(&self) -> TokenView {
        match self {
            Token::Integer(v) => TokenView::Integer(*v),
            Token::Whitespace => TokenView::Whitespace,
            Token::Identifier(name) => TokenView::Identifier(name@),
            Token::Decimal(text) => TokenView::Decimal(text@),
            Token::Keyword(k) => TokenView::Keyword(*k),
            Token::Operator(op) => TokenView::Operator(*op),
        }
    }
}

impl Token {
    /// Whether the token is a whitespace run.
    pub fn is_whitespace(&self) -> (r: bool)
        ensures
            r == (self@ is Whitespace),
    {
        match self {
            Token::Whitespace => true,
            _ => false,
        }
    }
}

/// Why a text could not be tokenized.
#[derive(Debug, Clone, PartialEq)]
pub enum LexError {
    /// The operator rule matched a spelling that names no operator.
    UnknownOperatorSpelling { byte_offset: usize, spelling: String },
    /// Two tokens other than whitespace stand side by side; `byte_offset` is
    /// where the second begins.
    MissingSeparator { previous: Token, current: Token, byte_offset: usize },
    /// No rule matches at `byte_offset`, and what remains there is more than
    /// whitespace.
    UnrecognizedToken { byte_offset: usize },
    /// An integer literal does not fit in 64 bits.
    NumericLiteralOverflow { byte_offset: usize, literal_text: String },
}

/// What a `LexError` stands for.
pub ghost enum LexErrorView {
    UnknownOperatorSpelling { byte_offset: int, spelling: Seq<char> },
    MissingSeparator { previous: TokenView, current: TokenView, byte_offset: int },
    UnrecognizedToken { byte_offset: int },
    NumericLiteralOverflow { byte_offset: int, literal_text: Seq<char> },
}

impl View for LexError {
    type V = LexErrorView;

    open spec fn view(&self) -> LexErrorView {
        match self {
            LexError::UnknownOperatorSpelling { byte_offset, spelling } => {
                LexErrorView::UnknownOperatorSpelling {
                    byte_offset: *byte_offset as int,
                    spelling: spelling@,
                }
            },
            LexError::MissingSeparator { previous, current, byte_offset } => {
                LexErrorView::MissingSeparator {
                    previous: previous@,
                    current: current@,
                    byte_offset: *byte_offset as int,
                }
            },
            LexError::UnrecognizedToken { byte_offset } => LexErrorView::UnrecognizedToken {
                byte_offset: *byte_offset as int,
            },
            LexError::NumericLiteralOverflow { byte_offset, literal_text } => {
                LexErrorView::NumericLiteralOverflow {
                    byte_offset: *byte_offset as int,
                    literal_text: literal_text@,
                }
            },
        }
    }
}

/// The characters that a sequence of bytes stands for, one for each byte.
pub open spec fn chars_of(s: Seq<u8>) -> Seq<char> {
    Seq::new(s.len(), |k: int| s[k] as char)
}

/// `String::push`: the character is added at the end of the string, and the
/// rest of the string stays as it was.
#[verifier::external_body]
fn push_char(text: &mut String, c: char)
    ensures
        final(text)@ == old(text)@.push(c),
{
    text.push(c);
}

/// The text of `bytes[start..end]`, one character for each byte.
pub fn text_of(bytes: &[u8], start: usize, end: usize) -> (text: String)
    requires
        start <= end <= bytes@.len(),
    ensures
        text@ == chars_of(bytes@.subrange(start as int, end as int)),
{
    let mut text = String::new();
    let mut i: usize = start;
    while i < end
        invariant
            start <= i <= end <= bytes@.len(),
            text@ == chars_of(bytes@.subrange(start as int, i as int)),
        decreases end - i,
    {
        push_char(&mut text, bytes[i] as char);
        i = i + 1;
        assert(text@ =~= chars_of(bytes@.subrange(start as int, i as int)));
    }
    text
}

} // verus!
