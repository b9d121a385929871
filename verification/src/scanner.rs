//! The scanner: applies the rule table from the start of the text to its end,
//! builds a token from each lexeme, and rejects two tokens other than
//! whitespace that stand side by side.

use crate::classify::Dialect;
use crate::number::{integer_of, parse_integer};
use crate::rules::{first_match, lemma_match_len_bounds, match_rule, Rule};
use crate::token::{chars_of, text_of, LexError, LexErrorView, Token, TokenView};
use vstd::prelude::*;
use vstd::string::StringSliceAdditionalSpecFns;
use vstd::utf8::encode_utf8;

verus! {

/// What the action of `rule` makes of a lexeme that begins at `offset`. The
/// action of the integer rule fails where the lexeme has no value of 64
/// bits, that of the operator rule where the lexeme names no operator.
pub open spec fn token_of(dialect: Dialect, rule: Rule, lexeme: Seq<u8>, offset: int) -> Result<
    TokenView,
    LexErrorView,
> {
    match rule {
        Rule::Whitespace => Ok(TokenView::Whitespace),
        Rule::Decimal => Ok(TokenView::Decimal(chars_of(lexeme))),
        Rule::Integer => match integer_of(lexeme) {
            Some(v) => Ok(TokenView::Integer(v)),
            None => Err(
                LexErrorView::NumericLiteralOverflow {
                    byte_offset: offset,
                    literal_text: chars_of(lexeme),
                },
            ),
        },
        Rule::Operator => match dialect.operator_of(lexeme) {
            Some(op) => Ok(TokenView::Operator(op)),
            None => Err(
                LexErrorView::UnknownOperatorSpelling {
                    byte_offset: offset,
                    spelling: chars_of(lexeme),
                },
            ),
        },
        Rule::Identifier => match dialect.keyword_of(lexeme) {
            Some(k) => Ok(TokenView::Keyword(k)),
            None => Ok(TokenView::Identifier(chars_of(lexeme))),
        },
    }
}

/// The ASCII whitespace bytes: space, tab, newline, form feed and carriage
/// return.
pub open spec fn is_ascii_whitespace(b: u8) -> bool {
    b == ' ' as u8 || b == '\t' as u8 || b == '\n' as u8 || b == 0x0cu8 || b == '\r' as u8
}

/// Whether nothing but ASCII whitespace stands from `i` on.
pub open spec fn only_whitespace_from(s: Seq<u8>, i: int) -> bool {
    forall|k: int| i <= k < s.len() ==> is_ascii_whitespace(#[trigger] s[k])
}

/// Whether `token` may not follow what was emitted: both it and the token
/// before it are other than whitespace.
pub open spec fn lacks_separator(emitted: Seq<TokenView>, token: TokenView) -> bool {
    emitted.len() > 0 && !(emitted.last() is Whitespace) && !(token is Whitespace)
}

/// The outcome of scanning `s` from offset `i` on, after the tokens in
/// `emitted`.
pub open spec fn scan_from(dialect: Dialect, s: Seq<u8>, i: int, emitted: Seq<TokenView>) -> Result<
    Seq<TokenView>,
    LexErrorView,
>
    decreases s.len() - i,
    when 0 <= i <= s.len()
    via scan_from_decreases
{
    match first_match(dialect, s, i) {
        None => if only_whitespace_from(s, i) {
            Ok(emitted)
        } else {
            Err(LexErrorView::UnrecognizedToken { byte_offset: i })
        },
        Some((rule, n)) => match token_of(dialect, rule, s.subrange(i, i + n), i) {
            Err(e) => Err(e),
            Ok(token) => if lacks_separator(emitted, token) {
                Err(
                    LexErrorView::MissingSeparator {
                        previous: emitted.last(),
                        current: token,
                        byte_offset: i,
                    },
                )
            } else {
                scan_from(dialect, s, i + n, emitted.push(token))
            },
        },
    }
}

#[via_fn]
proof fn scan_from_decreases(dialect: Dialect, s: Seq<u8>, i: int, emitted: Seq<TokenView>) {
    match first_match(dialect, s, i) {
        Some((rule, n)) => {
            lemma_match_len_bounds(dialect, rule, s, i);
        },
        None => {},
    }
}

/// The outcome of scanning the whole of `s`.
pub open spec fn scan(dialect: Dialect, s: Seq<u8>) -> Result<Seq<TokenView>, LexErrorView> {
    scan_from(dialect, s, 0, Seq::empty())
}

/// What a sequence of tokens stands for, token by token.
pub open spec fn tokens_view(tokens: Seq<Token>) -> Seq<TokenView> {
    tokens.map_values(|t: Token| t@)
}

/// What the outcome of a scan stands for.
pub open spec fn outcome_view(r: Result<Vec<Token>, LexError>) -> Result<
    Seq<TokenView>,
    LexErrorView,
> {
    match r {
        Ok(tokens) => Ok(tokens_view(tokens@)),
        Err(e) => Err(e@),
    }
}

/// Runs the action of `rule` on the lexeme `bytes[start..end]`.
pub fn build_token(
    rule: Rule,
    bytes: &[u8],
    start: usize,
    end: usize,
    dialect: Dialect,
) -> (r: Result<Token, LexError>)
    requires
        start <= end <= bytes@.len(),
    ensures
        match r {
            Ok(token) => token_of(
                dialect,
                rule,
                bytes@.subrange(start as int, end as int),
                start as int,
            )
                == Ok::<TokenView, LexErrorView>(token@),
            Err(e) => token_of(
                dialect,
                rule,
                bytes@.subrange(start as int, end as int),
                start as int,
            )
                == Err::<TokenView, LexErrorView>(e@),
        },
{
    match rule {
        Rule::Whitespace => Ok(Token::Whitespace),
        Rule::Decimal => Ok(Token::Decimal(text_of(bytes, start, end))),
        Rule::Integer => match parse_integer(bytes, start, end) {
            Some(v) => Ok(Token::Integer(v)),
            None => Err(
                LexError::NumericLiteralOverflow {
                    byte_offset: start,
                    literal_text: text_of(bytes, start, end),
                },
            ),
        },
        Rule::Operator => match dialect.find_operator(bytes, start, end) {
            Some(op) => Ok(Token::Operator(op)),
            None => Err(
                LexError::UnknownOperatorSpelling {
                    byte_offset: start,
                    spelling: text_of(bytes, start, end),
                },
            ),
        },
        Rule::Identifier => match dialect.find_keyword(bytes, start, end) {
            Some(k) => Ok(Token::Keyword(k)),
            None => Ok(Token::Identifier(text_of(bytes, start, end))),
        },
    }
}

/// What the rule table makes of the input at `i`: the token of the first
/// rule that matches there and the length of its lexeme, nothing where no
/// rule matches, or the error of that rule's action.
pub open spec fn next_token(dialect: Dialect, s: Seq<u8>, i: int) -> Result<
    Option<(TokenView, nat)>,
    LexErrorView,
> {
    match first_match(dialect, s, i) {
        None => Ok(None),
        Some((rule, n)) => match token_of(dialect, rule, s.subrange(i, i + n), i) {
            Ok(token) => Ok(Some((token, n))),
            Err(e) => Err(e),
        },
    }
}

/// Applies the rule table at `pos` and runs the action of the rule that
/// matches: the next token and the number of bytes that it takes.
pub fn match_next(bytes: &[u8], pos: usize, dialect: Dialect) -> (r: Result<
    Option<(Token, usize)>,
    LexError,
>)
    requires
        pos <= bytes@.len(),
    ensures
        match r {
            Ok(Some((token, n))) => next_token(dialect, bytes@, pos as int) == Ok::<
                Option<(TokenView, nat)>,
                LexErrorView,
            >(Some((token@, n as nat))) && 0 < n && pos + n <= bytes@.len(),
            Ok(None) => next_token(dialect, bytes@, pos as int) == Ok::<
                Option<(TokenView, nat)>,
                LexErrorView,
            >(None),
            Err(e) => next_token(dialect, bytes@, pos as int) == Err::<
                Option<(TokenView, nat)>,
                LexErrorView,
            >(e@),
        },
{
    match match_rule(bytes, pos, dialect) {
        None => Ok(None),
        Some((rule, n)) => match build_token(rule, bytes, pos, pos + n, dialect) {
            Ok(token) => Ok(Some((token, n))),
            Err(e) => Err(e),
        },
    }
}

/// Tests whether nothing but ASCII whitespace stands from `pos` on.
pub fn rest_is_whitespace(bytes: &[u8], pos: usize) -> (r: bool)
    requires
        pos <= bytes@.len(),
    ensures
        r == only_whitespace_from(bytes@, pos as int),
{
    let mut i: usize = pos;
    while i < bytes.len()
        invariant
            pos <= i <= bytes@.len(),
            forall|k: int| pos <= k < i ==> is_ascii_whitespace(#[trigger] bytes@[k]),
        decreases bytes@.len() - i,
    {
        let b: u8 = bytes[i];
        if !(b == ' ' as u8 || b == '\t' as u8 || b == '\n' as u8 || b == 0x0cu8 || b
            == '\r' as u8) {
            return false;
        }
        i = i + 1;
    }
    true
}

/// Splits a text into its tokens, whitespace runs included, by the rules of
/// `dialect`.
///
/// The rule table is applied from the first byte on. Each lexeme becomes a
/// token; a token other than whitespace that follows another one directly is
/// an error, as is an integer literal that does not fit in 64 bits and an
/// operator spelling that names no operator. Where no rule matches, the
/// tokens so far are the result if nothing but ASCII whitespace remains, and
/// the place is reported otherwise.
pub fn tokenize_in(text: &str, dialect: Dialect) -> (r: Result<Vec<Token>, LexError>)
    ensures
        outcome_view(r) == scan(dialect, text.spec_bytes()),
{
    let bytes = text.as_bytes();
    let total: usize = bytes.len();
    let mut tokens: Vec<Token> = Vec::new();
    let mut pos: usize = 0;
    assert(tokens_view(tokens@) =~= Seq::empty());
    loop
        invariant
            pos <= total == bytes@.len(),
            bytes@ == text.spec_bytes(),
            scan(dialect, bytes@) == scan_from(dialect, bytes@, pos as int, tokens_view(tokens@)),
        decreases total - pos,
    {
        match match_next(bytes, pos, dialect) {
            Err(e) => {
                return Err(e);
            },
            Ok(None) => {
                if rest_is_whitespace(bytes, pos) {
                    return Ok(tokens);
                } else {
                    return Err(LexError::UnrecognizedToken { byte_offset: pos });
                }
            },
            Ok(Some((token, n))) => {
                let count: usize = tokens.len();
                if count > 0 && !token.is_whitespace() && !tokens[count - 1].is_whitespace() {
                    assert(tokens_view(tokens@).last() == tokens@[count - 1]@);
                    let previous = tokens.pop().unwrap();
                    return Err(
                        LexError::MissingSeparator { previous, current: token, byte_offset: pos },
                    );
                }
                proof {
                    assert(tokens_view(tokens@.push(token)) =~= tokens_view(tokens@).push(token@));
                    if count > 0 {
                        assert(tokens_view(tokens@).last() == tokens@[count - 1]@);
                    }
                }
                tokens.push(token);
                pos = pos + n;
            },
        }
    }
}

/// Splits a text into its tokens by the rules of the extended dialect.
pub fn tokenize(text: &str) -> (r: Result<Vec<Token>, LexError>)
    ensures
        outcome_view(r) == scan(Dialect::Extended, text.spec_bytes()),
{
    tokenize_in(text, Dialect::Extended)
}

/// Splits an owned text into its tokens, as `tokenize` does.
pub fn extract_tokens(input: String) -> (r: Result<Vec<Token>, LexError>)
    ensures
        outcome_view(r) == scan(Dialect::Extended, encode_utf8(input@)),
{
    tokenize(input.as_str())
}

} // verus!
