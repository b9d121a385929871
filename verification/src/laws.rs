//! What holds of every scan.

use crate::classify::{keyword_spelling, operator_spelling, Dialect, Keyword, Operator};
use crate::number::{is_integer_literal, literal_value};
use crate::rules::{
    first_match, integer_len, is_identifier_start, is_identifier_tail, is_space,
    lemma_match_len_bounds,
    lemma_run_len_bounds, lemma_run_len_is, run_len, sign_len, ByteClass, Rule,
};
use crate::scanner::{only_whitespace_from, outcome_view, scan, scan_from, token_of};
use crate::token::{chars_of, LexError, LexErrorView, Token, TokenView};
use vstd::prelude::*;
use vstd::string::StringSliceAdditionalSpecFns;

verus! {

/// Whether of every two neighbours in `tokens` one is whitespace.
pub open spec fn separated(tokens: Seq<TokenView>) -> bool {
    forall|k: int|
        0 < k < tokens.len() ==> tokens[k - 1] is Whitespace || (#[trigger] tokens[k]) is Whitespace
}

/// A scan that continues from separated tokens ends in separated tokens.
proof fn lemma_scan_from_separated(
    dialect: Dialect,
    s: Seq<u8>,
    i: int,
    emitted: Seq<TokenView>,
)
    requires
        0 <= i <= s.len(),
        separated(emitted),
    ensures
        scan_from(dialect, s, i, emitted) matches Ok(tokens) ==> separated(tokens),
    decreases s.len() - i,
{
    match first_match(dialect, s, i) {
        None => {},
        Some((rule, n)) => {
            lemma_match_len_bounds(dialect, rule, s, i);
            match token_of(dialect, rule, s.subrange(i, i + n), i) {
                Err(_) => {},
                Ok(token) => {
                    if !crate::scanner::lacks_separator(emitted, token) {
                        let next = emitted.push(token);
                        assert forall|k: int| 0 < k < next.len() implies next[k - 1] is Whitespace
                            || (#[trigger] next[k]) is Whitespace by {
                            if k < emitted.len() {
                                assert(next[k] == emitted[k]);
                                assert(next[k - 1] == emitted[k - 1]);
                            }
                        }
                        lemma_scan_from_separated(dialect, s, i + n, next);
                    }
                },
            }
        },
    }
}

/// In the tokens of a successful scan no two tokens other than whitespace
/// stand side by side.
pub proof fn lemma_scan_separated(dialect: Dialect, s: Seq<u8>)
    ensures
        scan(dialect, s) matches Ok(tokens) ==> separated(tokens),
{
    lemma_scan_from_separated(dialect, s, 0, Seq::empty());
}

/// The outcome of `tokenize` is decided by the text alone: two calls on equal
/// texts return the same tokens, or the same error.
pub proof fn lemma_tokenize_deterministic(
    dialect: Dialect,
    a: &str,
    b: &str,
    ra: Result<Vec<Token>, LexError>,
    rb: Result<Vec<Token>, LexError>,
)
    requires
        a@ == b@,
        outcome_view(ra) == scan(dialect, a.spec_bytes()),
        outcome_view(rb) == scan(dialect, b.spec_bytes()),
    ensures
        outcome_view(ra) == outcome_view(rb),
{
}

/// Whether `s` has the shape of an identifier: a letter or underscore, then
/// letters, digits and underscores.
pub open spec fn is_identifier_shaped(s: Seq<u8>) -> bool {
    s.len() > 0 && is_identifier_start(s[0]) && forall|k: int|
        1 <= k < s.len() ==> is_identifier_tail(#[trigger] s[k])
}

/// A text of the shape of an identifier is one token: the keyword that it
/// spells, or else the identifier of that name.
pub proof fn lemma_keyword_shadows_identifier(dialect: Dialect, s: Seq<u8>)
    requires
        is_identifier_shaped(s),
    ensures
        scan(dialect, s) == Ok::<Seq<TokenView>, LexErrorView>(
            seq![
                match dialect.keyword_of(s) {
                    Some(k) => TokenView::Keyword(k),
                    None => TokenView::Identifier(chars_of(s)),
                },
            ],
        ),
{
    let n = s.len();
    lemma_run_len_is(s, 1, (n - 1) as nat, ByteClass::IdentifierTail);
    assert(first_match(dialect, s, 0) == Some((Rule::Identifier, n)));
    assert(s.subrange(0, n as int) =~= s);
    let token = token_of(dialect, Rule::Identifier, s, 0)->Ok_0;
    assert(first_match(dialect, s, n as int) is None);
    assert(scan_from(dialect, s, n as int, seq![token]) == Ok::<Seq<TokenView>, LexErrorView>(
        seq![token],
    ));
    assert(Seq::<TokenView>::empty().push(token) =~= seq![token]);
}

/// Every keyword has the shape of an identifier, so its spelling is the one
/// token of that keyword.
pub proof fn lemma_keyword_scans_as_keyword(dialect: Dialect, k: Keyword)
    requires
        dialect.has_keyword(k),
    ensures
        is_identifier_shaped(keyword_spelling(k)),
        scan(dialect, keyword_spelling(k)) == Ok::<Seq<TokenView>, LexErrorView>(
            seq![TokenView::Keyword(k)],
        ),
{
    let s = keyword_spelling(k);
    assert(is_identifier_shaped(s)) by {
        assert forall|j: int| 1 <= j < s.len() implies is_identifier_tail(#[trigger] s[j]) by {
            match k {
                Keyword::While => {
                    assert(j == 1 || j == 2 || j == 3 || j == 4);
                },
                Keyword::For => {
                    assert(j == 1 || j == 2);
                },
                Keyword::Fn => {},
                Keyword::If => {},
                Keyword::Else => {
                    assert(j == 1 || j == 2 || j == 3);
                },
            }
        }
    }
    crate::classify::lemma_keyword_spelling_round_trip(k, s);
    lemma_keyword_shadows_identifier(dialect, s);
}

/// The spelling of an operator is the one token of that operator: a two-byte
/// spelling is never split into two operators.
pub proof fn lemma_operator_scans_whole(dialect: Dialect, op: Operator)
    requires
        dialect.has_operator(op),
    ensures
        scan(dialect, operator_spelling(op)) == Ok::<Seq<TokenView>, LexErrorView>(
            seq![TokenView::Operator(op)],
        ),
{
    let s = operator_spelling(op);
    let n = s.len();
    crate::classify::lemma_operator_spelling_round_trip(op, s);
    assert(first_match(dialect, s, 0) == Some((Rule::Operator, n)));
    assert(s.subrange(0, n as int) =~= s);
    let token = TokenView::Operator(op);
    assert(first_match(dialect, s, n as int) is None);
    assert(scan_from(dialect, s, n as int, seq![token]) == Ok::<Seq<TokenView>, LexErrorView>(
        seq![token],
    ));
    assert(Seq::<TokenView>::empty().push(token) =~= seq![token]);
}

/// What the integer rule matches is an integer literal, so its action fails
/// only where the literal's value lies outside the range of 64 bits.
pub proof fn lemma_integer_lexeme_overflows(dialect: Dialect, s: Seq<u8>, i: int)
    requires
        0 <= i <= s.len(),
        integer_len(s, i) > 0,
    ensures
        is_integer_literal(s.subrange(i, i + integer_len(s, i))),
        token_of(dialect, Rule::Integer, s.subrange(i, i + integer_len(s, i)), i) is Err <==> !(
        i64::MIN <= literal_value(s.subrange(i, i + integer_len(s, i))) <= i64::MAX),
{
    let sign = sign_len(s, i);
    lemma_run_len_bounds(s, i + sign, ByteClass::Digit);
}

/// A lexeme: the rule that matched it, where it begins and how long it is.
pub ghost struct Lexeme {
    pub rule: Rule,
    pub start: int,
    pub len: nat,
}

impl Lexeme {
    /// The bytes of `s` that the lexeme covers.
    pub open spec fn text(self, s: Seq<u8>) -> Seq<u8> {
        s.subrange(self.start, self.start + self.len)
    }

    /// What the action of the lexeme's rule makes of it.
    pub open spec fn token(self, dialect: Dialect, s: Seq<u8>) -> Result<TokenView, LexErrorView> {
        token_of(dialect, self.rule, self.text(s), self.start)
    }
}

/// The lexemes that the rule table cuts from `s`, from offset `i` up to the
/// first offset at which no rule matches.
pub open spec fn lexemes_from(dialect: Dialect, s: Seq<u8>, i: int) -> Seq<Lexeme>
    decreases s.len() - i,
    when 0 <= i <= s.len()
    via lexemes_from_decreases
{
    match first_match(dialect, s, i) {
        None => Seq::empty(),
        Some((rule, n)) => seq![Lexeme { rule, start: i, len: n }] + lexemes_from(
            dialect,
            s,
            i + n,
        ),
    }
}

#[via_fn]
proof fn lexemes_from_decreases(dialect: Dialect, s: Seq<u8>, i: int) {
    match first_match(dialect, s, i) {
        Some((rule, n)) => {
            lemma_match_len_bounds(dialect, rule, s, i);
        },
        None => {},
    }
}

/// The first offset from `i` on at which no rule matches, lexeme by lexeme.
pub open spec fn stop_from(dialect: Dialect, s: Seq<u8>, i: int) -> int
    decreases s.len() - i,
    when 0 <= i <= s.len()
    via stop_from_decreases
{
    match first_match(dialect, s, i) {
        None => i,
        Some((rule, n)) => stop_from(dialect, s, i + n),
    }
}

#[via_fn]
proof fn stop_from_decreases(dialect: Dialect, s: Seq<u8>, i: int) {
    match first_match(dialect, s, i) {
        Some((rule, n)) => {
            lemma_match_len_bounds(dialect, rule, s, i);
        },
        None => {},
    }
}

/// The texts of the lexemes, one after the other.
pub open spec fn joined(s: Seq<u8>, lexemes: Seq<Lexeme>) -> Seq<u8>
    decreases lexemes.len(),
{
    if lexemes.len() == 0 {
        Seq::empty()
    } else {
        lexemes[0].text(s) + joined(s, lexemes.drop_first())
    }
}

/// Whether each of the lexemes makes a token.
#[verifier::opaque]
pub open spec fn all_make_tokens(dialect: Dialect, s: Seq<u8>, lexemes: Seq<Lexeme>) -> bool {
    forall|k: int| 0 <= k < lexemes.len() ==> (#[trigger] lexemes[k]).token(dialect, s) is Ok
}

/// Whether of every two neighbours among the lexemes one is whitespace.
#[verifier::opaque]
pub open spec fn whitespace_between(lexemes: Seq<Lexeme>) -> bool {
    forall|k: int|
        0 < k < lexemes.len() ==> lexemes[k - 1].rule is Whitespace || (
        #[trigger] lexemes[k]).rule is Whitespace
}

/// Whether the lexemes from `i` on can follow the tokens in `emitted`: each
/// makes a token, of every two neighbours one is whitespace, and nothing but
/// ASCII whitespace stands where the rule table stops.
pub open spec fn acceptable_from(
    dialect: Dialect,
    s: Seq<u8>,
    i: int,
    emitted: Seq<TokenView>,
) -> bool {
    let lexemes = lexemes_from(dialect, s, i);
    &&& all_make_tokens(dialect, s, lexemes)
    &&& whitespace_between(lexemes)
    &&& lexemes.len() > 0 && emitted.len() > 0 ==> emitted.last() is Whitespace
        || lexemes[0].rule is Whitespace
    &&& only_whitespace_from(s, stop_from(dialect, s, i))
}

/// Whether `s` is made of lexemes that each make a token and are separated
/// by whitespace, with nothing but ASCII whitespace after the last.
pub open spec fn acceptable(dialect: Dialect, s: Seq<u8>) -> bool {
    acceptable_from(dialect, s, 0, Seq::empty())
}

/// Whether `tokens`, after its first `skip` entries, holds the tokens of
/// `lexemes`, one for one.
#[verifier::opaque]
pub open spec fn tokens_match(
    dialect: Dialect,
    s: Seq<u8>,
    lexemes: Seq<Lexeme>,
    tokens: Seq<TokenView>,
    skip: int,
) -> bool {
    &&& tokens.len() == skip + lexemes.len()
    &&& forall|k: int|
        0 <= k < lexemes.len() ==> (#[trigger] lexemes[k]).token(dialect, s) == Ok::<
            TokenView,
            LexErrorView,
        >(tokens[skip + k])
}

/// `all_make_tokens` of a first lexeme and the rest.
proof fn lemma_all_make_tokens_cons(dialect: Dialect, s: Seq<u8>, first: Lexeme, rest: Seq<Lexeme>)
    ensures
        all_make_tokens(dialect, s, seq![first] + rest) <==> first.token(dialect, s) is Ok
            && all_make_tokens(dialect, s, rest),
        all_make_tokens(dialect, s, Seq::empty()),
{
    reveal(all_make_tokens);
    let all = seq![first] + rest;
    assert(all[0] == first);
    if all_make_tokens(dialect, s, all) {
        assert forall|k: int| 0 <= k < rest.len() implies (#[trigger] rest[k]).token(
            dialect,
            s,
        ) is Ok by {
            assert(all[k + 1] == rest[k]);
        }
    }
    if first.token(dialect, s) is Ok && all_make_tokens(dialect, s, rest) {
        assert forall|k: int| 0 <= k < all.len() implies (#[trigger] all[k]).token(
            dialect,
            s,
        ) is Ok by {
            if k > 0 {
                assert(all[k] == rest[k - 1]);
            }
        }
    }
}

/// `whitespace_between` of a first lexeme and the rest.
proof fn lemma_whitespace_between_cons(first: Lexeme, rest: Seq<Lexeme>)
    ensures
        whitespace_between(seq![first] + rest) <==> whitespace_between(rest) && (rest.len() > 0
            ==> first.rule is Whitespace || rest[0].rule is Whitespace),
        whitespace_between(Seq::empty()),
{
    reveal(whitespace_between);
    let all = seq![first] + rest;
    assert(all[0] == first);
    if whitespace_between(all) {
        assert forall|k: int| 0 < k < rest.len() implies rest[k - 1].rule is Whitespace || (
        #[trigger] rest[k]).rule is Whitespace by {
            assert(all[k + 1] == rest[k]);
            assert(all[k] == rest[k - 1]);
        }
        if rest.len() > 0 {
            assert(all[1] == rest[0]);
        }
    }
    if whitespace_between(rest) && (rest.len() > 0 ==> first.rule is Whitespace
        || rest[0].rule is Whitespace) {
        assert forall|k: int| 0 < k < all.len() implies all[k - 1].rule is Whitespace || (
        #[trigger] all[k]).rule is Whitespace by {
            assert(all[k] == rest[k - 1]);
            if k > 1 {
                assert(all[k - 1] == rest[k - 2]);
            }
        }
    }
}

/// `tokens_match` of a first lexeme and the rest.
proof fn lemma_tokens_match_cons(
    dialect: Dialect,
    s: Seq<u8>,
    first: Lexeme,
    rest: Seq<Lexeme>,
    tokens: Seq<TokenView>,
    skip: int,
)
    requires
        tokens_match(dialect, s, rest, tokens, skip + 1),
        0 <= skip < tokens.len(),
        first.token(dialect, s) == Ok::<TokenView, LexErrorView>(tokens[skip]),
    ensures
        tokens_match(dialect, s, seq![first] + rest, tokens, skip),
{
    reveal(tokens_match);
    let all = seq![first] + rest;
    assert forall|k: int| 0 <= k < all.len() implies (#[trigger] all[k]).token(dialect, s) == Ok::<
        TokenView,
        LexErrorView,
    >(tokens[skip + k]) by {
        if k > 0 {
            assert(all[k] == rest[k - 1]);
        }
    }
}

/// The lexemes from `i` on cover the bytes from `i` to where the rule table
/// stops.
proof fn lemma_lexemes_tile_from(dialect: Dialect, s: Seq<u8>, i: int)
    requires
        0 <= i <= s.len(),
    ensures
        i <= stop_from(dialect, s, i) <= s.len(),
        first_match(dialect, s, stop_from(dialect, s, i)) is None,
        joined(s, lexemes_from(dialect, s, i)) == s.subrange(i, stop_from(dialect, s, i)),
    decreases s.len() - i,
{
    match first_match(dialect, s, i) {
        None => {
            assert(s.subrange(i, i) =~= Seq::<u8>::empty());
        },
        Some((rule, n)) => {
            lemma_match_len_bounds(dialect, rule, s, i);
            lemma_lexemes_tile_from(dialect, s, i + n);
            let lexemes = lexemes_from(dialect, s, i);
            assert(lexemes.drop_first() =~= lexemes_from(dialect, s, i + n));
            assert(lexemes[0].text(s) + s.subrange(i + n, stop_from(dialect, s, i)) =~= s.subrange(
                i,
                stop_from(dialect, s, i),
            ));
        },
    }
}

/// A successful scan keeps the tokens that were emitted before it, in front.
proof fn lemma_scan_from_extends(dialect: Dialect, s: Seq<u8>, i: int, emitted: Seq<TokenView>)
    requires
        0 <= i <= s.len(),
    ensures
        scan_from(dialect, s, i, emitted) matches Ok(tokens) ==> emitted.len() <= tokens.len()
            && tokens.take(emitted.len() as int) == emitted,
    decreases s.len() - i,
{
    match scan_from(dialect, s, i, emitted) {
        Err(_) => {},
        Ok(tokens) => {
            match first_match(dialect, s, i) {
                None => {
                    assert(emitted.take(emitted.len() as int) =~= emitted);
                },
                Some((rule, n)) => {
                    lemma_match_len_bounds(dialect, rule, s, i);
                    let token = token_of(dialect, rule, s.subrange(i, i + n), i)->Ok_0;
                    let next = emitted.push(token);
                    lemma_scan_from_extends(dialect, s, i + n, next);
                    assert(tokens.take(emitted.len() as int) =~= tokens.take(
                        next.len() as int,
                    ).take(emitted.len() as int));
                    assert(next.take(emitted.len() as int) =~= emitted);
                },
            }
        },
    }
}

/// A successful scan adds the token of each lexeme, in order.
proof fn lemma_scan_from_tokens(dialect: Dialect, s: Seq<u8>, i: int, emitted: Seq<TokenView>)
    requires
        0 <= i <= s.len(),
    ensures
        scan_from(dialect, s, i, emitted) matches Ok(tokens) ==> tokens_match(
            dialect,
            s,
            lexemes_from(dialect, s, i),
            tokens,
            emitted.len() as int,
        ),
    decreases s.len() - i,
{
    match scan_from(dialect, s, i, emitted) {
        Err(_) => {},
        Ok(tokens) => {
            match first_match(dialect, s, i) {
                None => {
                    reveal(tokens_match);
                },
                Some((rule, n)) => {
                    lemma_match_len_bounds(dialect, rule, s, i);
                    let token = token_of(dialect, rule, s.subrange(i, i + n), i)->Ok_0;
                    let next = emitted.push(token);
                    let first = Lexeme { rule, start: i, len: n };
                    lemma_scan_from_tokens(dialect, s, i + n, next);
                    lemma_scan_from_extends(dialect, s, i + n, next);
                    assert(tokens.take(next.len() as int)[emitted.len() as int] == token);
                    lemma_tokens_match_cons(
                        dialect,
                        s,
                        first,
                        lexemes_from(dialect, s, i + n),
                        tokens,
                        emitted.len() as int,
                    );
                },
            }
        },
    }
}

/// A scan from `i` on succeeds exactly where the lexemes from `i` on can
/// follow what was emitted.
proof fn lemma_scan_from_characterized(
    dialect: Dialect,
    s: Seq<u8>,
    i: int,
    emitted: Seq<TokenView>,
)
    requires
        0 <= i <= s.len(),
    ensures
        scan_from(dialect, s, i, emitted) is Ok <==> acceptable_from(dialect, s, i, emitted),
    decreases s.len() - i,
{
    match first_match(dialect, s, i) {
        None => {
            let any = Lexeme { rule: Rule::Whitespace, start: 0, len: 0 };
            lemma_whitespace_between_cons(any, Seq::empty());
            lemma_all_make_tokens_cons(dialect, s, any, Seq::empty());
        },
        Some((rule, n)) => {
            lemma_match_len_bounds(dialect, rule, s, i);
            let first = Lexeme { rule, start: i, len: n };
            let rest = lexemes_from(dialect, s, i + n);
            lemma_all_make_tokens_cons(dialect, s, first, rest);
            lemma_whitespace_between_cons(first, rest);
            assert((seq![first] + rest)[0] == first);
            match token_of(dialect, rule, s.subrange(i, i + n), i) {
                Err(_) => {},
                Ok(token) => {
                    assert(token is Whitespace <==> rule is Whitespace);
                    if !crate::scanner::lacks_separator(emitted, token) {
                        let next = emitted.push(token);
                        assert(next.last() == token);
                        lemma_scan_from_characterized(dialect, s, i + n, next);
                    }
                },
            }
        },
    }
}

/// The lexemes of a text follow one another from its first byte, with no
/// byte skipped or taken twice, up to the first offset at which no rule
/// matches.
pub proof fn lemma_lexemes_tile(dialect: Dialect, s: Seq<u8>)
    ensures
        0 <= stop_from(dialect, s, 0) <= s.len(),
        first_match(dialect, s, stop_from(dialect, s, 0)) is None,
        joined(s, lexemes_from(dialect, s, 0)) == s.take(stop_from(dialect, s, 0)),
{
    lemma_lexemes_tile_from(dialect, s, 0);
}

/// A scan succeeds on the acceptable texts and on no others.
pub proof fn lemma_scan_succeeds_iff_acceptable(dialect: Dialect, s: Seq<u8>)
    ensures
        scan(dialect, s) is Ok <==> acceptable(dialect, s),
{
    lemma_scan_from_characterized(dialect, s, 0, Seq::empty());
}

/// A text in which two lexemes other than whitespace stand side by side is
/// rejected.
pub proof fn lemma_adjacent_lexemes_rejected(dialect: Dialect, s: Seq<u8>, k: int)
    requires
        0 < k < lexemes_from(dialect, s, 0).len(),
        !(lexemes_from(dialect, s, 0)[k - 1].rule is Whitespace),
        !(lexemes_from(dialect, s, 0)[k].rule is Whitespace),
    ensures
        scan(dialect, s) is Err,
{
    reveal(whitespace_between);
    lemma_scan_from_characterized(dialect, s, 0, Seq::empty());
}

/// On a text made of lexemes that each make a token and are separated by
/// whitespace, the scan succeeds with the token of each lexeme, in order;
/// the texts of the lexemes, one after the other, followed by the ASCII
/// whitespace that remains, give back the text; and where the text holds
/// neither a form feed nor a carriage return, nothing remains.
pub proof fn lemma_round_trip(dialect: Dialect, s: Seq<u8>)
    requires
        acceptable(dialect, s),
    ensures
        scan(dialect, s) matches Ok(tokens) && tokens_match(
            dialect,
            s,
            lexemes_from(dialect, s, 0),
            tokens,
            0,
        ),
        joined(s, lexemes_from(dialect, s, 0)) + s.skip(stop_from(dialect, s, 0)) == s,
        only_whitespace_from(s, stop_from(dialect, s, 0)),
        (forall|k: int| 0 <= k < s.len() ==> #[trigger] s[k] != 0x0cu8 && s[k] != '\r' as u8)
            ==> joined(s, lexemes_from(dialect, s, 0)) == s,
{
    lemma_scan_from_characterized(dialect, s, 0, Seq::empty());
    lemma_scan_from_tokens(dialect, s, 0, Seq::empty());
    lemma_lexemes_tile_from(dialect, s, 0);
    let stop = stop_from(dialect, s, 0);
    assert(s.take(stop) + s.skip(stop) =~= s);
    if stop < s.len() {
        assert(crate::scanner::is_ascii_whitespace(s[stop]));
        assert(!crate::rules::is_space(s[stop]));
    } else {
        assert(s.take(stop) =~= s);
    }
}

/// Whether `w` is a word: one lexeme other than whitespace, taken whole,
/// that makes a token.
pub open spec fn is_word(dialect: Dialect, w: Seq<u8>) -> bool {
    match first_match(dialect, w, 0) {
        Some((rule, n)) => n == w.len() && !(rule is Whitespace) && token_of(
            dialect,
            rule,
            w,
            0,
        ) is Ok,
        None => false,
    }
}

/// Whether `s`, from `i` on, is made of words and of spaces, tabs and
/// newlines only, with at least one of these between any two words.
pub open spec fn well_spaced_from(dialect: Dialect, s: Seq<u8>, i: int) -> bool
    decreases s.len() - i,
{
    if i < 0 {
        false
    } else if i >= s.len() {
        true
    } else if is_space(s[i]) {
        well_spaced_from(dialect, s, i + 1)
    } else {
        exists|j: int|
            i < j <= s.len() && is_word(dialect, #[trigger] s.subrange(i, j)) && (j == s.len()
                || is_space(s[j])) && well_spaced_from(dialect, s, j)
    }
}

/// A run inside `s[i..j]` is the same in `s` where the run's class ends at
/// `j`.
proof fn lemma_run_len_local(s: Seq<u8>, i: int, j: int, a: int, class: ByteClass)
    requires
        0 <= i <= i + a <= j <= s.len(),
        j == s.len() || !class.contains(s[j]),
    ensures
        run_len(s, i + a, class) == run_len(s.subrange(i, j), a, class),
    decreases j - i - a,
{
    let w = s.subrange(i, j);
    if i + a < j {
        assert(w[a] == s[i + a]);
        if class.contains(w[a]) {
            lemma_run_len_local(s, i, j, a + 1, class);
        }
    }
}

/// The number rules match in `s` at `i` what they match in `s[i..j]`, where
/// whitespace or the end of the text stands at `j`.
proof fn lemma_number_match_local(s: Seq<u8>, i: int, j: int)
    requires
        0 <= i < j <= s.len(),
        j == s.len() || is_space(s[j]),
    ensures
        crate::rules::decimal_len(s, i) == crate::rules::decimal_len(s.subrange(i, j), 0),
        crate::rules::integer_len(s, i) == crate::rules::integer_len(s.subrange(i, j), 0),
{
    let w = s.subrange(i, j);
    assert(w[0] == s[i]);
    let sign = sign_len(w, 0);
    assert(sign == sign_len(s, i));
    lemma_run_len_local(s, i, j, sign as int, ByteClass::Digit);
    lemma_run_len_bounds(w, sign as int, ByteClass::Digit);
    let whole = run_len(w, sign as int, ByteClass::Digit);
    let dot = sign + whole;
    if dot < w.len() {
        assert(w[dot as int] == s[i + dot]);
        lemma_run_len_local(s, i, j, (dot + 1) as int, ByteClass::Digit);
    }
}

/// The rule table matches in `s` at `i` what it matches in `s[i..j]`, where
/// a word begins at `i` and whitespace or the end of the text stands at `j`.
proof fn lemma_first_match_local(dialect: Dialect, s: Seq<u8>, i: int, j: int)
    requires
        0 <= i < j <= s.len(),
        !is_space(s[i]),
        j == s.len() || is_space(s[j]),
    ensures
        first_match(dialect, s, i) == first_match(dialect, s.subrange(i, j), 0),
{
    let w = s.subrange(i, j);
    assert(w[0] == s[i]);
    lemma_number_match_local(s, i, j);
    lemma_run_len_local(s, i, j, 1, ByteClass::IdentifierTail);
    if j - i > 1 {
        assert(w[1] == s[i + 1]);
    }
    assert(crate::rules::operator_len(dialect, s, i) == crate::rules::operator_len(dialect, w, 0));
    assert(crate::rules::identifier_len(s, i) == crate::rules::identifier_len(w, 0));
    assert(crate::rules::whitespace_len(s, i) == 0);
    assert(crate::rules::whitespace_len(w, 0) == 0);
}

/// Past a run of whitespace a well-spaced text is well spaced.
proof fn lemma_well_spaced_after_run(dialect: Dialect, s: Seq<u8>, i: int, n: nat)
    requires
        0 <= i,
        i + n <= s.len(),
        well_spaced_from(dialect, s, i),
        forall|k: int| i <= k < i + n ==> is_space(#[trigger] s[k]),
    ensures
        well_spaced_from(dialect, s, i + n),
    decreases n,
{
    if n > 0 {
        assert(is_space(s[i]));
        lemma_well_spaced_after_run(dialect, s, i + 1, (n - 1) as nat);
    }
}

/// A well-spaced text is scanned to its end, from any offset at which a
/// token may begin.
proof fn lemma_well_spaced_scans(dialect: Dialect, s: Seq<u8>, i: int, emitted: Seq<TokenView>)
    requires
        0 <= i <= s.len(),
        well_spaced_from(dialect, s, i),
        emitted.len() == 0 || emitted.last() is Whitespace || i == s.len() || is_space(s[i]),
    ensures
        scan_from(dialect, s, i, emitted) is Ok,
        stop_from(dialect, s, i) == s.len(),
    decreases s.len() - i,
{
    if i == s.len() {
        assert(first_match(dialect, s, i) is None);
    } else if is_space(s[i]) {
        lemma_run_len_bounds(s, i, ByteClass::Space);
        let n = run_len(s, i, ByteClass::Space);
        assert(first_match(dialect, s, i) == Some((Rule::Whitespace, n)));
        lemma_well_spaced_after_run(dialect, s, i, n);
        let next = emitted.push(TokenView::Whitespace);
        assert(next.last() is Whitespace);
        lemma_well_spaced_scans(dialect, s, i + n, next);
    } else {
        let j = choose|j: int|
            i < j <= s.len() && is_word(dialect, #[trigger] s.subrange(i, j)) && (j == s.len()
                || is_space(s[j])) && well_spaced_from(dialect, s, j);
        let w = s.subrange(i, j);
        lemma_first_match_local(dialect, s, i, j);
        let rule = first_match(dialect, w, 0)->Some_0.0;
        assert(first_match(dialect, s, i) == Some((rule, (j - i) as nat)));
        let token = token_of(dialect, rule, w, i)->Ok_0;
        assert(token_of(dialect, rule, w, i) is Ok);
        lemma_well_spaced_scans(dialect, s, j, emitted.push(token));
    }
}

/// Whether `s` is made of words and of spaces, tabs and newlines only, with
/// at least one of these between any two words.
pub open spec fn well_spaced(dialect: Dialect, s: Seq<u8>) -> bool {
    well_spaced_from(dialect, s, 0)
}

/// A text made only of words separated by whitespace is tokenized, and its
/// lexemes, one after the other, give back the text.
pub proof fn lemma_well_spaced_round_trip(dialect: Dialect, s: Seq<u8>)
    requires
        well_spaced(dialect, s),
    ensures
        scan(dialect, s) matches Ok(tokens) && tokens_match(
            dialect,
            s,
            lexemes_from(dialect, s, 0),
            tokens,
            0,
        ),
        joined(s, lexemes_from(dialect, s, 0)) == s,
{
    lemma_well_spaced_scans(dialect, s, 0, Seq::empty());
    lemma_scan_from_tokens(dialect, s, 0, Seq::empty());
    lemma_lexemes_tile_from(dialect, s, 0);
    assert(s.subrange(0, s.len() as int) =~= s);
}

} // verus!
