//! The ordered table of lexical rules.
//!
//! Each rule matches a prefix of the unread input, or nothing. The rules are
//! tried in a fixed order and the first one that matches a non-empty prefix
//! decides the kind and the length of the next lexeme.

use crate::classify::Dialect;
use vstd::prelude::*;

verus! {

/// A set of bytes of which a rule matches a run.
#[derive(Debug, Clone, Copy, PartialEq, Eq, Structural)]
pub enum ByteClass {
    /// Space, tab and newline.
    Space,
    /// The decimal digits.
    Digit,
    /// Letters, digits and the underscore.
    IdentifierTail,
}

pub open spec fn is_space(b: u8) -> bool {
    b == ' ' as u8 || b == '\n' as u8 || b == '\t' as u8
}

pub open spec fn is_digit(b: u8) -> bool {
    ('0' as u8) <= b && b <= ('9' as u8)
}

pub open spec fn is_identifier_start(b: u8) -> bool {
    (('a' as u8) <= b && b <= ('z' as u8)) || (('A' as u8) <= b && b <= ('Z' as u8)) || b
        == '_' as u8
}

pub open spec fn is_identifier_tail(b: u8) -> bool {
    is_identifier_start(b) || is_digit(b)
}

/// The bytes that the operator rule accepts alone.
pub open spec fn is_operator_byte(dialect: Dialect, b: u8) -> bool {
    b == '+' as u8 || b == '\\' as u8 || b == '-' as u8 || b == '*' as u8 || b == '/' as u8 || b
        == '%' as u8 || b == '<' as u8 || b == '>' as u8 || b == '!' as u8 || (dialect is Extended
        && b == '=' as u8)
}

/// The pairs of bytes that the operator rule accepts together.
pub open spec fn is_operator_pair(dialect: Dialect, a: u8, b: u8) -> bool {
    (b == '=' as u8 && (a == '=' as u8 || a == '!' as u8 || a == '<' as u8 || a == '>' as u8 || (
    dialect is Extended && (a == '+' as u8 || a == '-' as u8 || a == '*' as u8 || a == '/' as u8))))
        || (a == '&' as u8 && b == '&' as u8) || (a == '|' as u8 && b == '|' as u8)
}

impl ByteClass {
    pub open spec fn contains(self, b: u8) -> bool {
        match self {
            ByteClass::Space => is_space(b),
            ByteClass::Digit => is_digit(b),
            ByteClass::IdentifierTail => is_identifier_tail(b),
        }
    }

    /// Tests whether a byte belongs to the class.
    pub fn has(self, b: u8) -> (r: bool)
        ensures
            r == self.contains(b),
    {
        match self {
            ByteClass::Space => b == ' ' as u8 || b == '\n' as u8 || b == '\t' as u8,
            ByteClass::Digit => ('0' as u8) <= b && b <= ('9' as u8),
            ByteClass::IdentifierTail => (('a' as u8) <= b && b <= ('z' as u8)) || (('A' as u8)
                <= b && b <= ('Z' as u8)) || b == '_' as u8 || (('0' as u8) <= b && b <= (
            '9' as u8)),
        }
    }
}

/// The length of the longest run of bytes of `class` that starts at `i`.
pub open spec fn run_len(s: Seq<u8>, i: int, class: ByteClass) -> nat
    decreases s.len() - i,
{
    if 0 <= i < s.len() && class.contains(s[i]) {
        1 + run_len(s, i + 1, class)
    } else {
        0
    }
}

/// A run is as long as the stretch of bytes of its class, and ends at the
/// first byte outside the class or at the end of the input.
pub proof fn lemma_run_len_is(s: Seq<u8>, i: int, n: nat, class: ByteClass)
    requires
        0 <= i,
        i + n <= s.len(),
        forall|k: int| i <= k < i + n ==> class.contains(#[trigger] s[k]),
        i + n == s.len() || !class.contains(s[i + n]),
    ensures
        run_len(s, i, class) == n,
    decreases n,
{
    if n > 0 {
        lemma_run_len_is(s, i + 1, (n - 1) as nat, class);
    }
}

/// A run stays inside the input and holds only bytes of its class.
pub proof fn lemma_run_len_bounds(s: Seq<u8>, i: int, class: ByteClass)
    requires
        0 <= i <= s.len(),
    ensures
        i + run_len(s, i, class) <= s.len(),
        forall|k: int| i <= k < i + run_len(s, i, class) ==> class.contains(#[trigger] s[k]),
        i + run_len(s, i, class) == s.len() || !class.contains(s[i + run_len(s, i, class)]),
    decreases s.len() - i,
{
    if i < s.len() && class.contains(s[i]) {
        lemma_run_len_bounds(s, i + 1, class);
    }
}

/// Measures the run of bytes of `class` that starts at `start`.
pub fn scan_run(bytes: &[u8], start: usize, class: ByteClass) -> (n: usize)
    requires
        start <= bytes@.len(),
    ensures
        n == run_len(bytes@, start as int, class),
        start + n <= bytes@.len(),
{
    let mut end: usize = start;
    while end < bytes.len() && class.has(bytes[end])
        invariant
            start <= end <= bytes@.len(),
            forall|k: int| start <= k < end ==> class.contains(#[trigger] bytes@[k]),
        decreases bytes@.len() - end,
    {
        end = end + 1;
    }
    proof {
        lemma_run_len_is(bytes@, start as int, (end - start) as nat, class);
    }
    end - start
}

/// 1 where a minus sign stands at `i`, else 0.
pub open spec fn sign_len(s: Seq<u8>, i: int) -> nat {
    if 0 <= i < s.len() && s[i] == '-' as u8 {
        1
    } else {
        0
    }
}

/// Whitespace: one or more of space, tab and newline.
pub open spec fn whitespace_len(s: Seq<u8>, i: int) -> nat {
    run_len(s, i, ByteClass::Space)
}

/// Decimal literal: an optional minus sign, digits, a dot, digits.
pub open spec fn decimal_len(s: Seq<u8>, i: int) -> nat {
    let sign = sign_len(s, i);
    let whole = run_len(s, i + sign, ByteClass::Digit);
    let dot = i + sign + whole;
    let fraction = run_len(s, dot + 1, ByteClass::Digit);
    if whole > 0 && dot < s.len() && s[dot] == '.' as u8 && fraction > 0 {
        sign + whole + 1 + fraction
    } else {
        0
    }
}

/// Integer literal: an optional minus sign, digits.
pub open spec fn integer_len(s: Seq<u8>, i: int) -> nat {
    let sign = sign_len(s, i);
    let digits = run_len(s, i + sign, ByteClass::Digit);
    if digits > 0 {
        sign + digits
    } else {
        0
    }
}

/// Operator: a two-byte spelling where one stands, else a single operator byte.
pub open spec fn operator_len(dialect: Dialect, s: Seq<u8>, i: int) -> nat {
    if 0 <= i && i + 1 < s.len() && is_operator_pair(dialect, s[i], s[i + 1]) {
        2
    } else if 0 <= i < s.len() && is_operator_byte(dialect, s[i]) {
        1
    } else {
        0
    }
}

/// Identifier or keyword: a letter or underscore, then letters, digits and
/// underscores.
pub open spec fn identifier_len(s: Seq<u8>, i: int) -> nat {
    if 0 <= i < s.len() && is_identifier_start(s[i]) {
        1 + run_len(s, i + 1, ByteClass::IdentifierTail)
    } else {
        0
    }
}

/// The lexical rules, in the order in which they are tried.
#[derive(Debug, Clone, Copy, PartialEq, Eq, Structural)]
pub enum Rule {
    Whitespace,
    Decimal,
    Integer,
    Operator,
    Identifier,
}

impl Rule {
    /// The length of the prefix of `s[i..]` that the rule matches; 0 where it
    /// matches nothing.
    pub open spec fn match_len(self, dialect: Dialect, s: Seq<u8>, i: int) -> nat {
        match self {
            Rule::Whitespace => whitespace_len(s, i),
            Rule::Decimal => decimal_len(s, i),
            Rule::Integer => integer_len(s, i),
            Rule::Operator => operator_len(dialect, s, i),
            Rule::Identifier => identifier_len(s, i),
        }
    }
}

/// The first rule, in table order, that matches at `i`, with the length of
/// its match.
pub open spec fn first_match(dialect: Dialect, s: Seq<u8>, i: int) -> Option<(Rule, nat)> {
    if Rule::Whitespace.match_len(dialect, s, i) > 0 {
        Some((Rule::Whitespace, Rule::Whitespace.match_len(dialect, s, i)))
    } else if Rule::Decimal.match_len(dialect, s, i) > 0 {
        Some((Rule::Decimal, Rule::Decimal.match_len(dialect, s, i)))
    } else if Rule::Integer.match_len(dialect, s, i) > 0 {
        Some((Rule::Integer, Rule::Integer.match_len(dialect, s, i)))
    } else if Rule::Operator.match_len(dialect, s, i) > 0 {
        Some((Rule::Operator, Rule::Operator.match_len(dialect, s, i)))
    } else if Rule::Identifier.match_len(dialect, s, i) > 0 {
        Some((Rule::Identifier, Rule::Identifier.match_len(dialect, s, i)))
    } else {
        None
    }
}

/// No rule matches past the end of the input.
pub proof fn lemma_match_len_bounds(dialect: Dialect, rule: Rule, s: Seq<u8>, i: int)
    requires
        0 <= i <= s.len(),
    ensures
        i + rule.match_len(dialect, s, i) <= s.len(),
{
    let sign = sign_len(s, i);
    lemma_run_len_bounds(s, i, ByteClass::Space);
    lemma_run_len_bounds(s, i + sign, ByteClass::Digit);
    let dot = i + sign + run_len(s, i + sign, ByteClass::Digit);
    if dot < s.len() {
        lemma_run_len_bounds(s, dot + 1, ByteClass::Digit);
    }
    if i < s.len() {
        lemma_run_len_bounds(s, i + 1, ByteClass::IdentifierTail);
    }
}

fn match_decimal(bytes: &[u8], pos: usize) -> (n: usize)
    requires
        pos <= bytes@.len(),
    ensures
        n == decimal_len(bytes@, pos as int),
        pos + n <= bytes@.len(),
{
    let sign: usize = if pos < bytes.len() && bytes[pos] == '-' as u8 {
        1
    } else {
        0
    };
    let whole: usize = scan_run(bytes, pos + sign, ByteClass::Digit);
    let dot: usize = pos + sign + whole;
    if whole == 0 || dot >= bytes.len() || bytes[dot] != '.' as u8 {
        return 0;
    }
    let fraction: usize = scan_run(bytes, dot + 1, ByteClass::Digit);
    if fraction == 0 {
        0
    } else {
        sign + whole + 1 + fraction
    }
}

fn match_integer(bytes: &[u8], pos: usize) -> (n: usize)
    requires
        pos <= bytes@.len(),
    ensures
        n == integer_len(bytes@, pos as int),
        pos + n <= bytes@.len(),
{
    let sign: usize = if pos < bytes.len() && bytes[pos] == '-' as u8 {
        1
    } else {
        0
    };
    let digits: usize = scan_run(bytes, pos + sign, ByteClass::Digit);
    if digits == 0 {
        0
    } else {
        sign + digits
    }
}

fn match_operator(bytes: &[u8], pos: usize, dialect: Dialect) -> (n: usize)
    requires
        pos <= bytes@.len(),
    ensures
        n == operator_len(dialect, bytes@, pos as int),
        pos + n <= bytes@.len(),
{
    if pos >= bytes.len() {
        return 0;
    }
    let a: u8 = bytes[pos];
    let extended: bool = match dialect {
        Dialect::Extended => true,
        Dialect::Basic => false,
    };
    if pos + 1 < bytes.len() {
        let b: u8 = bytes[pos + 1];
        let assigns: bool = extended && (a == '+' as u8 || a == '-' as u8 || a == '*' as u8 || a
            == '/' as u8);
        let with_equal: bool = b == '=' as u8 && (assigns || a == '=' as u8 || a == '!' as u8 || a
            == '<' as u8 || a == '>' as u8);
        if with_equal || (a == '&' as u8 && b == '&' as u8) || (a == '|' as u8 && b == '|' as u8) {
            return 2;
        }
    }
    if a == '+' as u8 || a == '\\' as u8 || a == '-' as u8 || a == '*' as u8 || a == '/' as u8
        || a == '%' as u8 || a == '<' as u8 || a == '>' as u8 || a == '!' as u8 || (extended && a
        == '=' as u8) {
        1
    } else {
        0
    }
}

fn match_identifier(bytes: &[u8], pos: usize) -> (n: usize)
    requires
        pos <= bytes@.len(),
    ensures
        n == identifier_len(bytes@, pos as int),
        pos + n <= bytes@.len(),
{
    if pos >= bytes.len() {
        return 0;
    }
    let b: u8 = bytes[pos];
    if (('a' as u8) <= b && b <= ('z' as u8)) || (('A' as u8) <= b && b <= ('Z' as u8)) || b
        == '_' as u8 {
        1 + scan_run(bytes, pos + 1, ByteClass::IdentifierTail)
    } else {
        0
    }
}

/// Applies the rule table of `dialect` at `pos`: the first rule that matches
/// there, and how many bytes it matches. `None` where no rule matches, as at
/// the end of the input.
pub fn match_rule(bytes: &[u8], pos: usize, dialect: Dialect) -> (r: Option<(Rule, usize)>)
    requires
        pos <= bytes@.len(),
    ensures
        match r {
            Some((rule, n)) => first_match(dialect, bytes@, pos as int) == Some((rule, n as nat))
                && 0 < n && pos + n <= bytes@.len() <= usize::MAX,
            None => first_match(dialect, bytes@, pos as int) is None,
        },
{
    if pos >= bytes.len() {
        return None;
    }
    let n: usize = scan_run(bytes, pos, ByteClass::Space);
    if n > 0 {
        return Some((Rule::Whitespace, n));
    }
    let n: usize = match_decimal(bytes, pos);
    if n > 0 {
        return Some((Rule::Decimal, n));
    }
    let n: usize = match_integer(bytes, pos);
    if n > 0 {
        return Some((Rule::Integer, n));
    }
    let n: usize = match_operator(bytes, pos, dialect);
    if n > 0 {
        return Some((Rule::Operator, n));
    }
    let n: usize = match_identifier(bytes, pos);
    if n > 0 {
        return Some((Rule::Identifier, n));
    }
    None
}

} // verus!
