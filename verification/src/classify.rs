//! Keywords and operators, and the exact-match lookup from a spelling to each.

use vstd::prelude::*;
use vstd::string::StringSliceAdditionalSpecFns;

verus! {

/// The reserved words of the language.
#[derive(Debug, Clone, Copy, PartialEq, Eq, Structural)]
pub enum Keyword {
    While,
    For,
    Fn,
    If,
    Else,
}

/// The operators of the language.
#[derive(Debug, Clone, Copy, PartialEq, Eq, Structural)]
pub enum Operator {
    // Arithmetic
    Plus,
    Minus,
    Multiply,
    Divide,
    PlusEqual,
    MinusEqual,
    MultiplyEqual,
    DivideEqual,
    Modulo,
    Equal,
    // Comparison
    EqualEqual,
    NotEqual,
    Less,
    LessEqual,
    Greater,
    GreaterEqual,
    // Logical
    And,
    Or,
    Not,
}

/// Which of the keywords and operators the language has.
#[derive(Debug, Clone, Copy, PartialEq, Eq, Structural)]
pub enum Dialect {
    /// Every keyword and every operator.
    Extended,
    /// Without `else`, and without assignment and the compound assignments.
    Basic,
}

/// The bytes that spell a keyword.
pub open spec fn keyword_spelling(k: Keyword) -> Seq<u8> {
    match k {
        Keyword::While => seq!['w' as u8, 'h' as u8, 'i' as u8, 'l' as u8, 'e' as u8],
        Keyword::For => seq!['f' as u8, 'o' as u8, 'r' as u8],
        Keyword::Fn => seq!['f' as u8, 'n' as u8],
        Keyword::If => seq!['i' as u8, 'f' as u8],
        Keyword::Else => seq!['e' as u8, 'l' as u8, 's' as u8, 'e' as u8],
    }
}

/// The keyword that `s` spells, if any. The match is exact and case-sensitive.
pub open spec fn keyword_of(s: Seq<u8>) -> Option<Keyword> {
    if s =~= keyword_spelling(Keyword::While) {
        Some(Keyword::While)
    } else if s =~= keyword_spelling(Keyword::For) {
        Some(Keyword::For)
    } else if s =~= keyword_spelling(Keyword::Fn) {
        Some(Keyword::Fn)
    } else if s =~= keyword_spelling(Keyword::If) {
        Some(Keyword::If)
    } else if s =~= keyword_spelling(Keyword::Else) {
        Some(Keyword::Else)
    } else {
        None
    }
}

/// The bytes that spell an operator.
pub open spec fn operator_spelling(op: Operator) -> Seq<u8> {
    match op {
        Operator::Plus => seq!['+' as u8],
        Operator::Minus => seq!['-' as u8],
        Operator::Multiply => seq!['*' as u8],
        Operator::Divide => seq!['/' as u8],
        Operator::PlusEqual => seq!['+' as u8, '=' as u8],
        Operator::MinusEqual => seq!['-' as u8, '=' as u8],
        Operator::MultiplyEqual => seq!['*' as u8, '=' as u8],
        Operator::DivideEqual => seq!['/' as u8, '=' as u8],
        Operator::Modulo => seq!['%' as u8],
        Operator::Equal => seq!['=' as u8],
        Operator::EqualEqual => seq!['=' as u8, '=' as u8],
        Operator::NotEqual => seq!['!' as u8, '=' as u8],
        Operator::Less => seq!['<' as u8],
        Operator::LessEqual => seq!['<' as u8, '=' as u8],
        Operator::Greater => seq!['>' as u8],
        Operator::GreaterEqual => seq!['>' as u8, '=' as u8],
        Operator::And => seq!['&' as u8, '&' as u8],
        Operator::Or => seq!['|' as u8, '|' as u8],
        Operator::Not => seq!['!' as u8],
    }
}

/// The operator that a one-byte spelling names, if any.
pub open spec fn operator_of_byte(a: u8) -> Option<Operator> {
    if a == '+' as u8 {
        Some(Operator::Plus)
    } else if a == '-' as u8 {
        Some(Operator::Minus)
    } else if a == '*' as u8 {
        Some(Operator::Multiply)
    } else if a == '/' as u8 {
        Some(Operator::Divide)
    } else if a == '%' as u8 {
        Some(Operator::Modulo)
    } else if a == '=' as u8 {
        Some(Operator::Equal)
    } else if a == '<' as u8 {
        Some(Operator::Less)
    } else if a == '>' as u8 {
        Some(Operator::Greater)
    } else if a == '!' as u8 {
        Some(Operator::Not)
    } else {
        None
    }
}

/// The operator that a two-byte spelling names, if any.
pub open spec fn operator_of_pair(a: u8, b: u8) -> Option<Operator> {
    if b == '=' as u8 {
        if a == '+' as u8 {
            Some(Operator::PlusEqual)
        } else if a == '-' as u8 {
            Some(Operator::MinusEqual)
        } else if a == '*' as u8 {
            Some(Operator::MultiplyEqual)
        } else if a == '/' as u8 {
            Some(Operator::DivideEqual)
        } else if a == '=' as u8 {
            Some(Operator::EqualEqual)
        } else if a == '!' as u8 {
            Some(Operator::NotEqual)
        } else if a == '<' as u8 {
            Some(Operator::LessEqual)
        } else if a == '>' as u8 {
            Some(Operator::GreaterEqual)
        } else {
            None
        }
    } else if a == '&' as u8 && b == '&' as u8 {
        Some(Operator::And)
    } else if a == '|' as u8 && b == '|' as u8 {
        Some(Operator::Or)
    } else {
        None
    }
}

/// The operator that `s` spells, if any. The match is exact.
pub open spec fn operator_of(s: Seq<u8>) -> Option<Operator> {
    if s.len() == 1 {
        operator_of_byte(s[0])
    } else if s.len() == 2 {
        operator_of_pair(s[0], s[1])
    } else {
        None
    }
}

impl Dialect {
    /// Whether the dialect has the keyword.
    pub open spec fn has_keyword(self, k: Keyword) -> bool {
        self is Extended || !(k is Else)
    }

    /// Whether the dialect has the operator.
    pub open spec fn has_operator(self, op: Operator) -> bool {
        self is Extended || !(op is PlusEqual || op is MinusEqual || op is MultiplyEqual
            || op is DivideEqual || op is Equal)
    }

    /// The keyword of the dialect that `s` spells, if any.
    pub open spec fn keyword_of(self, s: Seq<u8>) -> Option<Keyword> {
        match keyword_of(s) {
            Some(k) => if self.has_keyword(k) {
                Some(k)
            } else {
                None
            },
            None => None,
        }
    }

    /// The operator of the dialect that `s` spells, if any.
    pub open spec fn operator_of(self, s: Seq<u8>) -> Option<Operator> {
        match operator_of(s) {
            Some(op) => if self.has_operator(op) {
                Some(op)
            } else {
                None
            },
            None => None,
        }
    }

    /// Looks up the keyword of the dialect spelled by `bytes[start..end]`.
    pub fn find_keyword(self, bytes: &[u8], start: usize, end: usize) -> (r: Option<Keyword>)
        requires
            start <= end <= bytes@.len(),
        ensures
            r == self.keyword_of(bytes@.subrange(start as int, end as int)),
    {
        match keyword_in(bytes, start, end) {
            Some(Keyword::Else) => match self {
                Dialect::Extended => Some(Keyword::Else),
                Dialect::Basic => None,
            },
            found => found,
        }
    }

    /// Looks up the operator of the dialect spelled by `bytes[start..end]`.
    pub fn find_operator(self, bytes: &[u8], start: usize, end: usize) -> (r: Option<Operator>)
        requires
            start <= end <= bytes@.len(),
        ensures
            r == self.operator_of(bytes@.subrange(start as int, end as int)),
    {
        let found = operator_in(bytes, start, end);
        match self {
            Dialect::Extended => found,
            Dialect::Basic => match found {
                Some(Operator::PlusEqual) => None,
                Some(Operator::MinusEqual) => None,
                Some(Operator::MultiplyEqual) => None,
                Some(Operator::DivideEqual) => None,
                Some(Operator::Equal) => None,
                other => other,
            },
        }
    }
}

/// Looks up the keyword spelled by `bytes[start..end]`.
pub fn keyword_in(bytes: &[u8], start: usize, end: usize) -> (r: Option<Keyword>)
    requires
        start <= end <= bytes@.len(),
    ensures
        r == keyword_of(bytes@.subrange(start as int, end as int)),
{
    let ghost s = bytes@.subrange(start as int, end as int);
    let n: usize = end - start;
    if n == 2 {
        let a: u8 = bytes[start];
        let b: u8 = bytes[start + 1];
        assert(s[0] == a && s[1] == b);
        if a == 'f' as u8 && b == 'n' as u8 {
            Some(Keyword::Fn)
        } else if a == 'i' as u8 && b == 'f' as u8 {
            Some(Keyword::If)
        } else {
            None
        }
    } else if n == 3 {
        assert(s[0] == bytes@[start as int] && s[1] == bytes@[start + 1] && s[2] == bytes@[start
            + 2]);
        if bytes[start] == 'f' as u8 && bytes[start + 1] == 'o' as u8 && bytes[start + 2]
            == 'r' as u8 {
            Some(Keyword::For)
        } else {
            None
        }
    } else if n == 4 {
        assert(s[0] == bytes@[start as int] && s[1] == bytes@[start + 1] && s[2] == bytes@[start
            + 2] && s[3] == bytes@[start + 3]);
        if bytes[start] == 'e' as u8 && bytes[start + 1] == 'l' as u8 && bytes[start + 2]
            == 's' as u8 && bytes[start + 3] == 'e' as u8 {
            Some(Keyword::Else)
        } else {
            None
        }
    } else if n == 5 {
        assert(s[0] == bytes@[start as int] && s[1] == bytes@[start + 1] && s[2] == bytes@[start
            + 2] && s[3] == bytes@[start + 3] && s[4] == bytes@[start + 4]);
        if bytes[start] == 'w' as u8 && bytes[start + 1] == 'h' as u8 && bytes[start + 2]
            == 'i' as u8 && bytes[start + 3] == 'l' as u8 && bytes[start + 4] == 'e' as u8 {
            Some(Keyword::While)
        } else {
            None
        }
    } else {
        None
    }
}

/// Looks up the operator spelled by `bytes[start..end]`.
pub fn operator_in(bytes: &[u8], start: usize, end: usize) -> (r: Option<Operator>)
    requires
        start <= end <= bytes@.len(),
    ensures
        r == operator_of(bytes@.subrange(start as int, end as int)),
{
    let ghost s = bytes@.subrange(start as int, end as int);
    let n: usize = end - start;
    if n == 1 {
        let a: u8 = bytes[start];
        assert(s[0] == a);
        if a == '+' as u8 {
            Some(Operator::Plus)
        } else if a == '-' as u8 {
            Some(Operator::Minus)
        } else if a == '*' as u8 {
            Some(Operator::Multiply)
        } else if a == '/' as u8 {
            Some(Operator::Divide)
        } else if a == '%' as u8 {
            Some(Operator::Modulo)
        } else if a == '=' as u8 {
            Some(Operator::Equal)
        } else if a == '<' as u8 {
            Some(Operator::Less)
        } else if a == '>' as u8 {
            Some(Operator::Greater)
        } else if a == '!' as u8 {
            Some(Operator::Not)
        } else {
            None
        }
    } else if n == 2 {
        let a: u8 = bytes[start];
        let b: u8 = bytes[start + 1];
        assert(s[0] == a && s[1] == b);
        if b == '=' as u8 {
            if a == '+' as u8 {
                Some(Operator::PlusEqual)
            } else if a == '-' as u8 {
                Some(Operator::MinusEqual)
            } else if a == '*' as u8 {
                Some(Operator::MultiplyEqual)
            } else if a == '/' as u8 {
                Some(Operator::DivideEqual)
            } else if a == '=' as u8 {
                Some(Operator::EqualEqual)
            } else if a == '!' as u8 {
                Some(Operator::NotEqual)
            } else if a == '<' as u8 {
                Some(Operator::LessEqual)
            } else if a == '>' as u8 {
                Some(Operator::GreaterEqual)
            } else {
                None
            }
        } else if a == '&' as u8 && b == '&' as u8 {
            Some(Operator::And)
        } else if a == '|' as u8 && b == '|' as u8 {
            Some(Operator::Or)
        } else {
            None
        }
    } else {
        None
    }
}

/// Matches a string against the reserved words.
pub fn parse_keyword(s: &str) -> (r: Option<Keyword>)
    ensures
        r == keyword_of(s.spec_bytes()),
{
    let bytes = s.as_bytes();
    assert(bytes@.subrange(0, bytes@.len() as int) =~= bytes@);
    keyword_in(bytes, 0, bytes.len())
}

/// Matches a string against the operator spellings.
pub fn parse_operator(s: &str) -> (r: Option<Operator>)
    ensures
        r == operator_of(s.spec_bytes()),
{
    let bytes = s.as_bytes();
    assert(bytes@.subrange(0, bytes@.len() as int) =~= bytes@);
    operator_in(bytes, 0, bytes.len())
}

/// Every keyword is found under its own spelling, and under no other.
pub proof fn lemma_keyword_spelling_round_trip(k: Keyword, s: Seq<u8>)
    ensures
        keyword_of(keyword_spelling(k)) == Some(k),
        keyword_of(s) == Some(k) <==> s == keyword_spelling(k),
{
    let w = keyword_spelling(Keyword::While);
    let f = keyword_spelling(Keyword::For);
    let n = keyword_spelling(Keyword::Fn);
    let i = keyword_spelling(Keyword::If);
    let e = keyword_spelling(Keyword::Else);
    assert(w.len() == 5 && f.len() == 3 && n.len() == 2 && i.len() == 2 && e.len() == 4);
    assert(n[0] != i[0]);
}

/// Every operator is found under its own spelling, and under no other.
pub proof fn lemma_operator_spelling_round_trip(op: Operator, s: Seq<u8>)
    ensures
        operator_of(operator_spelling(op)) == Some(op),
        operator_of(s) == Some(op) <==> s == operator_spelling(op),
{
    let t = operator_spelling(op);
    assert(t.len() == 1 || t.len() == 2);
    if operator_of(s) == Some(op) {
        assert(s =~= t);
    }
    if s == t {
        assert(operator_of(s) == Some(op));
    }
}

} // verus!
