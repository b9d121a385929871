use lexical_analyzer::classify::{keyword_in, operator_in};
use lexical_analyzer::number::parse_integer;
use lexical_analyzer::rules::{scan_run, ByteClass};
use lexical_analyzer::scanner::{build_token, rest_is_whitespace};
use lexical_analyzer::token::text_of;
use lexical_analyzer::{
    extract_tokens, match_next, match_rule, parse_keyword, parse_operator, tokenize, tokenize_in, Dialect,
    Keyword, LexError, Operator, Rule, Token,
};

fn ident(name: &str) -> Token {
    Token::Identifier(name.to_string())
}

#[test]
fn empty_text_has_no_tokens() {
    assert_eq!(tokenize(""), Ok(vec![]));
}

#[test]
fn whitespace_runs_collapse_into_one_token_each() {
    assert_eq!(
        tokenize("if    x \t\n y"),
        Ok(vec![
            Token::Keyword(Keyword::If),
            Token::Whitespace,
            ident("x"),
            Token::Whitespace,
            ident("y"),
        ])
    );
    assert_eq!(tokenize(" \n\t "), Ok(vec![Token::Whitespace]));
}

#[test]
fn missing_separator_names_both_tokens_and_the_offset() {
    assert_eq!(
        tokenize("42+3"),
        Err(LexError::MissingSeparator {
            previous: Token::Integer(42),
            current: Token::Operator(Operator::Plus),
            byte_offset: 2,
        })
    );
    assert_eq!(
        tokenize("x 5-3"),
        Err(LexError::MissingSeparator {
            previous: Token::Integer(5),
            current: Token::Integer(-3),
            byte_offset: 3,
        })
    );
    assert_eq!(
        tokenize("a=b"),
        Err(LexError::MissingSeparator {
            previous: ident("a"),
            current: Token::Operator(Operator::Equal),
            byte_offset: 1,
        })
    );
}

#[test]
fn unrecognized_token_reports_its_byte_offset() {
    assert_eq!(
        tokenize("print $x + 3"),
        Err(LexError::UnrecognizedToken { byte_offset: 6 })
    );
    assert_eq!(tokenize(".5"), Err(LexError::UnrecognizedToken { byte_offset: 0 }));
    assert_eq!(tokenize("42."), Err(LexError::UnrecognizedToken { byte_offset: 2 }));
    assert_eq!(tokenize("1.5.2"), Err(LexError::UnrecognizedToken { byte_offset: 3 }));
    assert_eq!(tokenize("a & b"), Err(LexError::UnrecognizedToken { byte_offset: 2 }));
    assert_eq!(tokenize("a | b"), Err(LexError::UnrecognizedToken { byte_offset: 2 }));
}

#[test]
fn text_outside_ascii_is_unrecognized_at_its_first_byte() {
    assert_eq!(tokenize("é"), Err(LexError::UnrecognizedToken { byte_offset: 0 }));
    assert_eq!(tokenize("x é"), Err(LexError::UnrecognizedToken { byte_offset: 2 }));
    assert_eq!(tokenize("é x ñ"), Err(LexError::UnrecognizedToken { byte_offset: 0 }));
}

#[test]
fn trailing_ascii_whitespace_that_no_rule_matches_is_dropped() {
    assert_eq!(tokenize("a \r\n"), Ok(vec![ident("a"), Token::Whitespace]));
    assert_eq!(tokenize("a\r"), Ok(vec![ident("a")]));
    assert_eq!(tokenize("\r\u{c} \t"), Ok(vec![]));
    assert_eq!(tokenize("a \r b"), Err(LexError::UnrecognizedToken { byte_offset: 2 }));
    assert_eq!(tokenize("a \u{b}"), Err(LexError::UnrecognizedToken { byte_offset: 2 }));
}

#[test]
fn backslash_matches_the_operator_rule_but_names_no_operator() {
    assert_eq!(
        tokenize("a \\ b"),
        Err(LexError::UnknownOperatorSpelling { byte_offset: 2, spelling: "\\".to_string() })
    );
}

#[test]
fn integer_literals_at_the_limits() {
    assert_eq!(tokenize("9223372036854775807"), Ok(vec![Token::Integer(i64::MAX)]));
    assert_eq!(tokenize("-9223372036854775808"), Ok(vec![Token::Integer(i64::MIN)]));
    assert_eq!(tokenize("007"), Ok(vec![Token::Integer(7)]));
    assert_eq!(tokenize("-0"), Ok(vec![Token::Integer(0)]));
    assert_eq!(
        tokenize("9223372036854775808"),
        Err(LexError::NumericLiteralOverflow {
            byte_offset: 0,
            literal_text: "9223372036854775808".to_string(),
        })
    );
    assert_eq!(
        tokenize("1 -9223372036854775809"),
        Err(LexError::NumericLiteralOverflow {
            byte_offset: 2,
            literal_text: "-9223372036854775809".to_string(),
        })
    );
    assert_eq!(
        tokenize("123456789012345678901234567890123456789012345678901234567890"),
        Err(LexError::NumericLiteralOverflow {
            byte_offset: 0,
            literal_text: "123456789012345678901234567890123456789012345678901234567890"
                .to_string(),
        })
    );
}

#[test]
fn decimal_literals_keep_their_text() {
    assert_eq!(
        tokenize("-0.50 12.034"),
        Ok(vec![
            Token::Decimal("-0.50".to_string()),
            Token::Whitespace,
            Token::Decimal("12.034".to_string()),
        ])
    );
    let long = "0.1234567890123456789012345678901234567890";
    assert_eq!(tokenize(long), Ok(vec![Token::Decimal(long.to_string())]));
}

#[test]
fn minus_is_a_sign_only_before_a_digit() {
    assert_eq!(tokenize("-5"), Ok(vec![Token::Integer(-5)]));
    assert_eq!(
        tokenize("- 5"),
        Ok(vec![Token::Operator(Operator::Minus), Token::Whitespace, Token::Integer(5)])
    );
    assert_eq!(tokenize("-="), Ok(vec![Token::Operator(Operator::MinusEqual)]));
    assert_eq!(
        tokenize("--5"),
        Err(LexError::MissingSeparator {
            previous: Token::Operator(Operator::Minus),
            current: Token::Integer(-5),
            byte_offset: 1,
        })
    );
}

#[test]
fn two_byte_operators_are_one_token() {
    assert_eq!(tokenize("=="), Ok(vec![Token::Operator(Operator::EqualEqual)]));
    assert_eq!(tokenize("<="), Ok(vec![Token::Operator(Operator::LessEqual)]));
    assert_eq!(tokenize(">="), Ok(vec![Token::Operator(Operator::GreaterEqual)]));
    assert_eq!(tokenize("&&"), Ok(vec![Token::Operator(Operator::And)]));
    assert_eq!(tokenize("||"), Ok(vec![Token::Operator(Operator::Or)]));
    assert_eq!(
        tokenize("==="),
        Err(LexError::MissingSeparator {
            previous: Token::Operator(Operator::EqualEqual),
            current: Token::Operator(Operator::Equal),
            byte_offset: 2,
        })
    );
}

#[test]
fn every_operator_is_found_under_its_spelling() {
    let table = [
        ("+", Operator::Plus),
        ("-", Operator::Minus),
        ("*", Operator::Multiply),
        ("/", Operator::Divide),
        ("+=", Operator::PlusEqual),
        ("-=", Operator::MinusEqual),
        ("*=", Operator::MultiplyEqual),
        ("/=", Operator::DivideEqual),
        ("%", Operator::Modulo),
        ("=", Operator::Equal),
        ("==", Operator::EqualEqual),
        ("!=", Operator::NotEqual),
        ("<", Operator::Less),
        ("<=", Operator::LessEqual),
        (">", Operator::Greater),
        (">=", Operator::GreaterEqual),
        ("&&", Operator::And),
        ("||", Operator::Or),
        ("!", Operator::Not),
    ];
    for (spelling, op) in table {
        assert_eq!(parse_operator(spelling), Some(op));
        assert_eq!(tokenize(spelling), Ok(vec![Token::Operator(op)]));
    }
    assert_eq!(parse_operator(""), None);
    assert_eq!(parse_operator("%="), None);
    assert_eq!(parse_operator("&"), None);
    assert_eq!(parse_operator("=<"), None);
    assert_eq!(parse_operator("==="), None);
}

#[test]
fn every_keyword_shadows_the_identifier_of_its_spelling() {
    let table = [
        ("while", Keyword::While),
        ("for", Keyword::For),
        ("fn", Keyword::Fn),
        ("if", Keyword::If),
        ("else", Keyword::Else),
    ];
    for (spelling, keyword) in table {
        assert_eq!(parse_keyword(spelling), Some(keyword));
        assert_eq!(tokenize(spelling), Ok(vec![Token::Keyword(keyword)]));
    }
    for name in ["While", "IF", "iff", "fn_", "_", "else1", "f", "whil", "x9_y"] {
        assert_eq!(parse_keyword(name), None);
        assert_eq!(tokenize(name), Ok(vec![ident(name)]));
    }
}

#[test]
fn tokenizing_twice_gives_the_same_outcome() {
    for text in ["fn f 1 + 2.5", "42+3", "print $x", "", "9999999999999999999999"] {
        assert_eq!(tokenize(text), tokenize(text));
        assert_eq!(tokenize(text), extract_tokens(text.to_string()));
    }
}

#[test]
fn separated_tokens_cover_the_whole_text() {
    let text = "while x <= -10 \n\t y /= 2.5";
    let tokens = tokenize(text).unwrap();
    assert_eq!(
        tokens,
        vec![
            Token::Keyword(Keyword::While),
            Token::Whitespace,
            ident("x"),
            Token::Whitespace,
            Token::Operator(Operator::LessEqual),
            Token::Whitespace,
            Token::Integer(-10),
            Token::Whitespace,
            ident("y"),
            Token::Whitespace,
            Token::Operator(Operator::DivideEqual),
            Token::Whitespace,
            Token::Decimal("2.5".to_string()),
        ]
    );
    let bytes = text.as_bytes();
    let mut pos = 0;
    let mut count = 0;
    while let Some((_, n)) = match_rule(bytes, pos, Dialect::Extended) {
        pos += n;
        count += 1;
    }
    assert_eq!(pos, bytes.len());
    assert_eq!(count, tokens.len());
}

#[test]
fn successful_results_never_hold_two_adjacent_tokens_without_whitespace() {
    for text in ["a b c", "1 + 2", "fn  x", " lead", "trail ", "x\n==\ty"] {
        let tokens = tokenize(text).unwrap();
        for pair in tokens.windows(2) {
            assert!(pair[0].is_whitespace() || pair[1].is_whitespace());
        }
    }
}

#[test]
fn match_rule_tries_the_rules_in_order() {
    assert_eq!(match_rule(b"  x", 0, Dialect::Extended), Some((Rule::Whitespace, 2)));
    assert_eq!(match_rule(b"-1.25+", 0, Dialect::Extended), Some((Rule::Decimal, 5)));
    assert_eq!(match_rule(b"-12.x", 0, Dialect::Extended), Some((Rule::Integer, 3)));
    assert_eq!(match_rule(b"-x", 0, Dialect::Extended), Some((Rule::Operator, 1)));
    assert_eq!(match_rule(b"== 1", 0, Dialect::Extended), Some((Rule::Operator, 2)));
    assert_eq!(match_rule(b"=!", 0, Dialect::Extended), Some((Rule::Operator, 1)));
    assert_eq!(match_rule(b"\\", 0, Dialect::Extended), Some((Rule::Operator, 1)));
    assert_eq!(match_rule(b"_a1+", 0, Dialect::Extended), Some((Rule::Identifier, 3)));
    assert_eq!(match_rule(b"a b", 1, Dialect::Extended), Some((Rule::Whitespace, 1)));
    assert_eq!(match_rule(b"a b", 2, Dialect::Extended), Some((Rule::Identifier, 1)));
    assert_eq!(match_rule(b"a b", 3, Dialect::Extended), None);
    assert_eq!(match_rule(b"$", 0, Dialect::Extended), None);
    assert_eq!(match_rule(b"\r", 0, Dialect::Extended), None);
    assert_eq!(match_rule(b"", 0, Dialect::Extended), None);
}

#[test]
fn scan_run_measures_a_run_of_one_class() {
    assert_eq!(scan_run(b"123abc", 0, ByteClass::Digit), 3);
    assert_eq!(scan_run(b"123abc", 3, ByteClass::Digit), 0);
    assert_eq!(scan_run(b"123abc", 1, ByteClass::IdentifierTail), 5);
    assert_eq!(scan_run(b" \t\n\r", 0, ByteClass::Space), 3);
    assert_eq!(scan_run(b"abc", 3, ByteClass::IdentifierTail), 0);
    assert!(ByteClass::IdentifierTail.has(b'_'));
    assert!(!ByteClass::IdentifierTail.has(b'-'));
    assert!(!ByteClass::Digit.has(b'/'));
    assert!(!ByteClass::Digit.has(b':'));
}

#[test]
fn parse_integer_gives_the_value_or_none() {
    assert_eq!(parse_integer(b"x=1234;", 2, 6), Some(1234));
    assert_eq!(parse_integer(b"-17", 0, 3), Some(-17));
    assert_eq!(parse_integer(b"0", 0, 1), Some(0));
    assert_eq!(parse_integer(b"9223372036854775808", 0, 19), None);
    assert_eq!(parse_integer(b"-9223372036854775808", 0, 20), Some(i64::MIN));
    assert_eq!(parse_integer(b"-9223372036854775809", 0, 20), None);
    assert_eq!(parse_integer(b"", 0, 0), None);
    assert_eq!(parse_integer(b"-", 0, 1), None);
    assert_eq!(parse_integer(b"12a", 0, 3), None);
    assert_eq!(parse_integer(b"+12", 0, 3), None);
    assert_eq!(parse_integer(b"1-2", 0, 3), None);
    assert_eq!(parse_integer(b"99999999999999999999x", 0, 21), None);
}

#[test]
fn lookups_on_a_part_of_the_text() {
    assert_eq!(keyword_in(b"x while y", 2, 7), Some(Keyword::While));
    assert_eq!(keyword_in(b"x while y", 2, 6), None);
    assert_eq!(keyword_in(b"else", 0, 4), Some(Keyword::Else));
    assert_eq!(keyword_in(b"elsa", 0, 4), None);
    assert_eq!(operator_in(b"a>=b", 1, 3), Some(Operator::GreaterEqual));
    assert_eq!(operator_in(b"a>=b", 1, 2), Some(Operator::Greater));
    assert_eq!(operator_in(b"a>=b", 1, 1), None);
    assert_eq!(text_of(b"a>=b", 1, 4), ">=b".to_string());
    assert_eq!(text_of(b"abc", 1, 1), String::new());
}

#[test]
fn build_token_runs_the_action_of_a_rule() {
    let d = Dialect::Extended;
    assert_eq!(build_token(Rule::Whitespace, b"  ", 0, 2, d), Ok(Token::Whitespace));
    assert_eq!(build_token(Rule::Integer, b"a 12", 2, 4, d), Ok(Token::Integer(12)));
    assert_eq!(build_token(Rule::Decimal, b"1.5", 0, 3, d), Ok(Token::Decimal("1.5".to_string())));
    assert_eq!(build_token(Rule::Operator, b"!=", 0, 2, d), Ok(Token::Operator(Operator::NotEqual)));
    assert_eq!(build_token(Rule::Identifier, b"for", 0, 3, d), Ok(Token::Keyword(Keyword::For)));
    assert_eq!(build_token(Rule::Identifier, b"fort", 0, 4, d), Ok(ident("fort")));
    assert_eq!(build_token(Rule::Identifier, b"else", 0, 4, Dialect::Basic), Ok(ident("else")));
    assert_eq!(
        build_token(Rule::Operator, b"=", 0, 1, Dialect::Basic),
        Err(LexError::UnknownOperatorSpelling { byte_offset: 0, spelling: "=".to_string() })
    );
    assert_eq!(
        build_token(Rule::Integer, b"x 99999999999999999999", 2, 22, d),
        Err(LexError::NumericLiteralOverflow {
            byte_offset: 2,
            literal_text: "99999999999999999999".to_string(),
        })
    );
}

#[test]
fn rest_is_whitespace_accepts_the_five_ascii_whitespace_bytes() {
    assert!(rest_is_whitespace(b"a \t\n\x0c\r", 1));
    assert!(rest_is_whitespace(b"a", 1));
    assert!(!rest_is_whitespace(b"a \x0b", 1));
    assert!(!rest_is_whitespace(b"a", 0));
}

#[test]
fn basic_dialect_has_no_else_and_no_assignment() {
    let basic = Dialect::Basic;
    assert_eq!(tokenize_in("else", basic), Ok(vec![ident("else")]));
    assert_eq!(tokenize_in("while", basic), Ok(vec![Token::Keyword(Keyword::While)]));
    assert_eq!(tokenize_in("=", basic), Err(LexError::UnrecognizedToken { byte_offset: 0 }));
    assert_eq!(tokenize_in("x = 1", basic), Err(LexError::UnrecognizedToken { byte_offset: 2 }));
    assert_eq!(tokenize_in("+=", basic), Err(LexError::UnrecognizedToken { byte_offset: 1 }));
    assert_eq!(tokenize_in("==", basic), Ok(vec![Token::Operator(Operator::EqualEqual)]));
    assert_eq!(tokenize_in("<=", basic), Ok(vec![Token::Operator(Operator::LessEqual)]));
    assert_eq!(tokenize_in("!=", basic), Ok(vec![Token::Operator(Operator::NotEqual)]));
    assert_eq!(
        tokenize_in("\\", basic),
        Err(LexError::UnknownOperatorSpelling { byte_offset: 0, spelling: "\\".to_string() })
    );
    assert_eq!(match_rule(b"+=", 0, basic), Some((Rule::Operator, 1)));
    assert_eq!(match_rule(b"=", 0, basic), None);
    assert_eq!(match_rule(b"/=", 0, Dialect::Extended), Some((Rule::Operator, 2)));
    assert_eq!(basic.find_keyword(b"else", 0, 4), None);
    assert_eq!(Dialect::Extended.find_keyword(b"else", 0, 4), Some(Keyword::Else));
    assert_eq!(basic.find_keyword(b"if", 0, 2), Some(Keyword::If));
    assert_eq!(basic.find_operator(b"=", 0, 1), None);
    assert_eq!(basic.find_operator(b"*=", 0, 2), None);
    assert_eq!(basic.find_operator(b"%", 0, 1), Some(Operator::Modulo));
    assert_eq!(Dialect::Extended.find_operator(b"*=", 0, 2), Some(Operator::MultiplyEqual));
}

#[test]
fn both_dialects_agree_where_neither_else_nor_assignment_occurs() {
    let texts =
        ["fn myFunc 42 + 3.14 while", "42+3", "print $x + 3", "if    x   !=  10", "a && b || ! c"];
    for text in texts {
        assert_eq!(tokenize_in(text, Dialect::Basic), tokenize_in(text, Dialect::Extended));
        assert_eq!(tokenize(text), tokenize_in(text, Dialect::Extended));
    }
}

#[test]
fn match_next_gives_the_token_and_its_length() {
    let d = Dialect::Extended;
    assert_eq!(match_next(b"while x", 0, d), Ok(Some((Token::Keyword(Keyword::While), 5))));
    assert_eq!(match_next(b"while x", 5, d), Ok(Some((Token::Whitespace, 1))));
    assert_eq!(match_next(b"while x", 6, d), Ok(Some((ident("x"), 1))));
    assert_eq!(match_next(b"while x", 7, d), Ok(None));
    assert_eq!(match_next(b"-12.5e", 0, d), Ok(Some((Token::Decimal("-12.5".to_string()), 5))));
    assert_eq!(match_next(b"-12.e", 0, d), Ok(Some((Token::Integer(-12), 3))));
    assert_eq!(match_next(b"<=>", 0, d), Ok(Some((Token::Operator(Operator::LessEqual), 2))));
    assert_eq!(match_next(b"#", 0, d), Ok(None));
    assert_eq!(
        match_next(b"\\", 0, d),
        Err(LexError::UnknownOperatorSpelling { byte_offset: 0, spelling: "\\".to_string() })
    );
    assert_eq!(
        match_next(b" 99999999999999999999", 1, d),
        Err(LexError::NumericLiteralOverflow {
            byte_offset: 1,
            literal_text: "99999999999999999999".to_string(),
        })
    );
}
