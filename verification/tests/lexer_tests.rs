use lexical_analyzer::{extract_tokens, parse_keyword, parse_operator, Keyword, Operator, Token};

fn significant(input: &str) -> Vec<Token> {
    extract_tokens(input.to_string())
        .unwrap()
        .into_iter()
        .filter(|t| !matches!(t, Token::Whitespace))
        .collect::<Vec<_>>()
}

fn decimal_value(token: &Token) -> f64 {
    match token {
        Token::Decimal(text) => text.parse::<f64>().unwrap(),
        other => panic!("not a decimal literal: {:?}", other),
    }
}

fn report(input: &str) -> Vec<Token> {
    match extract_tokens(input.to_string()) {
        Ok(tokens) => tokens,
        Err(lexical_analyzer::LexError::MissingSeparator { previous, current, .. }) => {
            panic!("Missing separator between tokens {:?} and {:?}", previous, current)
        }
        Err(lexical_analyzer::LexError::UnrecognizedToken { byte_offset }) => {
            panic!(
                "Unrecognized token starting at position {}: {:?}",
                byte_offset,
                &input[byte_offset..]
            )
        }
        Err(other) => panic!("{:?}", other),
    }
}

#[test]
fn test_parse_keyword() {
    assert_eq!(parse_keyword("while"), Some(Keyword::While));
    assert_eq!(parse_keyword("for"), Some(Keyword::For));
    assert_eq!(parse_keyword("fn"), Some(Keyword::Fn));
    assert_eq!(parse_keyword("if"), Some(Keyword::If));
    assert_eq!(parse_keyword("unknown_keyword"), None);
}

#[test]
fn test_parse_operator() {
    assert_eq!(parse_operator("+"), Some(Operator::Plus));
    assert_eq!(parse_operator("!="), Some(Operator::NotEqual));
    assert_eq!(parse_operator("<="), Some(Operator::LessEqual));
    assert_eq!(parse_operator("||"), Some(Operator::Or));
    assert_eq!(parse_operator("not_an_op"), None);
}

#[test]
fn test_extract_tokens_basic() {
    let tokens = significant("fn myFunc 42 + 3.14 while");

    assert_eq!(
        tokens,
        vec![
            Token::Keyword(Keyword::Fn),
            Token::Identifier("myFunc".to_string()),
            Token::Integer(42),
            Token::Operator(Operator::Plus),
            Token::Decimal("3.14".to_string()),
            Token::Keyword(Keyword::While),
        ]
    );
    assert_eq!(decimal_value(&tokens[4]), 3.14);
}

#[test]
#[should_panic(expected = "Missing separator between tokens")]
fn test_missing_separator_panic() {
    let _ = report("42+3");
}

#[test]
#[should_panic(expected = "Unrecognized token starting at position")]
fn test_unsupported_token_panic() {
    let _ = report("print $x + 3");
}

#[test]
fn test_token_with_multiple_whitespace() {
    let tokens = significant("if    x   !=  10");

    assert_eq!(
        tokens,
        vec![
            Token::Keyword(Keyword::If),
            Token::Identifier("x".to_string()),
            Token::Operator(Operator::NotEqual),
            Token::Integer(10),
        ]
    );
}

#[test]
fn test_unrecognized_identifier_is_treated_as_identifier() {
    let tokens = significant("foobar");

    assert_eq!(tokens, vec![Token::Identifier("foobar".to_string())]);
}

#[test]
fn test_integer_and_decimal_literals() {
    let tokens = significant("100 -42 3.1415");

    assert_eq!(
        tokens,
        vec![
            Token::Integer(100),
            Token::Integer(-42),
            Token::Decimal("3.1415".to_string()),
        ]
    );
    assert_eq!(decimal_value(&tokens[2]), 3.1415);
}
