use json_parser::lexer::Token;
use json_parser::parser::{Parser, Type};

fn parse_tokens(tokens: Vec<Token>) -> Result<Type, String> {
    let mut parser = Parser::new(tokens);
    parser.parse_val()
}

#[test]
fn test_parse_number() {
    let tokens = vec![Token::Number(42)];
    let result = parse_tokens(tokens).unwrap();
    assert_eq!(result, Type::Number(42));
}

#[test]
fn test_parse_string() {
    let tokens = vec![Token::String("hello".into())];
    let result = parse_tokens(tokens).unwrap();
    assert_eq!(result, Type::String("hello".into()));
}

#[test]
fn test_parse_boolean() {
    let tokens = vec![Token::Boolean(true)];
    let result = parse_tokens(tokens).unwrap();
    assert_eq!(result, Type::Boolean(true));
}

#[test]
fn test_parse_null() {
    let tokens = vec![Token::Null];
    let result = parse_tokens(tokens).unwrap();
    assert_eq!(result, Type::Null);
}

#[test]
fn test_parse_empty_object() {
    let tokens = vec![Token::LBraces, Token::RBraces];
    let result = parse_tokens(tokens).unwrap();
    assert_eq!(result, Type::Object(vec![]));
}

#[test]
fn test_parse_object_with_values() {
    let tokens = vec![
        Token::LBraces,
        Token::String("a".into()),
        Token::Colon,
        Token::Number(1),
        Token::Comma,
        Token::String("b".into()),
        Token::Colon,
        Token::Boolean(false),
        Token::RBraces,
    ];
    let result = parse_tokens(tokens).unwrap();
    assert_eq!(
        result,
        Type::Object(vec![
            ("a".into(), Type::Number(1)),
            ("b".into(), Type::Boolean(false))
        ])
    );
}

#[test]
fn test_parse_empty_array() {
    let tokens = vec![Token::LBracket, Token::RBracket];
    let result = parse_tokens(tokens).unwrap();
    assert_eq!(result, Type::Array(vec![]));
}

#[test]
fn test_parse_array_with_values() {
    let tokens = vec![
        Token::LBracket,
        Token::Number(1),
        Token::Comma,
        Token::String("x".into()),
        Token::Comma,
        Token::Boolean(true),
        Token::RBracket,
    ];
    let result = parse_tokens(tokens).unwrap();
    assert_eq!(
        result,
        Type::Array(vec![
            Type::Number(1),
            Type::String("x".into()),
            Type::Boolean(true)
        ])
    );
}

#[test]
fn test_parse_nested_structures() {
    let tokens = vec![
        Token::LBraces,
        Token::String("arr".into()),
        Token::Colon,
        Token::LBracket,
        Token::Number(1),
        Token::Comma,
        Token::Number(2),
        Token::Comma,
        Token::LBraces,
        Token::String("x".into()),
        Token::Colon,
        Token::Null,
        Token::RBraces,
        Token::RBracket,
        Token::RBraces,
    ];

    let result = parse_tokens(tokens).unwrap();
    assert_eq!(
        result,
        Type::Object(vec![(
            "arr".into(),
            Type::Array(vec![
                Type::Number(1),
                Type::Number(2),
                Type::Object(vec![("x".into(), Type::Null)])
            ])
        )])
    );
}

#[test]
fn test_parse_object_missing_colon_error() {
    let tokens = vec![Token::LBraces, Token::String("a".into()), Token::Number(1)];
    let result = parse_tokens(tokens);
    assert!(result.is_err());
}

#[test]
fn test_parse_array_missing_comma_error() {
    let tokens = vec![Token::LBracket, Token::Number(1), Token::Number(2), Token::RBracket];
    let result = parse_tokens(tokens);
    assert!(result.is_err());
}
