use json_parser::lexer::{Lexer, Token};
use json_parser::parser::{Parser, Type};

fn read(input: &str) -> Result<Type, String> {
    let tokens = Lexer::new(input).tokenize();
    Parser::new(tokens).parse()
}

fn text(s: &str) -> String {
    s.to_string()
}

fn failure(input: &str) -> String {
    read(input).unwrap_err()
}

#[test]
fn empty_object_and_empty_array() {
    assert_eq!(read("{}"), Ok(Type::Object(vec![])));
    assert_eq!(read("[]"), Ok(Type::Array(vec![])));
    assert_eq!(read(" { } "), Ok(Type::Object(vec![])));
    assert_eq!(read("[\n]"), Ok(Type::Array(vec![])));
}

#[test]
fn scalars() {
    assert_eq!(read("0"), Ok(Type::Number(0)));
    assert_eq!(read("2147483647"), Ok(Type::Number(i32::MAX)));
    assert_eq!(read("\"\""), Ok(Type::String(String::new())));
    assert_eq!(read("\"a, b\""), Ok(Type::String(text("a, b"))));
    assert_eq!(read("true"), Ok(Type::Boolean(true)));
    assert_eq!(read("false"), Ok(Type::Boolean(false)));
    assert_eq!(read("null"), Ok(Type::Null));
}

#[test]
fn object_with_number_boolean_and_array() {
    let got = read("{ \"key\": 123, \"active\": true, \"items\": [1, 2, null] }");
    assert_eq!(
        got,
        Ok(Type::Object(vec![
            (text("key"), Type::Number(123)),
            (text("active"), Type::Boolean(true)),
            (
                text("items"),
                Type::Array(vec![Type::Number(1), Type::Number(2), Type::Null])
            ),
        ]))
    );
}

#[test]
fn array_with_object_and_null() {
    let got = read("[{\"id\":1,\"ok\":false},null]");
    assert_eq!(
        got,
        Ok(Type::Array(vec![
            Type::Object(vec![
                (text("id"), Type::Number(1)),
                (text("ok"), Type::Boolean(false)),
            ]),
            Type::Null,
        ]))
    );
}

#[test]
fn repeated_keys_are_all_kept_in_order() {
    assert_eq!(
        read("{\"a\":1,\"b\":2,\"a\":3,\"a\":1}"),
        Ok(Type::Object(vec![
            (text("a"), Type::Number(1)),
            (text("b"), Type::Number(2)),
            (text("a"), Type::Number(3)),
            (text("a"), Type::Number(1)),
        ]))
    );
}

#[test]
fn deep_nesting() {
    assert_eq!(
        read("[[[[]]],{\"a\":{\"b\":{\"c\":[{}]}}}]"),
        Ok(Type::Array(vec![
            Type::Array(vec![Type::Array(vec![Type::Array(vec![])])]),
            Type::Object(vec![(
                text("a"),
                Type::Object(vec![(
                    text("b"),
                    Type::Object(vec![(text("c"), Type::Array(vec![Type::Object(vec![])]))])
                )])
            )]),
        ]))
    );
}

#[test]
fn trailing_comma_fails() {
    assert_eq!(failure("{\"a\":1,}"), "Expected string key in object");
    assert_eq!(failure("[1,]"), "Unexpected token: RBracket");
    assert!(read("{\"a\":1,}").is_err());
    assert!(read("[1,]").is_err());
    assert!(read("[,]").is_err());
    assert!(read("{,}").is_err());
}

#[test]
fn two_values_in_a_row_fail() {
    assert_eq!(failure("1 2"), "Extra tokens after valid JSON value");
    assert_eq!(failure("{} {}"), "Extra tokens after valid JSON value");
    assert_eq!(failure("[] ]"), "Extra tokens after valid JSON value");
    assert_eq!(failure("null,"), "Extra tokens after valid JSON value");
    assert_eq!(failure("\"a\" @"), "Extra tokens after valid JSON value");
}

#[test]
fn missing_colon_fails_with_its_own_message() {
    assert_eq!(failure("{\"a\" 1}"), "Expected ':' after key");
    assert_eq!(failure("{\"a\"}"), "Expected ':' after key");
    assert_eq!(failure("{\"a\""), "Expected ':' after key");
    assert_eq!(failure("{\"a\",\"b\":1}"), "Expected ':' after key");
}

#[test]
fn missing_key_fails() {
    assert_eq!(failure("{"), "Expected string key in object");
    assert_eq!(failure("{1:2}"), "Expected string key in object");
    assert_eq!(failure("{:1}"), "Expected string key in object");
    assert_eq!(failure("{null:1}"), "Expected string key in object");
    assert_eq!(failure("{\"a\":1,2}"), "Expected string key in object");
}

#[test]
fn pair_must_end_with_comma_or_brace() {
    assert_eq!(failure("{\"a\":1 \"b\":2}"), "Expected ',' or '}' after pair");
    assert_eq!(failure("{\"a\":1"), "Expected ',' or '}' after pair");
    assert_eq!(failure("{\"a\":1]"), "Expected ',' or '}' after pair");
    assert_eq!(failure("{\"a\":1:"), "Expected ',' or '}' after pair");
}

#[test]
fn item_must_end_with_comma_or_bracket() {
    assert_eq!(failure("[1 2]"), "Expected ',' or ']' after an array value");
    assert_eq!(failure("[1"), "Expected ',' or ']' after an array value");
    assert_eq!(failure("[1}"), "Expected ',' or ']' after an array value");
    assert_eq!(failure("[[]"), "Expected ',' or ']' after an array value");
}

#[test]
fn end_of_input_where_a_value_should_start() {
    assert_eq!(failure(""), "Unexpected end of input");
    assert_eq!(failure("   "), "Unexpected end of input");
    assert_eq!(failure("["), "Unexpected end of input");
    assert_eq!(failure("[1,"), "Unexpected end of input");
    assert_eq!(failure("{\"a\":"), "Unexpected end of input");
}

#[test]
fn token_that_starts_no_value() {
    assert_eq!(failure("+"), "Unexpected token: Plus");
    assert_eq!(failure("-1"), "Unexpected token: Minus");
    assert_eq!(failure("*"), "Unexpected token: Multiply");
    assert_eq!(failure("/"), "Unexpected token: Divide");
    assert_eq!(failure("}"), "Unexpected token: RBraces");
    assert_eq!(failure("]"), "Unexpected token: RBracket");
    assert_eq!(failure("("), "Unexpected token: LParenthesis");
    assert_eq!(failure(")"), "Unexpected token: RParenthesis");
    assert_eq!(failure(":"), "Unexpected token: Colon");
    assert_eq!(failure(","), "Unexpected token: Comma");
    assert_eq!(failure("[1,+]"), "Unexpected token: Plus");
    assert_eq!(failure("{\"a\":)}"), "Unexpected token: RParenthesis");
}

#[test]
fn unknown_token_is_shown_with_its_character() {
    assert_eq!(failure("@"), "Unexpected token: Unknown('@')");
    assert_eq!(failure("truth"), "Unexpected token: Unknown('t')");
    assert_eq!(failure("\"abc"), "Unexpected token: Unknown('\"')");
    assert_eq!(failure("'"), "Unexpected token: Unknown('\\'')");
    assert_eq!(failure("\\"), "Unexpected token: Unknown('\\\\')");
    assert_eq!(failure("\u{00e9}"), "Unexpected token: Unknown('\u{00e9}')");
    let mut parser = Parser::new(vec![Token::Unknown('\n')]);
    assert_eq!(
        parser.parse(),
        Err(text("Unexpected token: Unknown('\\n')"))
    );
    let mut parser = Parser::new(vec![Token::Unknown('\u{0000}')]);
    assert_eq!(
        parser.parse_val(),
        Err(text("Unexpected token: Unknown('\\0')"))
    );
}

#[test]
fn unclosed_string_fails_to_parse() {
    assert_eq!(
        failure("{\"a\": \"b"),
        "Unexpected token: Unknown('\"')"
    );
}

#[test]
fn parse_val_leaves_the_rest_unread() {
    let mut parser = Parser::new(vec![
        Token::Number(1),
        Token::Null,
        Token::LBracket,
        Token::RBracket,
    ]);
    assert_eq!(parser.parse_val(), Ok(Type::Number(1)));
    assert_eq!(parser.parse_val(), Ok(Type::Null));
    assert_eq!(parser.parse_val(), Ok(Type::Array(vec![])));
    assert_eq!(parser.parse_val(), Err(text("Unexpected end of input")));
    assert_eq!(parser.parse_val(), Err(text("Unexpected end of input")));
}

#[test]
fn a_failure_reads_the_token_it_fails_on() {
    let mut parser = Parser::new(vec![Token::Plus, Token::Number(1)]);
    assert_eq!(parser.parse_val(), Err(text("Unexpected token: Plus")));
    assert_eq!(parser.parse_val(), Ok(Type::Number(1)));

    let mut parser = Parser::new(vec![
        Token::LBraces,
        Token::Number(1),
        Token::Number(2),
    ]);
    assert_eq!(parser.parse_val(), Err(text("Expected string key in object")));
    assert_eq!(parser.parse_val(), Ok(Type::Number(2)));

    let mut parser = Parser::new(vec![
        Token::LBraces,
        Token::String(text("a")),
        Token::Number(1),
        Token::Number(2),
    ]);
    assert_eq!(parser.parse_val(), Err(text("Expected ':' after key")));
    assert_eq!(parser.parse_val(), Ok(Type::Number(2)));
}

#[test]
fn a_failure_after_a_value_leaves_the_next_token_unread() {
    let mut parser = Parser::new(vec![
        Token::LBracket,
        Token::Number(1),
        Token::Number(2),
    ]);
    assert_eq!(
        parser.parse_val(),
        Err(text("Expected ',' or ']' after an array value"))
    );
    assert_eq!(parser.parse_val(), Ok(Type::Number(2)));

    let mut parser = Parser::new(vec![
        Token::LBraces,
        Token::String(text("a")),
        Token::Colon,
        Token::Number(1),
        Token::Boolean(true),
    ]);
    assert_eq!(
        parser.parse_val(),
        Err(text("Expected ',' or '}' after pair"))
    );
    assert_eq!(parser.parse_val(), Ok(Type::Boolean(true)));

    let mut parser = Parser::new(vec![Token::Number(1), Token::Number(2)]);
    assert_eq!(
        parser.parse(),
        Err(text("Extra tokens after valid JSON value"))
    );
    assert_eq!(parser.parse(), Ok(Type::Number(2)));
}

#[test]
fn parse_object_starts_after_the_brace() {
    let mut parser = Parser::new(vec![Token::RBraces, Token::Number(5)]);
    assert_eq!(parser.parse_object(), Ok(Type::Object(vec![])));
    assert_eq!(parser.parse_val(), Ok(Type::Number(5)));

    let mut parser = Parser::new(vec![
        Token::String(text("k")),
        Token::Colon,
        Token::LBracket,
        Token::RBracket,
        Token::RBraces,
    ]);
    assert_eq!(
        parser.parse_object(),
        Ok(Type::Object(vec![(text("k"), Type::Array(vec![]))]))
    );

    let mut parser = Parser::new(vec![]);
    assert_eq!(
        parser.parse_object(),
        Err(text("Expected string key in object"))
    );
}

#[test]
fn parse_array_starts_after_the_bracket() {
    let mut parser = Parser::new(vec![Token::RBracket, Token::Number(5)]);
    assert_eq!(parser.parse_array(), Ok(Type::Array(vec![])));
    assert_eq!(parser.parse_val(), Ok(Type::Number(5)));

    let mut parser = Parser::new(vec![
        Token::Number(1),
        Token::Comma,
        Token::Number(2),
        Token::RBracket,
    ]);
    assert_eq!(
        parser.parse_array(),
        Ok(Type::Array(vec![Type::Number(1), Type::Number(2)]))
    );

    let mut parser = Parser::new(vec![]);
    assert_eq!(parser.parse_array(), Err(text("Unexpected end of input")));
}

#[test]
fn a_negative_number_token_is_taken_as_it_is() {
    let mut parser = Parser::new(vec![Token::Number(-5)]);
    assert_eq!(parser.parse(), Ok(Type::Number(-5)));
}

#[test]
fn reading_a_written_value_gives_it_back() {
    let tree = Type::Object(vec![
        (text("n"), Type::Number(0)),
        (text("big"), Type::Number(i32::MAX)),
        (text(""), Type::String(text("a\\b c,:{}[] true"))),
        (
            text("list"),
            Type::Array(vec![
                Type::Null,
                Type::Boolean(true),
                Type::Boolean(false),
                Type::Array(vec![]),
                Type::Object(vec![]),
                Type::Array(vec![Type::Number(7)]),
            ]),
        ),
        (text("n"), Type::Object(vec![(text("x"), Type::Null)])),
    ]);
    let written = "{\"n\":0,\"big\":2147483647,\"\":\"a\\b c,:{}[] true\",\"list\":[null,true,false,[],{},[7]],\"n\":{\"x\":null}}";
    assert_eq!(read(written), Ok(tree));
}

#[test]
fn reading_twice_gives_the_same() {
    let input = "{\"a\":[1,2,{\"b\":null}],\"c\":\"d\"}";
    assert_eq!(read(input), read(input));
    let broken = "{\"a\":[1,2,{\"b\" null}]}";
    assert_eq!(read(broken), read(broken));
}

#[test]
fn message_for_an_unknown_token_wraps_the_printed_character() {
    assert_eq!(
        json_parser::failure::unknown_token_message("'x'"),
        "Unexpected token: Unknown('x')"
    );
    assert_eq!(
        json_parser::failure::unknown_token_message(""),
        "Unexpected token: Unknown()"
    );
}

#[test]
fn messages_are_the_fixed_texts() {
    assert_eq!(json_parser::failure::EXPECTED_KEY, "Expected string key in object");
    assert_eq!(json_parser::failure::EXPECTED_COLON, "Expected ':' after key");
    assert_eq!(json_parser::failure::EXPECTED_PAIR_END, "Expected ',' or '}' after pair");
    assert_eq!(
        json_parser::failure::EXPECTED_ITEM_END,
        "Expected ',' or ']' after an array value"
    );
    assert_eq!(json_parser::failure::UNEXPECTED_END, "Unexpected end of input");
    assert_eq!(json_parser::failure::EXTRA_TOKENS, "Extra tokens after valid JSON value");
}
