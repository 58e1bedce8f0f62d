//! The ways in which parsing fails, and the message for each.
use vstd::prelude::*;
use vstd::string::StringExecFns;
use crate::lexer::{Lexeme, Token};

verus! {

/// Why a token stream is not a value.
pub enum Failure {
    /// An object pair does not start with a string.
    ExpectedKey,
    /// No colon follows an object key.
    ExpectedColon,
    /// Neither a comma nor a closing brace follows an object pair.
    ExpectedPairEnd,
    /// Neither a comma nor a closing bracket follows an array item.
    ExpectedItemEnd,
    /// A value starts with a token that starts none.
    UnexpectedToken(Lexeme),
    /// The stream ends where a value should start.
    UnexpectedEnd,
    /// Tokens follow the value.
    ExtraTokens,
}

pub const EXPECTED_KEY: &'static str = "Expected string key in object";

pub const EXPECTED_COLON: &'static str = "Expected ':' after key";

pub const EXPECTED_PAIR_END: &'static str = "Expected ',' or '}' after pair";

pub const EXPECTED_ITEM_END: &'static str = "Expected ',' or ']' after an array value";

pub const UNEXPECTED_END: &'static str = "Unexpected end of input";

pub const EXTRA_TOKENS: &'static str = "Extra tokens after valid JSON value";

/// How `{:?}` prints a character: between single quotes, with an escape
/// where the character needs one.
pub uninterp spec fn char_debug_text(c: char) -> Seq<char>;

/// Whether a value can start with `lexeme`.
pub open spec fn starts_value(lexeme: Lexeme) -> bool {
    match lexeme {
        Lexeme::Number(_) | Lexeme::String(_) | Lexeme::Boolean(_) | Lexeme::Null
        | Lexeme::LBraces | Lexeme::LBracket => true,
        _ => false,
    }
}

/// The message that reports a token where a value should start.
pub open spec fn unexpected_token_message(lexeme: Lexeme) -> Seq<char>
    recommends
        !starts_value(lexeme),
{
    match lexeme {
        Lexeme::Plus => "Unexpected token: Plus"@,
        Lexeme::Minus => "Unexpected token: Minus"@,
        Lexeme::Multiply => "Unexpected token: Multiply"@,
        Lexeme::Divide => "Unexpected token: Divide"@,
        Lexeme::RBraces => "Unexpected token: RBraces"@,
        Lexeme::RBracket => "Unexpected token: RBracket"@,
        Lexeme::LParenthesis => "Unexpected token: LParenthesis"@,
        Lexeme::RParenthesis => "Unexpected token: RParenthesis"@,
        Lexeme::Colon => "Unexpected token: Colon"@,
        Lexeme::Comma => "Unexpected token: Comma"@,
        Lexeme::Unknown(c) => "Unexpected token: Unknown("@ + char_debug_text(c) + ")"@,
        _ => Seq::empty(),
    }
}

/// The message that reports `failure`.
pub open spec fn message(failure: Failure) -> Seq<char> {
    match failure {
        Failure::ExpectedKey => EXPECTED_KEY@,
        Failure::ExpectedColon => EXPECTED_COLON@,
        Failure::ExpectedPairEnd => EXPECTED_PAIR_END@,
        Failure::ExpectedItemEnd => EXPECTED_ITEM_END@,
        Failure::UnexpectedToken(lexeme) => unexpected_token_message(lexeme),
        Failure::UnexpectedEnd => UNEXPECTED_END@,
        Failure::ExtraTokens => EXTRA_TOKENS@,
    }
}

/// `<char as Debug>::fmt`, reached through `format!`: the text depends on
/// the character alone, and `char_debug_text` is the name for it.
#[verifier::external_body]
fn char_debug(c: char) -> (text: String)
    ensures
        text@ == char_debug_text(c),
{
    format!("{:?}", c)
}

/// The message that reports an `Unknown` token where a value should start,
/// from the printed form of the token's character.
pub fn unknown_token_message(printed: &str) -> (text: String)
    ensures
        text@ == "Unexpected token: Unknown("@ + printed@ + ")"@,
{
    let mut text = "Unexpected token: Unknown(".to_owned();
    text.append(printed);
    text.append(")");
    text
}

/// The message that reports `token` where a value should start.
pub(crate) fn unexpected_token(token: &Token) -> (text: String)
    requires
        !starts_value(token@),
    ensures
        text@ == unexpected_token_message(token@),
{
    match token {
        Token::Plus => "Unexpected token: Plus".to_owned(),
        Token::Minus => "Unexpected token: Minus".to_owned(),
        Token::Multiply => "Unexpected token: Multiply".to_owned(),
        Token::Divide => "Unexpected token: Divide".to_owned(),
        Token::RBraces => "Unexpected token: RBraces".to_owned(),
        Token::RBracket => "Unexpected token: RBracket".to_owned(),
        Token::LParenthesis => "Unexpected token: LParenthesis".to_owned(),
        Token::RParenthesis => "Unexpected token: RParenthesis".to_owned(),
        Token::Colon => "Unexpected token: Colon".to_owned(),
        Token::Comma => "Unexpected token: Comma".to_owned(),
        Token::Unknown(c) => {
            let printed = char_debug(*c);
            unknown_token_message(printed.as_str())
        },
        _ => vstd::pervasive::unreached(),
    }
}

} // verus!
