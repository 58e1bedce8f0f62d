//! What the scanner makes of the text of a single token, alone or in front
//! of more text.
use vstd::prelude::*;
use crate::chars::{CharClass, all_in, decimal_text, decimal_value, is_digit, is_letter, is_white_space, lemma_decimal_text, lemma_leading_zeros, lemma_run_len, lemma_run_len_concat, lemma_run_len_is, run_len};
use crate::lexer::{Lexeme, keyword, lemma_scan_token_len, lemma_unclosed_string, punctuation, saturate, scan, scan_token, tokenize};

verus! {

/// The text whose only token is `lexeme` is scanned to that token.
proof fn lemma_scan_single(s: Seq<char>, lexeme: Lexeme)
    requires
        scan_token(s) == Some((lexeme, s.len())),
    ensures
        scan(s) == seq![lexeme],
{
    assert(s.skip(s.len() as int) == Seq::<char>::empty());
    assert(scan(Seq::<char>::empty()) == Seq::<Lexeme>::empty());
    assert(scan(s) == seq![lexeme] + scan(s.skip(s.len() as int)));
}

/// Where `s` starts with a token that takes `n` characters, the tokens of
/// `s` are that token and then the tokens of the rest.
pub proof fn lemma_scan_first(s: Seq<char>, lexeme: Lexeme, n: nat)
    requires
        scan_token(s) == Some((lexeme, n)),
    ensures
        scan(s) == seq![lexeme] + scan(s.skip(n as int)),
{
}

/// A punctuation character is a token of its own, whatever follows.
pub proof fn lemma_scan_punctuation(c: char, rest: Seq<char>)
    requires
        punctuation(c) is Some,
    ensures
        scan_token(seq![c] + rest) == Some((punctuation(c)->0, 1nat)),
{
    let s = seq![c] + rest;
    assert(s[0] == c);
    assert(!is_white_space(c));
    assert(run_len(s, CharClass::WhiteSpace) == 0);
    assert(s.skip(0) == s);
}

/// A run of digits is one number token, up to the first character that is
/// no digit.
pub proof fn lemma_scan_digits(digits: Seq<char>, rest: Seq<char>)
    requires
        digits.len() > 0,
        all_in(digits, CharClass::Digit),
        rest.len() > 0 ==> !is_digit(rest[0]),
    ensures
        scan_token(digits + rest) == Some(
            (Lexeme::Number(saturate(decimal_value(digits))), digits.len()),
        ),
{
    let s = digits + rest;
    assert(s[0] == digits[0]);
    assert(CharClass::Digit.has(digits[0]));
    assert(run_len(s, CharClass::WhiteSpace) == 0);
    assert(s.skip(0) == s);
    lemma_run_len_concat(digits, rest, CharClass::Digit);
    assert(s.take(digits.len() as int) == digits);
}

/// A quoted text without a quote inside is one string token, whatever
/// follows.
pub proof fn lemma_scan_string(body: Seq<char>, rest: Seq<char>)
    requires
        all_in(body, CharClass::Unquoted),
    ensures
        scan_token(seq!['"'] + body + seq!['"'] + rest) == Some(
            (Lexeme::String(body), body.len() + 2),
        ),
{
    let s = seq!['"'] + body + seq!['"'] + rest;
    assert(s[0] == '"');
    assert(run_len(s, CharClass::WhiteSpace) == 0);
    assert(s.skip(0) == s);
    let after = seq!['"'] + rest;
    assert(s.drop_first() == body + after);
    lemma_run_len_concat(body, after, CharClass::Unquoted);
    assert((body + after).take(body.len() as int) == body);
}

/// A quote that is never closed gives `Unknown('"')` and takes the whole
/// text.
pub proof fn lemma_scan_unclosed(body: Seq<char>)
    requires
        all_in(body, CharClass::Unquoted),
    ensures
        scan_token(seq!['"'] + body) == Some((Lexeme::Unknown('"'), body.len() + 1)),
{
    let s = seq!['"'] + body;
    assert(s[0] == '"');
    assert(run_len(s, CharClass::WhiteSpace) == 0);
    assert(s.skip(0) == s);
    assert(s.drop_first() == body);
    lemma_run_len_is(body, CharClass::Unquoted, body.len());
}

/// A run of letters that starts with `t`, `f` or `n` is one token, up to the
/// first character that is no letter.
pub proof fn lemma_scan_word(word: Seq<char>, rest: Seq<char>)
    requires
        word.len() > 0,
        all_in(word, CharClass::Letter),
        word[0] == 't' || word[0] == 'f' || word[0] == 'n',
        rest.len() > 0 ==> !is_letter(rest[0]),
    ensures
        scan_token(word + rest) == Some((keyword(word), word.len())),
{
    let s = word + rest;
    assert(s[0] == word[0]);
    assert(run_len(s, CharClass::WhiteSpace) == 0);
    assert(s.skip(0) == s);
    lemma_run_len_concat(word, rest, CharClass::Letter);
    assert(s.take(word.len() as int) == word);
}

/// A text of decimal digits is tokenized to one number token. It holds the
/// value of the digits, or `i32::MAX` where the value is larger.
pub proof fn lemma_tokenize_digits(digits: Seq<char>)
    requires
        digits.len() > 0,
        all_in(digits, CharClass::Digit),
    ensures
        tokenize(digits) == seq![Lexeme::Number(saturate(decimal_value(digits)))],
{
    lemma_scan_digits(digits, Seq::empty());
    assert(digits + Seq::<char>::empty() == digits);
    lemma_scan_single(digits, Lexeme::Number(saturate(decimal_value(digits))));
}

/// The decimal text of a number up to `i32::MAX`, with any number of zeros
/// in front, is tokenized to one number token with that number.
pub proof fn lemma_tokenize_number(n: nat, zeros: nat)
    requires
        n <= i32::MAX,
    ensures
        tokenize(Seq::new(zeros, |i: int| '0') + decimal_text(n)) == seq![
            Lexeme::Number(n as int),
        ],
{
    let text = Seq::new(zeros, |i: int| '0') + decimal_text(n);
    lemma_decimal_text(n);
    lemma_leading_zeros(zeros, decimal_text(n));
    assert(all_in(text, CharClass::Digit)) by {
        assert forall|i: int| 0 <= i < text.len() implies CharClass::Digit.has(
            #[trigger] text[i],
        ) by {
            if i >= zeros {
                assert(text[i] == decimal_text(n)[i - zeros]);
            }
        }
    }
    lemma_tokenize_digits(text);
}

/// A text between two quotes, with no quote inside, is tokenized to one
/// string token with that text; without the closing quote it is tokenized to
/// `Unknown('"')` alone.
pub proof fn lemma_tokenize_string(body: Seq<char>)
    requires
        all_in(body, CharClass::Unquoted),
    ensures
        tokenize(seq!['"'] + body + seq!['"']) == seq![Lexeme::String(body)],
        tokenize(seq!['"'] + body) == seq![Lexeme::Unknown('"')],
{
    let closed = seq!['"'] + body + seq!['"'];
    lemma_scan_string(body, Seq::empty());
    assert(closed + Seq::<char>::empty() == closed);
    lemma_scan_single(closed, Lexeme::String(body));
    lemma_scan_unclosed(body);
    lemma_scan_single(seq!['"'] + body, Lexeme::Unknown('"'));
}

/// `Unknown('"')` is never followed by another token.
pub proof fn lemma_unclosed_is_last(s: Seq<char>, i: int)
    requires
        0 <= i < scan(s).len(),
        scan(s)[i] == Lexeme::Unknown('"'),
    ensures
        i == scan(s).len() - 1,
    decreases s.len(),
{
    match scan_token(s) {
        None => {},
        Some((lexeme, n)) => {
            lemma_scan_token_len(s);
            let rest = s.skip(n as int);
            if i == 0 {
                lemma_unclosed_string(s);
                assert(rest == Seq::<char>::empty());
                assert(scan(Seq::<char>::empty()) == Seq::<Lexeme>::empty());
            } else {
                assert(scan(s)[i] == scan(rest)[i - 1]);
                lemma_unclosed_is_last(rest, i - 1);
            }
        },
    }
}

/// A text that ends inside a string is tokenized to `Unknown('"')` alone,
/// whatever stands before the string.
pub proof fn lemma_tokenize_unclosed(s: Seq<char>)
    requires
        scan(s).contains(Lexeme::Unknown('"')),
    ensures
        tokenize(s) == seq![Lexeme::Unknown('"')],
{
    let i = choose|i: int| 0 <= i < scan(s).len() && scan(s)[i] == Lexeme::Unknown('"');
    lemma_unclosed_is_last(s, i);
}

/// A word of letters that starts with `t`, `f` or `n` is tokenized to one
/// token: that of the reserved word it is, and else `Unknown` with its first
/// letter.
pub proof fn lemma_tokenize_word(word: Seq<char>)
    requires
        word.len() > 0,
        all_in(word, CharClass::Letter),
        word[0] == 't' || word[0] == 'f' || word[0] == 'n',
    ensures
        tokenize(word) == seq![keyword(word)],
        word == seq!['t', 'r', 'u', 'e'] ==> keyword(word) == Lexeme::Boolean(true),
        word == seq!['f', 'a', 'l', 's', 'e'] ==> keyword(word) == Lexeme::Boolean(false),
        word == seq!['n', 'u', 'l', 'l'] ==> keyword(word) == Lexeme::Null,
        word != seq!['t', 'r', 'u', 'e'] && word != seq!['f', 'a', 'l', 's', 'e'] && word != seq![
            'n',
            'u',
            'l',
            'l',
        ] ==> keyword(word) == Lexeme::Unknown(word[0]),
{
    lemma_scan_word(word, Seq::empty());
    assert(word + Seq::<char>::empty() == word);
    lemma_scan_single(word, keyword(word));
    let t = seq!['t', 'r', 'u', 'e'];
    let f = seq!['f', 'a', 'l', 's', 'e'];
    if word == f {
        assert(word[0] == f[0]);
        assert(t[0] == 't');
    }
    if word == seq!['n', 'u', 'l', 'l'] {
        assert(word[0] == seq!['n', 'u', 'l', 'l'][0]);
        assert(t[0] == 't');
        assert(f[0] == 'f');
    }
}

/// What holds of every token that the scanner gives: a number is between 0
/// and `i32::MAX`, and a string holds no double quote.
pub open spec fn scanned(lexeme: Lexeme) -> bool {
    match lexeme {
        Lexeme::Number(n) => 0 <= n <= i32::MAX,
        Lexeme::String(s) => all_in(s, CharClass::Unquoted),
        _ => true,
    }
}

/// Every token of a text is one that the scanner can give.
pub proof fn lemma_scan_scanned(s: Seq<char>, i: int)
    requires
        0 <= i < scan(s).len(),
    ensures
        scanned(scan(s)[i]),
    decreases s.len(),
{
    match scan_token(s) {
        None => {},
        Some((lexeme, n)) => {
            lemma_scan_token_len(s);
            let rest = s.skip(n as int);
            if i == 0 {
                let w = run_len(s, CharClass::WhiteSpace);
                let t = s.skip(w as int);
                if t[0] == '"' {
                    lemma_run_len(t.drop_first(), CharClass::Unquoted);
                }
            } else {
                assert(scan(s)[i] == scan(rest)[i - 1]);
                lemma_scan_scanned(rest, i - 1);
            }
        },
    }
}

/// Every token that tokenizing gives has a number between 0 and `i32::MAX`
/// where it is a number, and no double quote inside where it is a string.
pub proof fn lemma_tokenize_scanned(s: Seq<char>, i: int)
    requires
        0 <= i < tokenize(s).len(),
    ensures
        scanned(tokenize(s)[i]),
{
    if tokenize(s) == scan(s) {
        lemma_scan_scanned(s, i);
    }
}

} // verus!
