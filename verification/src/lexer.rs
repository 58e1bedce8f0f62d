//! The scanner: from a text to its tokens.
//!
//! `scan_token` says which token starts a text and how many characters it
//! takes, `scan` repeats it to the end of the text, and `tokenize` is the
//! result that `Lexer::tokenize` returns.
use vstd::prelude::*;
use crate::chars::{CharClass, decimal_value, digit_value, is_digit, is_letter, is_white_space, lemma_run_len, lemma_run_len_is, run_len};

verus! {

/// One lexical unit, as the scanner hands it to the parser.
#[derive(Debug, PartialEq)]
pub enum Token {
    Number(i32),
    Plus,
    Minus,
    Multiply,
    Divide,
    LBraces,
    RBraces,
    LBracket,
    RBracket,
    LParenthesis,
    RParenthesis,
    Colon,
    Comma,
    String(String),
    Boolean(bool),
    Null,
    Unknown(char),
}

/// The mathematical value of a `Token`.
pub enum Lexeme {
    Number(int),
    Plus,
    Minus,
    Multiply,
    Divide,
    LBraces,
    RBraces,
    LBracket,
    RBracket,
    LParenthesis,
    RParenthesis,
    Colon,
    Comma,
    String(Seq<char>),
    Boolean(bool),
    Null,
    Unknown(char),
}

impl View for Token {
    type V = Lexeme;

    open spec fn view(&self) -> Lexeme {
        match self {
            Token::Number(n) => Lexeme::Number(*n as int),
            Token::Plus => Lexeme::Plus,
            Token::Minus => Lexeme::Minus,
            Token::Multiply => Lexeme::Multiply,
            Token::Divide => Lexeme::Divide,
            Token::LBraces => Lexeme::LBraces,
            Token::RBraces => Lexeme::RBraces,
            Token::LBracket => Lexeme::LBracket,
            Token::RBracket => Lexeme::RBracket,
            Token::LParenthesis => Lexeme::LParenthesis,
            Token::RParenthesis => Lexeme::RParenthesis,
            Token::Colon => Lexeme::Colon,
            Token::Comma => Lexeme::Comma,
            Token::String(s) => Lexeme::String(s@),
            Token::Boolean(b) => Lexeme::Boolean(*b),
            Token::Null => Lexeme::Null,
            Token::Unknown(c) => Lexeme::Unknown(*c),
        }
    }
}

impl DeepView for Token {
    type V = Lexeme;

    open spec fn deep_view(&self) -> Lexeme {
        self@
    }
}

/// The token that a punctuation character stands for, if it is one.
pub open spec fn punctuation(c: char) -> Option<Lexeme> {
    if c == '+' {
        Some(Lexeme::Plus)
    } else if c == '-' {
        Some(Lexeme::Minus)
    } else if c == '*' {
        Some(Lexeme::Multiply)
    } else if c == '/' {
        Some(Lexeme::Divide)
    } else if c == '{' {
        Some(Lexeme::LBraces)
    } else if c == '}' {
        Some(Lexeme::RBraces)
    } else if c == '[' {
        Some(Lexeme::LBracket)
    } else if c == ']' {
        Some(Lexeme::RBracket)
    } else if c == '(' {
        Some(Lexeme::LParenthesis)
    } else if c == ')' {
        Some(Lexeme::RParenthesis)
    } else if c == ':' {
        Some(Lexeme::Colon)
    } else if c == ',' {
        Some(Lexeme::Comma)
    } else {
        None
    }
}

/// A number token holds the value of its digits, or `i32::MAX` where the
/// value is larger.
pub open spec fn saturate(n: nat) -> int {
    if n > i32::MAX {
        i32::MAX as int
    } else {
        n as int
    }
}

/// The token for a run of letters: one of the three reserved words, or
/// `Unknown` with the first letter.
pub open spec fn keyword(word: Seq<char>) -> Lexeme
    recommends
        word.len() > 0,
{
    if word == seq!['t', 'r', 'u', 'e'] {
        Lexeme::Boolean(true)
    } else if word == seq!['f', 'a', 'l', 's', 'e'] {
        Lexeme::Boolean(false)
    } else if word == seq!['n', 'u', 'l', 'l'] {
        Lexeme::Null
    } else {
        Lexeme::Unknown(word[0])
    }
}

/// The first token of `s` and the number of characters read to produce it,
/// white space before it included; `None` where `s` holds only white space.
///
/// A string that is never closed reads to the end of the text and gives
/// `Unknown('"')`.
pub open spec fn scan_token(s: Seq<char>) -> Option<(Lexeme, nat)> {
    let w = run_len(s, CharClass::WhiteSpace);
    if w >= s.len() {
        None
    } else {
        let t = s.skip(w as int);
        let c = t[0];
        if punctuation(c) is Some {
            Some((punctuation(c)->0, w + 1))
        } else if is_digit(c) {
            let n = run_len(t, CharClass::Digit);
            Some((Lexeme::Number(saturate(decimal_value(t.take(n as int)))), w + n))
        } else if c == '"' {
            let body = t.drop_first();
            let n = run_len(body, CharClass::Unquoted);
            if n < body.len() {
                Some((Lexeme::String(body.take(n as int)), w + n + 2))
            } else {
                Some((Lexeme::Unknown('"'), s.len()))
            }
        } else if c == 't' || c == 'f' || c == 'n' {
            let n = run_len(t, CharClass::Letter);
            Some((keyword(t.take(n as int)), w + n))
        } else {
            Some((Lexeme::Unknown(c), w + 1))
        }
    }
}

/// A token takes at least one character and no more than the text has.
pub proof fn lemma_scan_token_len(s: Seq<char>)
    ensures
        scan_token(s) matches Some((_, n)) ==> 1 <= n <= s.len(),
{
    let w = run_len(s, CharClass::WhiteSpace);
    lemma_run_len(s, CharClass::WhiteSpace);
    if w < s.len() {
        let t = s.skip(w as int);
        lemma_run_len(t, CharClass::Digit);
        lemma_run_len(t, CharClass::Letter);
        lemma_run_len(t.drop_first(), CharClass::Unquoted);
    }
}

/// Only a string that is never closed gives `Unknown('"')`, and it takes the
/// rest of the text.
pub proof fn lemma_unclosed_string(s: Seq<char>)
    ensures
        scan_token(s) matches Some((lexeme, n)) ==> (lexeme == Lexeme::Unknown('"') ==> n
            == s.len()),
{
    let w = run_len(s, CharClass::WhiteSpace);
    if w < s.len() {
        let t = s.skip(w as int);
        let c = t[0];
        if c == 't' || c == 'f' || c == 'n' {
            let n = run_len(t, CharClass::Letter);
            lemma_run_len(t, CharClass::Letter);
            assert(t.take(n as int)[0] == c);
        }
    }
}

/// All the tokens of `s`, in the order of the text.
pub open spec fn scan(s: Seq<char>) -> Seq<Lexeme>
    decreases s.len(),
{
    match scan_token(s) {
        None => Seq::empty(),
        Some((lexeme, n)) => {
            proof {
                lemma_scan_token_len(s);
            }
            seq![lexeme] + scan(s.skip(n as int))
        },
    }
}

/// What tokenizing `s` gives: the tokens of `s`, unless `s` ends inside a
/// string, and then the one token `Unknown('"')`.
pub open spec fn tokenize(s: Seq<char>) -> Seq<Lexeme> {
    let all = scan(s);
    if all.len() > 0 && all.last() == Lexeme::Unknown('"') {
        seq![Lexeme::Unknown('"')]
    } else {
        all
    }
}

/// `String::push` appends one character to the end of a string.
pub assume_specification[ std::string::String::push ](s: &mut std::string::String, c: char)
    ensures
        final(s)@ == old(s)@.push(c),
;

/// A cursor over a text. Its view is the part of the text not yet read.
pub struct Lexer {
    chars: Vec<char>,
    pos: usize,
}

impl View for Lexer {
    type V = Seq<char>;

    closed spec fn view(&self) -> Seq<char> {
        self.chars@.skip(self.pos as int)
    }
}

impl Lexer {
    #[verifier::type_invariant]
    spec fn in_bounds(self) -> bool {
        self.pos <= self.chars.len()
    }

    /// A scanner at the start of `input`.
    pub fn new(input: &str) -> (lexer: Lexer)
        ensures
            lexer@ == input@,
    {
        let mut chars: Vec<char> = Vec::new();
        for c in it: input.chars()
            invariant
                it.seq() == input@,
                chars@ == it.seq().take(it.index()),
        {
            chars.push(c);
        }
        Lexer { chars, pos: 0 }
    }

    /// Reads the text to its end and returns its tokens.
    pub fn tokenize(&mut self) -> (tokens: Vec<Token>)
        ensures
            tokens.deep_view() == tokenize(old(self)@),
            final(self)@ == Seq::<char>::empty(),
    {
        let mut tokens: Vec<Token> = Vec::new();
        let ghost text = self@;
        loop
            invariant_except_break
                scan(text) == tokens.deep_view() + scan(self@),
                forall|i: int| 0 <= i < tokens.len() ==> tokens[i]@ != Lexeme::Unknown('"'),
            ensures
                tokens.deep_view() == tokenize(text),
                self@ == Seq::<char>::empty(),
            decreases self@.len(),
        {
            let ghost before = self@;
            let ghost found = tokens.deep_view();
            proof {
                lemma_scan_token_len(before);
            }
            match self.next_token() {
                None => {
                    proof {
                        assert(scan(text) == found);
                    }
                    break ;
                },
                Some(token) => {
                    if is_unclosed_string(&token) {
                        proof {
                            lemma_unclosed_string(before);
                            assert(before.skip(before.len() as int) == Seq::<char>::empty());
                            assert(scan(Seq::<char>::empty()) == Seq::<Lexeme>::empty());
                            assert(scan(before) == seq![Lexeme::Unknown('"')]);
                            assert(scan(text).last() == Lexeme::Unknown('"'));
                        }
                        tokens = Vec::new();
                        tokens.push(token);
                        assert(tokens.deep_view() == seq![Lexeme::Unknown('"')]);
                        break ;
                    }
                    tokens.push(token);
                    proof {
                        assert(tokens.deep_view() == found.push(token@));
                        assert(scan(text) == tokens.deep_view() + scan(self@));
                    }
                },
            }
        }
        tokens
    }

    fn next_token(&mut self) -> (r: Option<Token>)
        ensures
            match scan_token(old(self)@) {
                None => r is None && final(self)@ == Seq::<char>::empty(),
                Some((lexeme, n)) => r matches Some(token) && token@ == lexeme && final(self)@ == old(
                    self,
                )@.skip(n as int),
            },
    {
        proof {
            use_type_invariant(&*self);
        }
        let ghost text = self@;
        let ghost start = self.pos;
        while self.pos < self.chars.len() && self.chars[self.pos].is_whitespace()
            invariant
                start <= self.pos <= self.chars.len(),
                self.chars == old(self).chars,
                forall|k: int| start <= k < self.pos ==> is_white_space(#[trigger] self.chars[k]),
            decreases self.chars.len() - self.pos,
        {
            self.pos += 1;
        }
        let ghost w = (self.pos - start) as int;
        proof {
            assert forall|k: int| 0 <= k < w implies CharClass::WhiteSpace.has(#[trigger] text[k]) by {
                assert(text[k] == self.chars[start + k]);
            }
            lemma_run_len_is(text, CharClass::WhiteSpace, w as nat);
            assert(self@ == text.skip(w));
        }
        if self.pos >= self.chars.len() {
            return None;
        }
        let c = self.chars[self.pos];
        self.pos += 1;
        proof {
            assert(text.skip(w)[0] == c);
            assert(self@ == text.skip(w + 1));
            assert(self@ == text.skip(w).drop_first());
        }
        if c == '+' {
            Some(Token::Plus)
        } else if c == '-' {
            Some(Token::Minus)
        } else if c == '*' {
            Some(Token::Multiply)
        } else if c == '/' {
            Some(Token::Divide)
        } else if c == '{' {
            Some(Token::LBraces)
        } else if c == '}' {
            Some(Token::RBraces)
        } else if c == '[' {
            Some(Token::LBracket)
        } else if c == ']' {
            Some(Token::RBracket)
        } else if c == '(' {
            Some(Token::LParenthesis)
        } else if c == ')' {
            Some(Token::RParenthesis)
        } else if c == ':' {
            Some(Token::Colon)
        } else if c == ',' {
            Some(Token::Comma)
        } else if '0' <= c && c <= '9' {
            let ghost t = text.skip(w);
            let ghost n = run_len(self@, CharClass::Digit) as int;
            proof {
                lemma_run_len(self@, CharClass::Digit);
                assert(t.take(n + 1) == seq![c] + self@.take(n));
                assert(self@.skip(n) == text.skip(w + n + 1));
            }
            Some(self.read_number(c))
        } else if c == '"' {
            let ghost n = run_len(self@, CharClass::Unquoted) as int;
            proof {
                lemma_run_len(self@, CharClass::Unquoted);
                if n < self@.len() {
                    assert(self@.skip(n + 1) == text.skip(w + n + 2));
                } else {
                    assert(self@.skip(n) == text.skip(text.len() as int));
                }
            }
            Some(self.read_string())
        } else if c == 't' || c == 'f' || c == 'n' {
            let ghost t = text.skip(w);
            let ghost n = run_len(self@, CharClass::Letter) as int;
            proof {
                lemma_run_len(self@, CharClass::Letter);
                assert(t.take(n + 1) == seq![c] + self@.take(n));
                assert(self@.skip(n) == text.skip(w + n + 1));
            }
            self.read_keyword(c)
        } else {
            Some(Token::Unknown(c))
        }
    }

    /// Reads the digits that follow `first` and returns the number token
    /// that the whole run stands for.
    fn read_number(&mut self, first: char) -> (token: Token)
        requires
            is_digit(first),
        ensures
            ({
                let n = run_len(old(self)@, CharClass::Digit) as int;
                &&& token@ == Lexeme::Number(
                    saturate(decimal_value(seq![first] + old(self)@.take(n))),
                )
                &&& final(self)@ == old(self)@.skip(n)
            }),
    {
        proof {
            use_type_invariant(&*self);
        }
        let ghost text = self@;
        let ghost start = self.pos;
        let mut number: i32 = (first as u32 - '0' as u32) as i32;
        proof {
            assert(text.take(0) == Seq::<char>::empty());
            assert((seq![first] + text.take(0)).drop_last() == Seq::<char>::empty());
            assert(decimal_value(seq![first] + text.take(0)) == digit_value(first)) by {
                reveal_with_fuel(decimal_value, 2);
            }
        }
        while self.pos < self.chars.len() && is_digit_char(self.chars[self.pos])
            invariant
                start <= self.pos <= self.chars.len(),
                self.chars == old(self).chars,
                text == self.chars@.skip(start as int),
                forall|k: int| 0 <= k < self.pos - start ==> is_digit(#[trigger] text[k]),
                number == saturate(decimal_value(seq![first] + text.take(self.pos - start))),
            decreases self.chars.len() - self.pos,
        {
            let ch = self.chars[self.pos];
            let ghost k = self.pos - start;
            let ghost sofar = seq![first] + text.take(k);
            proof {
                assert(text[k] == ch);
                assert(seq![first] + text.take(k + 1) == sofar.push(ch));
                assert(sofar.push(ch).drop_last() == sofar);
            }
            let wide: i64 = number as i64 * 10 + (ch as u32 - '0' as u32) as i64;
            number = if wide > i32::MAX as i64 {
                i32::MAX
            } else {
                wide as i32
            };
            self.pos += 1;
        }
        proof {
            lemma_run_len_is(text, CharClass::Digit, (self.pos - start) as nat);
            assert(self@ == text.skip(self.pos - start));
        }
        Token::Number(number)
    }

    /// Reads to the closing quote and returns the string before it, or
    /// `Unknown('"')` where the text ends first.
    fn read_string(&mut self) -> (token: Token)
        ensures
            ({
                let n = run_len(old(self)@, CharClass::Unquoted) as int;
                if n < old(self)@.len() {
                    &&& token@ == Lexeme::String(old(self)@.take(n))
                    &&& final(self)@ == old(self)@.skip(n + 1)
                } else {
                    &&& token@ == Lexeme::Unknown('"')
                    &&& final(self)@ == Seq::<char>::empty()
                }
            }),
    {
        proof {
            use_type_invariant(&*self);
        }
        let ghost text = self@;
        let ghost start = self.pos;
        let mut content = String::new();
        while self.pos < self.chars.len()
            invariant
                start <= self.pos <= self.chars.len(),
                self.chars == old(self).chars,
                text == self.chars@.skip(start as int),
                text == old(self)@,
                forall|k: int| 0 <= k < self.pos - start ==> #[trigger] text[k] != '"',
                content@ == text.take(self.pos - start),
            decreases self.chars.len() - self.pos,
        {
            let ch = self.chars[self.pos];
            let ghost k = self.pos - start;
            proof {
                assert(text[k] == ch);
            }
            self.pos += 1;
            if ch == '"' {
                proof {
                    lemma_run_len_is(text, CharClass::Unquoted, k as nat);
                    assert(self@ == text.skip(k + 1));
                }
                return Token::String(content);
            }
            content.push(ch);
            proof {
                assert(text.take(k + 1) == text.take(k).push(ch));
            }
        }
        proof {
            lemma_run_len_is(text, CharClass::Unquoted, text.len());
            assert(self@ == Seq::<char>::empty());
        }
        Token::Unknown('"')
    }

    /// Reads the letters that follow `first` and returns the token for the
    /// whole word.
    fn read_keyword(&mut self, first: char) -> (r: Option<Token>)
        requires
            is_letter(first),
        ensures
            ({
                let n = run_len(old(self)@, CharClass::Letter) as int;
                &&& r matches Some(token)
                &&& token@ == keyword(seq![first] + old(self)@.take(n))
                &&& final(self)@ == old(self)@.skip(n)
            }),
    {
        proof {
            use_type_invariant(&*self);
        }
        let ghost text = self@;
        let start = self.pos;
        while self.pos < self.chars.len() && is_letter_char(self.chars[self.pos])
            invariant
                start <= self.pos <= self.chars.len(),
                self.chars == old(self).chars,
                text == self.chars@.skip(start as int),
                forall|k: int| 0 <= k < self.pos - start ==> is_letter(#[trigger] text[k]),
            decreases self.chars.len() - self.pos,
        {
            proof {
                assert(text[self.pos - start] == self.chars[self.pos as int]);
            }
            self.pos += 1;
        }
        let n = self.pos - start;
        let ghost word = seq![first] + text.take(n as int);
        proof {
            lemma_run_len_is(text, CharClass::Letter, n as nat);
            assert(self@ == text.skip(n as int));
            assert(word.len() == n + 1);
            assert(forall|k: int| 1 <= k <= n ==> #[trigger] word[k] == self.chars[start + k - 1]);
        }
        let token = if first == 't' && n == 3 && self.chars[start] == 'r' && self.chars[start + 1]
            == 'u' && self.chars[start + 2] == 'e' {
            assert(word == seq!['t', 'r', 'u', 'e']);
            Token::Boolean(true)
        } else if first == 'f' && n == 4 && self.chars[start] == 'a' && self.chars[start + 1]
            == 'l' && self.chars[start + 2] == 's' && self.chars[start + 3] == 'e' {
            assert(word == seq!['f', 'a', 'l', 's', 'e']);
            Token::Boolean(false)
        } else if first == 'n' && n == 3 && self.chars[start] == 'u' && self.chars[start + 1]
            == 'l' && self.chars[start + 2] == 'l' {
            assert(word == seq!['n', 'u', 'l', 'l']);
            Token::Null
        } else {
            proof {
                let t = seq!['t', 'r', 'u', 'e'];
                let f = seq!['f', 'a', 'l', 's', 'e'];
                let z = seq!['n', 'u', 'l', 'l'];
                if word == t {
                    assert(word[1] == t[1] && word[2] == t[2] && word[3] == t[3]);
                }
                if word == f {
                    assert(word[1] == f[1] && word[2] == f[2] && word[3] == f[3] && word[4]
                        == f[4]);
                }
                if word == z {
                    assert(word[1] == z[1] && word[2] == z[2] && word[3] == z[3]);
                }
            }
            Token::Unknown(first)
        };
        Some(token)
    }
}

/// Whether `token` is the one that an unclosed string gives.
fn is_unclosed_string(token: &Token) -> (b: bool)
    ensures
        b == (token@ == Lexeme::Unknown('"')),
{
    match token {
        Token::Unknown(c) => *c == '"',
        _ => false,
    }
}

fn is_digit_char(c: char) -> (b: bool)
    ensures
        b == is_digit(c),
{
    '0' <= c && c <= '9'
}

fn is_letter_char(c: char) -> (b: bool)
    ensures
        b == is_letter(c),
{
    ('a' <= c && c <= 'z') || ('A' <= c && c <= 'Z')
}

} // verus!
