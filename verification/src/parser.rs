//! The parser: from tokens to a tree.
use vstd::prelude::*;
use crate::failure::{EXPECTED_COLON, EXPECTED_ITEM_END, EXPECTED_KEY, EXPECTED_PAIR_END, EXTRA_TOKENS, UNEXPECTED_END, Failure, message, unexpected_token};
use crate::grammar::{Parsed, Value, array, document, elements, lemma_array_reads, lemma_object_reads, lemma_value_reads, members, object, value};
use crate::lexer::{Lexeme, Token};

verus! {

/// A parsed tree.
#[derive(Debug, PartialEq)]
pub enum Type {
    Object(Vec<(String, Type)>),
    Array(Vec<Type>),
    String(String),
    Number(i32),
    Boolean(bool),
    Null,
}

impl View for Type {
    type V = Value;

    open spec fn view(&self) -> Value
        decreases self,
    {
        match self {
            Type::Object(pairs) => Value::Object(pairs_view(pairs@)),
            Type::Array(items) => Value::Array(items_view(items@)),
            Type::String(s) => Value::String(s@),
            Type::Number(n) => Value::Number(*n as int),
            Type::Boolean(b) => Value::Boolean(*b),
            Type::Null => Value::Null,
        }
    }
}

/// The values of the items of an array, in order.
pub open spec fn items_view(items: Seq<Type>) -> Seq<Value>
    decreases items,
{
    Seq::new(
        items.len(),
        |i: int|
            if 0 <= i < items.len() {
                items[i]@
            } else {
                Value::Null
            },
    )
}

/// The values of the pairs of an object, in order.
pub open spec fn pairs_view(pairs: Seq<(String, Type)>) -> Seq<(Seq<char>, Value)>
    decreases pairs,
{
    Seq::new(
        pairs.len(),
        |i: int|
            if 0 <= i < pairs.len() {
                (pairs[i].0@, pairs[i].1@)
            } else {
                (Seq::empty(), Value::Null)
            },
    )
}

/// `got` is what `expected` asks for: the same tree, or the message of the
/// same failure; and `after` is `before` without the tokens read.
pub open spec fn answers(
    got: Result<Type, String>,
    expected: Parsed,
    before: Seq<Lexeme>,
    after: Seq<Lexeme>,
) -> bool {
    &&& after == before.skip(expected.1 as int)
    &&& match expected.0 {
        Ok(v) => got matches Ok(tree) && tree@ == v,
        Err(failure) => got matches Err(text) && text@ == message(failure),
    }
}

/// A cursor over a token stream. Its view is the part of the stream not yet
/// read.
pub struct Parser {
    tokens: Vec<Token>,
    pos: usize,
}

impl View for Parser {
    type V = Seq<Lexeme>;

    closed spec fn view(&self) -> Seq<Lexeme> {
        self.tokens.deep_view().skip(self.pos as int)
    }
}

fn failed(text: &str) -> (r: Result<Type, String>)
    ensures
        r matches Err(m) && m@ == text@,
{
    Err(text.to_owned())
}

impl Parser {
    #[verifier::type_invariant]
    spec fn in_bounds(self) -> bool {
        self.pos <= self.tokens.len()
    }

    /// A parser at the start of `tokens`.
    pub fn new(tokens: Vec<Token>) -> (parser: Parser)
        ensures
            parser@ == tokens.deep_view(),
    {
        Parser { tokens, pos: 0 }
    }

    /// The next token, which stays unread.
    fn peek(&self) -> (r: Option<&Token>)
        ensures
            match r {
                None => self@.len() == 0,
                Some(token) => self@.len() > 0 && token@ == self@[0],
            },
    {
        proof {
            use_type_invariant(self);
        }
        if self.pos < self.tokens.len() {
            Some(&self.tokens[self.pos])
        } else {
            None
        }
    }

    /// Reads the next token.
    fn next(&mut self) -> (r: Option<Token>)
        ensures
            match r {
                None => old(self)@.len() == 0 && final(self)@ == old(self)@,
                Some(token) => old(self)@.len() > 0 && token@ == old(self)@[0] && final(self)@
                    == old(self)@.drop_first(),
            },
    {
        proof {
            use_type_invariant(&*self);
        }
        if self.pos < self.tokens.len() {
            let token = copy_of(&self.tokens[self.pos]);
            self.pos += 1;
            assert(self@ == old(self)@.drop_first());
            Some(token)
        } else {
            None
        }
    }

    /// Reads the whole stream as one value. Fails where the stream does not
    /// start with a value, and where tokens follow the value.
    pub fn parse(&mut self) -> (r: Result<Type, String>)
        ensures
            answers(r, document(old(self)@), old(self)@, final(self)@),
    {
        proof {
            lemma_value_reads(self@);
        }
        let tree = match self.parse_val() {
            Ok(tree) => tree,
            Err(text) => {
                return Err(text);
            },
        };
        if self.peek().is_some() {
            return failed(EXTRA_TOKENS);
        }
        Ok(tree)
    }

    /// Reads one value from the front of the stream.
    pub fn parse_val(&mut self) -> (r: Result<Type, String>)
        ensures
            answers(r, value(old(self)@), old(self)@, final(self)@),
        decreases old(self)@.len(), 0nat,
    {
        let ghost ts = self@;
        proof {
            if ts.len() > 0 {
                lemma_object_reads(ts.drop_first());
                lemma_array_reads(ts.drop_first());
            }
        }
        match self.next() {
            Some(Token::Number(n)) => {
                assert(self@ == ts.skip(1));
                Ok(Type::Number(n))
            },
            Some(Token::String(s)) => {
                assert(self@ == ts.skip(1));
                Ok(Type::String(s))
            },
            Some(Token::Boolean(b)) => {
                assert(self@ == ts.skip(1));
                Ok(Type::Boolean(b))
            },
            Some(Token::Null) => {
                assert(self@ == ts.skip(1));
                Ok(Type::Null)
            },
            Some(Token::LBraces) => {
                let r = self.parse_object();
                assert(self@ == ts.skip(object(ts.drop_first()).1 as int + 1));
                r
            },
            Some(Token::LBracket) => {
                let r = self.parse_array();
                assert(self@ == ts.skip(array(ts.drop_first()).1 as int + 1));
                r
            },
            Some(token) => {
                assert(self@ == ts.skip(1));
                Err(unexpected_token(&token))
            },
            None => {
                assert(self@ == ts.skip(0));
                failed(UNEXPECTED_END)
            },
        }
    }

    /// Reads an object whose opening brace has been read: a closing brace,
    /// or pairs of a string key, a colon and a value, with a comma between
    /// two pairs and a closing brace after the last.
    pub fn parse_object(&mut self) -> (r: Result<Type, String>)
        ensures
            answers(r, object(old(self)@), old(self)@, final(self)@),
        decreases old(self)@.len(), 2nat,
    {
        let ghost ts = self@;
        let mut kv_pairs: Vec<(String, Type)> = Vec::new();
        match self.peek() {
            Some(Token::RBraces) => {
                self.next();
                assert(self@ == ts.skip(1));
                assert(pairs_view(kv_pairs@) == Seq::<(Seq<char>, Value)>::empty());
                return Ok(Type::Object(kv_pairs));
            },
            _ => {},
        }
        assert(pairs_view(kv_pairs@) == Seq::<(Seq<char>, Value)>::empty());
        let ghost mut read: int = 0;
        loop
            invariant_except_break
                members(ts, Seq::empty()).0 == members(self@, pairs_view(kv_pairs@)).0,
                members(ts, Seq::empty()).1 == read + members(self@, pairs_view(kv_pairs@)).1,
            invariant
                ts == old(self)@,
                object(ts) == members(ts, Seq::empty()),
                0 <= read <= ts.len(),
                self@ == ts.skip(read),
            ensures
                members(ts, Seq::empty()) == (Ok::<Value, Failure>(Value::Object(pairs_view(kv_pairs@))), read as nat),
            decreases self@.len(),
        {
            let ghost now = self@;
            let ghost done = pairs_view(kv_pairs@);
            let key = match self.next() {
                Some(Token::String(s)) => s,
                Some(_) => {
                    assert(self@ == ts.skip(read + 1));
                    return failed(EXPECTED_KEY);
                },
                None => {
                    return failed(EXPECTED_KEY);
                },
            };
            match self.next() {
                Some(Token::Colon) => {},
                Some(_) => {
                    assert(self@ == ts.skip(read + 2));
                    return failed(EXPECTED_COLON);
                },
                None => {
                    assert(self@ == ts.skip(read + 1));
                    return failed(EXPECTED_COLON);
                },
            }
            assert(self@ == now.skip(2));
            let ghost n = value(now.skip(2)).1 as int;
            proof {
                lemma_value_reads(now.skip(2));
            }
            let tree = match self.parse_val() {
                Ok(tree) => tree,
                Err(text) => {
                    assert(self@ == ts.skip(read + 2 + n));
                    return Err(text);
                },
            };
            assert(self@ == now.skip(2 + n));
            let ghost pair = (key@, tree@);
            kv_pairs.push((key, tree));
            assert(pairs_view(kv_pairs@) == done.push(pair));
            match self.peek() {
                Some(Token::Comma) => {
                    self.next();
                    proof {
                        assert(now[2 + n] == Lexeme::Comma);
                        assert(self@ == now.skip(2 + n + 1));
                        assert(self@ == ts.skip(read + 2 + n + 1));
                        read = read + 2 + n + 1;
                    }
                },
                Some(Token::RBraces) => {
                    self.next();
                    proof {
                        assert(now[2 + n] == Lexeme::RBraces);
                        assert(self@ == ts.skip(read + 2 + n + 1));
                        read = read + 2 + n + 1;
                    }
                    break ;
                },
                _ => {
                    assert(self@ == ts.skip(read + 2 + n));
                    return failed(EXPECTED_PAIR_END);
                },
            }
        }
        Ok(Type::Object(kv_pairs))
    }

    /// Reads an array whose opening bracket has been read: a closing
    /// bracket, or values with a comma between two of them and a closing
    /// bracket after the last.
    pub fn parse_array(&mut self) -> (r: Result<Type, String>)
        ensures
            answers(r, array(old(self)@), old(self)@, final(self)@),
        decreases old(self)@.len(), 2nat,
    {
        let ghost ts = self@;
        let mut vals: Vec<Type> = Vec::new();
        match self.peek() {
            Some(Token::RBracket) => {
                self.next();
                assert(self@ == ts.skip(1));
                assert(items_view(vals@) == Seq::<Value>::empty());
                return Ok(Type::Array(vals));
            },
            _ => {},
        }
        assert(items_view(vals@) == Seq::<Value>::empty());
        let ghost mut read: int = 0;
        loop
            invariant_except_break
                elements(ts, Seq::empty()).0 == elements(self@, items_view(vals@)).0,
                elements(ts, Seq::empty()).1 == read + elements(self@, items_view(vals@)).1,
            invariant
                ts == old(self)@,
                array(ts) == elements(ts, Seq::empty()),
                0 <= read <= ts.len(),
                self@ == ts.skip(read),
            ensures
                elements(ts, Seq::empty()) == (Ok::<Value, Failure>(Value::Array(items_view(vals@))), read as nat),
            decreases self@.len(),
        {
            let ghost now = self@;
            let ghost done = items_view(vals@);
            let ghost n = value(now).1 as int;
            proof {
                lemma_value_reads(now);
            }
            let tree = match self.parse_val() {
                Ok(tree) => tree,
                Err(text) => {
                    assert(self@ == ts.skip(read + n));
                    return Err(text);
                },
            };
            let ghost item = tree@;
            vals.push(tree);
            assert(items_view(vals@) == done.push(item));
            match self.peek() {
                Some(Token::Comma) => {
                    self.next();
                    proof {
                        assert(now[n] == Lexeme::Comma);
                        assert(self@ == now.skip(n + 1));
                        assert(self@ == ts.skip(read + n + 1));
                        read = read + n + 1;
                    }
                },
                Some(Token::RBracket) => {
                    self.next();
                    proof {
                        assert(now[n] == Lexeme::RBracket);
                        assert(self@ == ts.skip(read + n + 1));
                        read = read + n + 1;
                    }
                    break ;
                },
                _ => {
                    assert(self@ == ts.skip(read + n));
                    return failed(EXPECTED_ITEM_END);
                },
            }
        }
        Ok(Type::Array(vals))
    }
}

/// A token equal to `token`.
fn copy_of(token: &Token) -> (copy: Token)
    ensures
        copy@ == token@,
{
    match token {
        Token::Number(n) => Token::Number(*n),
        Token::Plus => Token::Plus,
        Token::Minus => Token::Minus,
        Token::Multiply => Token::Multiply,
        Token::Divide => Token::Divide,
        Token::LBraces => Token::LBraces,
        Token::RBraces => Token::RBraces,
        Token::LBracket => Token::LBracket,
        Token::RBracket => Token::RBracket,
        Token::LParenthesis => Token::LParenthesis,
        Token::RParenthesis => Token::RParenthesis,
        Token::Colon => Token::Colon,
        Token::Comma => Token::Comma,
        Token::String(s) => Token::String(s.clone()),
        Token::Boolean(b) => Token::Boolean(*b),
        Token::Null => Token::Null,
        Token::Unknown(c) => Token::Unknown(*c),
    }
}

} // verus!
