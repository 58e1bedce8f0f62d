//! The grammar, as functions on token streams.
//!
//! `value`, `object`, `array` and `document` say what the parser answers on
//! a token stream and how many tokens it reads to get there, for every
//! stream: the tree on a stream that the grammar accepts, and otherwise the
//! first failure met when reading from the left.
use vstd::prelude::*;
use crate::failure::Failure;
use crate::lexer::Lexeme;

verus! {

/// A parsed tree. An object keeps its pairs in the order of the text, and a
/// key may occur more than once.
pub enum Value {
    Object(Seq<(Seq<char>, Value)>),
    Array(Seq<Value>),
    String(Seq<char>),
    Number(int),
    Boolean(bool),
    Null,
}

/// A result and the number of tokens read.
pub type Parsed = (Result<Value, Failure>, nat);

/// Reads one value from the front of `ts`.
pub open spec fn value(ts: Seq<Lexeme>) -> Parsed
    decreases ts.len(), 0nat,
{
    if ts.len() == 0 {
        (Err(Failure::UnexpectedEnd), 0)
    } else {
        match ts[0] {
            Lexeme::Number(n) => (Ok(Value::Number(n)), 1),
            Lexeme::String(s) => (Ok(Value::String(s)), 1),
            Lexeme::Boolean(b) => (Ok(Value::Boolean(b)), 1),
            Lexeme::Null => (Ok(Value::Null), 1),
            Lexeme::LBraces => {
                let (r, n) = object(ts.drop_first());
                (r, n + 1)
            },
            Lexeme::LBracket => {
                let (r, n) = array(ts.drop_first());
                (r, n + 1)
            },
            other => (Err(Failure::UnexpectedToken(other)), 1),
        }
    }
}

/// Reads an object whose opening brace has been read.
pub open spec fn object(ts: Seq<Lexeme>) -> Parsed
    decreases ts.len(), 2nat,
{
    if ts.len() > 0 && ts[0] == Lexeme::RBraces {
        (Ok(Value::Object(Seq::empty())), 1)
    } else {
        members(ts, Seq::empty())
    }
}

/// Reads the pairs of an object up to its closing brace; `done` holds the
/// pairs read before.
pub open spec fn members(ts: Seq<Lexeme>, done: Seq<(Seq<char>, Value)>) -> Parsed
    decreases ts.len(), 1nat,
{
    if ts.len() == 0 {
        (Err(Failure::ExpectedKey), 0)
    } else if !(ts[0] is String) {
        (Err(Failure::ExpectedKey), 1)
    } else if ts.len() == 1 {
        (Err(Failure::ExpectedColon), 1)
    } else if ts[1] != Lexeme::Colon {
        (Err(Failure::ExpectedColon), 2)
    } else {
        let (r, n) = value(ts.skip(2));
        let k = n + 2;
        match r {
            Err(e) => (Err(e), k),
            Ok(v) => {
                let pairs = done.push((ts[0]->String_0, v));
                if k < ts.len() && ts[k as int] == Lexeme::Comma {
                    let (r2, n2) = members(ts.skip(k as int + 1), pairs);
                    (r2, k + 1 + n2)
                } else if k < ts.len() && ts[k as int] == Lexeme::RBraces {
                    (Ok(Value::Object(pairs)), k + 1)
                } else {
                    (Err(Failure::ExpectedPairEnd), k)
                }
            },
        }
    }
}

/// Reads an array whose opening bracket has been read.
pub open spec fn array(ts: Seq<Lexeme>) -> Parsed
    decreases ts.len(), 2nat,
{
    if ts.len() > 0 && ts[0] == Lexeme::RBracket {
        (Ok(Value::Array(Seq::empty())), 1)
    } else {
        elements(ts, Seq::empty())
    }
}

/// Reads the items of an array up to its closing bracket; `done` holds the
/// items read before.
pub open spec fn elements(ts: Seq<Lexeme>, done: Seq<Value>) -> Parsed
    decreases ts.len(), 1nat,
{
    let (r, n) = value(ts);
    match r {
        Err(e) => (Err(e), n),
        Ok(v) => {
            let items = done.push(v);
            if n < ts.len() && ts[n as int] == Lexeme::Comma {
                let (r2, n2) = elements(ts.skip(n as int + 1), items);
                (r2, n + 1 + n2)
            } else if n < ts.len() && ts[n as int] == Lexeme::RBracket {
                (Ok(Value::Array(items)), n + 1)
            } else {
                (Err(Failure::ExpectedItemEnd), n)
            }
        },
    }
}

/// Reads a whole stream as one value.
pub open spec fn document(ts: Seq<Lexeme>) -> Parsed {
    let (r, n) = value(ts);
    match r {
        Err(e) => (Err(e), n),
        Ok(v) => if n < ts.len() {
            (Err(Failure::ExtraTokens), n)
        } else {
            (Ok(v), n)
        },
    }
}

/// No more tokens are read than the stream holds, and a value takes at least
/// one.
pub proof fn lemma_value_reads(ts: Seq<Lexeme>)
    ensures
        value(ts).1 <= ts.len(),
        value(ts).0 is Ok ==> value(ts).1 >= 1,
    decreases ts.len(), 0nat,
{
    if ts.len() > 0 {
        match ts[0] {
            Lexeme::LBraces => lemma_object_reads(ts.drop_first()),
            Lexeme::LBracket => lemma_array_reads(ts.drop_first()),
            _ => {},
        }
    }
}

/// `object` reads no more tokens than the stream holds.
pub proof fn lemma_object_reads(ts: Seq<Lexeme>)
    ensures
        object(ts).1 <= ts.len(),
    decreases ts.len(), 2nat,
{
    if !(ts.len() > 0 && ts[0] == Lexeme::RBraces) {
        lemma_members_reads(ts, Seq::empty());
    }
}

/// `members` reads no more tokens than the stream holds.
pub proof fn lemma_members_reads(ts: Seq<Lexeme>, done: Seq<(Seq<char>, Value)>)
    ensures
        members(ts, done).1 <= ts.len(),
    decreases ts.len(), 1nat,
{
    if ts.len() >= 2 && ts[0] is String && ts[1] == Lexeme::Colon {
        lemma_value_reads(ts.skip(2));
        let (r, n) = value(ts.skip(2));
        let k = n + 2;
        if r is Ok && k < ts.len() && ts[k as int] == Lexeme::Comma {
            lemma_members_reads(ts.skip(k as int + 1), done.push((ts[0]->String_0, r->Ok_0)));
        }
    }
}

/// `array` reads no more tokens than the stream holds.
pub proof fn lemma_array_reads(ts: Seq<Lexeme>)
    ensures
        array(ts).1 <= ts.len(),
    decreases ts.len(), 2nat,
{
    if !(ts.len() > 0 && ts[0] == Lexeme::RBracket) {
        lemma_elements_reads(ts, Seq::empty());
    }
}

/// `elements` reads no more tokens than the stream holds.
pub proof fn lemma_elements_reads(ts: Seq<Lexeme>, done: Seq<Value>)
    ensures
        elements(ts, done).1 <= ts.len(),
    decreases ts.len(), 1nat,
{
    lemma_value_reads(ts);
    let (r, n) = value(ts);
    if r is Ok && n < ts.len() && ts[n as int] == Lexeme::Comma {
        lemma_elements_reads(ts.skip(n as int + 1), done.push(r->Ok_0));
    }
}

} // verus!
