//! The text that writes a value, and the proof that reading it gives the
//! value back.
//!
//! `text_of` writes a value without white space; `tokens_of` is the token
//! stream of that text. A value can be written where its numbers are
//! between 0 and `i32::MAX` and its strings and keys hold no double quote.
use vstd::prelude::*;
use crate::chars::{CharClass, all_in, decimal_text, is_digit, is_letter, lemma_decimal_text};
use crate::grammar::{Value, array, document, elements, members, object, value};
use crate::lexer::{Lexeme, scan, tokenize};
use crate::lexer_lemmas::{lemma_scan_digits, lemma_scan_first, lemma_scan_punctuation, lemma_scan_string, lemma_scan_word, lemma_tokenize_scanned, scanned};

verus! {

/// The text of a value.
pub open spec fn text_of(v: Value) -> Seq<char>
    decreases v,
{
    match v {
        Value::Null => seq!['n', 'u', 'l', 'l'],
        Value::Boolean(b) => if b {
            seq!['t', 'r', 'u', 'e']
        } else {
            seq!['f', 'a', 'l', 's', 'e']
        },
        Value::Number(n) => decimal_text(n as nat),
        Value::String(s) => seq!['"'] + s + seq!['"'],
        Value::Array(items) => seq!['['] + items_text(items) + seq![']'],
        Value::Object(pairs) => seq!['{'] + pairs_text(pairs) + seq!['}'],
    }
}

/// The texts of the items of an array, with a comma between two of them.
pub open spec fn items_text(items: Seq<Value>) -> Seq<char>
    decreases items,
{
    if items.len() == 0 {
        Seq::empty()
    } else if items.len() == 1 {
        text_of(items[0])
    } else {
        text_of(items[0]) + seq![','] + items_text(items.drop_first())
    }
}

/// The text of a pair of an object: the key between quotes, a colon, and
/// the text of the value.
pub open spec fn pair_text(key: Seq<char>, value_text: Seq<char>) -> Seq<char> {
    seq!['"'] + key + seq!['"'] + seq![':'] + value_text
}

/// The texts of the pairs of an object, with a comma between two of them.
pub open spec fn pairs_text(pairs: Seq<(Seq<char>, Value)>) -> Seq<char>
    decreases pairs,
{
    if pairs.len() == 0 {
        Seq::empty()
    } else if pairs.len() == 1 {
        pair_text(pairs[0].0, text_of(pairs[0].1))
    } else {
        pair_text(pairs[0].0, text_of(pairs[0].1)) + seq![','] + pairs_text(pairs.drop_first())
    }
}

/// The tokens of the text of a value.
pub open spec fn tokens_of(v: Value) -> Seq<Lexeme>
    decreases v,
{
    match v {
        Value::Null => seq![Lexeme::Null],
        Value::Boolean(b) => seq![Lexeme::Boolean(b)],
        Value::Number(n) => seq![Lexeme::Number(n)],
        Value::String(s) => seq![Lexeme::String(s)],
        Value::Array(items) => seq![Lexeme::LBracket] + items_tokens(items) + seq![
            Lexeme::RBracket,
        ],
        Value::Object(pairs) => seq![Lexeme::LBraces] + pairs_tokens(pairs) + seq![
            Lexeme::RBraces,
        ],
    }
}

/// The tokens of the items of an array, with a comma between two of them.
pub open spec fn items_tokens(items: Seq<Value>) -> Seq<Lexeme>
    decreases items,
{
    if items.len() == 0 {
        Seq::empty()
    } else if items.len() == 1 {
        tokens_of(items[0])
    } else {
        tokens_of(items[0]) + seq![Lexeme::Comma] + items_tokens(items.drop_first())
    }
}

/// The tokens of a pair of an object: the key, a colon, and the tokens of
/// the value.
pub open spec fn pair_tokens(key: Seq<char>, value_tokens: Seq<Lexeme>) -> Seq<Lexeme> {
    seq![Lexeme::String(key), Lexeme::Colon] + value_tokens
}

/// The tokens of the pairs of an object, with a comma between two of them.
pub open spec fn pairs_tokens(pairs: Seq<(Seq<char>, Value)>) -> Seq<Lexeme>
    decreases pairs,
{
    if pairs.len() == 0 {
        Seq::empty()
    } else if pairs.len() == 1 {
        pair_tokens(pairs[0].0, tokens_of(pairs[0].1))
    } else {
        pair_tokens(pairs[0].0, tokens_of(pairs[0].1)) + seq![Lexeme::Comma] + pairs_tokens(
            pairs.drop_first(),
        )
    }
}

/// Whether the text of `v` can be read back: every number is between 0 and
/// `i32::MAX`, and no string or key holds a double quote.
pub open spec fn writable(v: Value) -> bool
    decreases v,
{
    match v {
        Value::Number(n) => 0 <= n <= i32::MAX,
        Value::String(s) => all_in(s, CharClass::Unquoted),
        Value::Array(items) => forall|i: int| 0 <= i < items.len() ==> writable(#[trigger] items[i]),
        Value::Object(pairs) => forall|i: int|
            0 <= i < pairs.len() ==> all_in((#[trigger] pairs[i]).0, CharClass::Unquoted)
                && writable(pairs[i].1),
        _ => true,
    }
}

/// The tokens of a value start with a token that starts a value.
pub proof fn lemma_tokens_start(v: Value)
    ensures
        tokens_of(v).len() > 0,
        crate::failure::starts_value(tokens_of(v)[0]),
{
}

/// In front of any stream, the tokens of a value are read as that
/// value, and no token more.
pub proof fn lemma_value_of_tokens(v: Value, rest: Seq<Lexeme>)
    ensures
        value(tokens_of(v) + rest) == (Ok::<Value, crate::failure::Failure>(v), tokens_of(v).len()),
    decreases v,
{
    let ts = tokens_of(v) + rest;
    match v {
        Value::Array(items) => {
            let inner = items_tokens(items) + seq![Lexeme::RBracket] + rest;
            assert(ts.drop_first() == inner);
            if items.len() == 0 {
                assert(items == Seq::<Value>::empty());
            } else {
                lemma_tokens_start(items[0]);
                assert(inner[0] == tokens_of(items[0])[0]);
                lemma_elements_of_tokens(items, Seq::empty(), rest);
                assert(Seq::<Value>::empty() + items == items);
            }
        },
        Value::Object(pairs) => {
            let inner = pairs_tokens(pairs) + seq![Lexeme::RBraces] + rest;
            assert(ts.drop_first() == inner);
            if pairs.len() == 0 {
                assert(pairs == Seq::<(Seq<char>, Value)>::empty());
            } else {
                assert(inner[0] == Lexeme::String(pairs[0].0));
                lemma_members_of_tokens(pairs, Seq::empty(), rest);
                assert(Seq::<(Seq<char>, Value)>::empty() + pairs == pairs);
            }
        },
        _ => {},
    }
}

/// In front of a closing bracket, the tokens of the items of an array are
/// read as those items.
pub proof fn lemma_elements_of_tokens(items: Seq<Value>, done: Seq<Value>, rest: Seq<Lexeme>)
    requires
        items.len() > 0,
    ensures
        elements(items_tokens(items) + seq![Lexeme::RBracket] + rest, done) == (
            Ok::<Value, crate::failure::Failure>(Value::Array(done + items)),
            items_tokens(items).len() + 1,
        ),
    decreases items,
{
    let ts = items_tokens(items) + seq![Lexeme::RBracket] + rest;
    let first = tokens_of(items[0]);
    let n = first.len() as int;
    if items.len() == 1 {
        let after = seq![Lexeme::RBracket] + rest;
        assert(ts == first + after);
        lemma_value_of_tokens(items[0], after);
        assert(ts[n] == Lexeme::RBracket);
        assert(done.push(items[0]) == done + items);
    } else {
        let tail = items.drop_first();
        let next = items_tokens(tail) + seq![Lexeme::RBracket] + rest;
        let after = seq![Lexeme::Comma] + next;
        assert(ts == first + after);
        lemma_value_of_tokens(items[0], after);
        assert(ts[n] == Lexeme::Comma);
        assert(ts.skip(n + 1) == next);
        lemma_elements_of_tokens(tail, done.push(items[0]), rest);
        assert(done.push(items[0]) + tail == done + items);
    }
}

/// In front of a closing brace, the tokens of the pairs of an object are
/// read as those pairs.
pub proof fn lemma_members_of_tokens(
    pairs: Seq<(Seq<char>, Value)>,
    done: Seq<(Seq<char>, Value)>,
    rest: Seq<Lexeme>,
)
    requires
        pairs.len() > 0,
    ensures
        members(pairs_tokens(pairs) + seq![Lexeme::RBraces] + rest, done) == (
            Ok::<Value, crate::failure::Failure>(Value::Object(done + pairs)),
            pairs_tokens(pairs).len() + 1,
        ),
    decreases pairs,
{
    let ts = pairs_tokens(pairs) + seq![Lexeme::RBraces] + rest;
    let head = seq![Lexeme::String(pairs[0].0), Lexeme::Colon];
    let first = tokens_of(pairs[0].1);
    assert(pair_tokens(pairs[0].0, tokens_of(pairs[0].1)) == head + first);
    let n = first.len() as int;
    if pairs.len() == 1 {
        let after = seq![Lexeme::RBraces] + rest;
        assert(ts == head + (first + after));
        assert(ts.skip(2) == first + after);
        lemma_value_of_tokens(pairs[0].1, after);
        assert(ts[n + 2] == Lexeme::RBraces);
        assert(done.push(pairs[0]) == done + pairs);
    } else {
        let tail = pairs.drop_first();
        let next = pairs_tokens(tail) + seq![Lexeme::RBraces] + rest;
        let after = seq![Lexeme::Comma] + next;
        assert(ts == head + (first + after));
        assert(ts.skip(2) == first + after);
        lemma_value_of_tokens(pairs[0].1, after);
        assert(ts[n + 2] == Lexeme::Comma);
        assert(ts.skip(n + 3) == next);
        lemma_members_of_tokens(tail, done.push(pairs[0]), rest);
        assert(done.push(pairs[0]) + tail == done + pairs);
    }
}

/// The tokens that `value` reads to a tree are the tokens of that tree.
pub proof fn lemma_tokens_of_value(ts: Seq<Lexeme>)
    requires
        value(ts).0 is Ok,
    ensures
        value(ts).1 <= ts.len(),
        ts.take(value(ts).1 as int) == tokens_of(value(ts).0->Ok_0),
    decreases ts.len(), 0nat,
{
    let n = value(ts).1 as int;
    let inner = ts.drop_first();
    match ts[0] {
        Lexeme::LBraces => {
            let k = object(inner).1 as int;
            if inner.len() > 0 && inner[0] == Lexeme::RBraces {
                assert(ts.take(2) == seq![Lexeme::LBraces, Lexeme::RBraces]);
                assert(pairs_tokens(Seq::<(Seq<char>, Value)>::empty()) == Seq::<Lexeme>::empty());
                assert(tokens_of(Value::Object(Seq::empty())) == seq![
                    Lexeme::LBraces,
                    Lexeme::RBraces,
                ]);
            } else {
                lemma_tokens_of_members(inner, Seq::empty());
                let pairs = object(inner).0->Ok_0->Object_0;
                assert(pairs.skip(0) == pairs);
                assert(ts.take(k + 1) == seq![Lexeme::LBraces] + inner.take(k));
            }
        },
        Lexeme::LBracket => {
            let k = array(inner).1 as int;
            if inner.len() > 0 && inner[0] == Lexeme::RBracket {
                assert(ts.take(2) == seq![Lexeme::LBracket, Lexeme::RBracket]);
                assert(items_tokens(Seq::<Value>::empty()) == Seq::<Lexeme>::empty());
                assert(tokens_of(Value::Array(Seq::empty())) == seq![
                    Lexeme::LBracket,
                    Lexeme::RBracket,
                ]);
            } else {
                lemma_tokens_of_elements(inner, Seq::empty());
                let items = array(inner).0->Ok_0->Array_0;
                assert(items.skip(0) == items);
                assert(ts.take(k + 1) == seq![Lexeme::LBracket] + inner.take(k));
            }
        },
        _ => {
            assert(ts.take(1) == seq![ts[0]]);
        },
    }
}

/// The tokens that `elements` reads are the tokens of the items it adds to
/// `done`, and a closing bracket.
pub proof fn lemma_tokens_of_elements(ts: Seq<Lexeme>, done: Seq<Value>)
    requires
        elements(ts, done).0 is Ok,
    ensures
        elements(ts, done).1 <= ts.len(),
        elements(ts, done).0->Ok_0 is Array,
        ({
            let all = elements(ts, done).0->Ok_0->Array_0;
            let added = all.skip(done.len() as int);
            &&& all.len() > done.len()
            &&& all.take(done.len() as int) == done
            &&& ts.take(elements(ts, done).1 as int) == items_tokens(added) + seq![
                Lexeme::RBracket,
            ]
        }),
    decreases ts.len(), 1nat,
{
    let (r, n1) = value(ts);
    let v = r->Ok_0;
    let n = n1 as int;
    lemma_tokens_of_value(ts);
    let all = elements(ts, done).0->Ok_0->Array_0;
    let d = done.len() as int;
    let added = all.skip(d);
    if ts[n] == Lexeme::Comma {
        let next = ts.skip(n + 1);
        let k = elements(next, done.push(v)).1 as int;
        lemma_tokens_of_elements(next, done.push(v));
        let more = all.skip(d + 1);
        assert(all.take(d) == all.take(d + 1).take(d));
        assert(all[d] == all.take(d + 1)[d]);
        assert(added[0] == v);
        assert(added.drop_first() == more);
        assert(ts.take(n + 1 + k) == ts.take(n) + seq![Lexeme::Comma] + next.take(k));
        assert(items_tokens(added) == tokens_of(v) + seq![Lexeme::Comma] + items_tokens(more));
    } else {
        assert(added == seq![v]);
        assert(ts.take(n + 1) == ts.take(n) + seq![Lexeme::RBracket]);
    }
}

/// The tokens that `members` reads are the tokens of the pairs it adds to
/// `done`, and a closing brace.
pub proof fn lemma_tokens_of_members(ts: Seq<Lexeme>, done: Seq<(Seq<char>, Value)>)
    requires
        members(ts, done).0 is Ok,
    ensures
        members(ts, done).1 <= ts.len(),
        members(ts, done).0->Ok_0 is Object,
        ({
            let all = members(ts, done).0->Ok_0->Object_0;
            let added = all.skip(done.len() as int);
            &&& all.len() > done.len()
            &&& all.take(done.len() as int) == done
            &&& ts.take(members(ts, done).1 as int) == pairs_tokens(added) + seq![
                Lexeme::RBraces,
            ]
        }),
    decreases ts.len(), 1nat,
{
    let key = ts[0]->String_0;
    let from = ts.skip(2);
    let (r, n1) = value(from);
    let v = r->Ok_0;
    let n = n1 as int;
    lemma_tokens_of_value(from);
    let pair = (key, v);
    let shown = pair_tokens(key, tokens_of(v));
    assert(ts.take(n + 2) == shown) by {
        assert(ts.take(n + 2) == seq![ts[0], ts[1]] + from.take(n));
    }
    let all = members(ts, done).0->Ok_0->Object_0;
    let d = done.len() as int;
    let added = all.skip(d);
    if ts[n + 2] == Lexeme::Comma {
        let next = ts.skip(n + 3);
        let k = members(next, done.push(pair)).1 as int;
        lemma_tokens_of_members(next, done.push(pair));
        let more = all.skip(d + 1);
        assert(all.take(d) == all.take(d + 1).take(d));
        assert(all[d] == all.take(d + 1)[d]);
        assert(added[0] == pair);
        assert(added.drop_first() == more);
        assert(ts.take(n + 3 + k) == ts.take(n + 2) + seq![Lexeme::Comma] + next.take(k));
        assert(pairs_tokens(added) == shown + seq![Lexeme::Comma] + pairs_tokens(more));
    } else {
        assert(added == seq![pair]);
        assert(ts.take(n + 3) == ts.take(n + 2) + seq![Lexeme::RBraces]);
    }
}

/// A stream is read as the value `v` exactly where it starts with the tokens
/// of `v`.
pub proof fn lemma_value_accepts(ts: Seq<Lexeme>, v: Value)
    ensures
        value(ts).0 == Ok::<Value, crate::failure::Failure>(v) <==> tokens_of(v).len() <= ts.len()
            && ts.take(tokens_of(v).len() as int) == tokens_of(v),
{
    let n = tokens_of(v).len() as int;
    if value(ts).0 == Ok::<Value, crate::failure::Failure>(v) {
        lemma_tokens_of_value(ts);
    }
    if n <= ts.len() && ts.take(n) == tokens_of(v) {
        lemma_value_of_tokens(v, ts.skip(n));
        assert(ts == tokens_of(v) + ts.skip(n));
    }
}

/// A whole stream is one value exactly where it is the tokens of that value.
pub proof fn lemma_document_accepts(ts: Seq<Lexeme>, v: Value)
    ensures
        document(ts).0 == Ok::<Value, crate::failure::Failure>(v) <==> ts == tokens_of(v),
{
    lemma_value_accepts(ts, v);
    if document(ts).0 == Ok::<Value, crate::failure::Failure>(v) {
        lemma_tokens_of_value(ts);
        assert(ts.take(ts.len() as int) == ts);
    }
    if ts == tokens_of(v) {
        lemma_value_of_tokens(v, Seq::empty());
        assert(ts + Seq::<Lexeme>::empty() == ts);
    }
}

/// Whether `rest` can follow the text of a value without running into it:
/// it is empty or starts with a character that is neither digit nor letter.
pub open spec fn apart(rest: Seq<char>) -> bool {
    rest.len() > 0 ==> !is_digit(rest[0]) && !is_letter(rest[0])
}

/// The tokens of a punctuation character and what follows it.
proof fn lemma_scan_mark(c: char, lexeme: Lexeme, rest: Seq<char>)
    requires
        crate::lexer::punctuation(c) == Some(lexeme),
    ensures
        scan(seq![c] + rest) == seq![lexeme] + scan(rest),
{
    lemma_scan_punctuation(c, rest);
    lemma_scan_first(seq![c] + rest, lexeme, 1);
    assert((seq![c] + rest).skip(1) == rest);
}

/// In front of text that keeps apart from it, the text of a value is
/// scanned to the tokens of the value.
pub proof fn lemma_scan_text(v: Value, rest: Seq<char>)
    requires
        writable(v),
        apart(rest),
    ensures
        scan(text_of(v) + rest) == tokens_of(v) + scan(rest),
    decreases v, 0nat,
{
    let text = text_of(v);
    let s = text + rest;
    match v {
        Value::Null => {
            assert(all_in(text, CharClass::Letter));
            lemma_scan_word(text, rest);
            lemma_scan_first(s, Lexeme::Null, 4);
            assert(s.skip(4) == rest);
        },
        Value::Boolean(b) => {
            assert(all_in(text, CharClass::Letter));
            lemma_scan_word(text, rest);
            assert(text[0] == if b { 't' } else { 'f' });
            assert(seq!['t', 'r', 'u', 'e'][0] == 't');
            assert(crate::lexer::keyword(text) == Lexeme::Boolean(b));
            lemma_scan_first(s, Lexeme::Boolean(b), text.len());
            assert(s.skip(text.len() as int) == rest);
        },
        Value::Number(n) => {
            lemma_decimal_text(n as nat);
            lemma_scan_digits(text, rest);
            lemma_scan_first(s, Lexeme::Number(n), text.len());
            assert(s.skip(text.len() as int) == rest);
        },
        Value::String(body) => {
            lemma_scan_string(body, rest);
            lemma_scan_first(s, Lexeme::String(body), body.len() + 2);
            assert(s.skip(body.len() as int + 2) == rest);
        },
        Value::Array(items) => {
            let close = seq![']'] + rest;
            let inner = items_text(items) + close;
            assert(s == seq!['['] + inner);
            lemma_scan_mark('[', Lexeme::LBracket, inner);
            if items.len() > 0 {
                lemma_scan_items(items, close);
            } else {
                assert(inner == close);
            }
            lemma_scan_mark(']', Lexeme::RBracket, rest);
        },
        Value::Object(pairs) => {
            let close = seq!['}'] + rest;
            let inner = pairs_text(pairs) + close;
            assert(s == seq!['{'] + inner);
            lemma_scan_mark('{', Lexeme::LBraces, inner);
            if pairs.len() > 0 {
                lemma_scan_pairs(pairs, close);
            } else {
                assert(inner == close);
            }
            lemma_scan_mark('}', Lexeme::RBraces, rest);
        },
    }
}

/// In front of text that keeps apart from them, the texts of the items of an
/// array are scanned to the tokens of the items.
pub proof fn lemma_scan_items(items: Seq<Value>, rest: Seq<char>)
    requires
        items.len() > 0,
        forall|i: int| 0 <= i < items.len() ==> writable(#[trigger] items[i]),
        apart(rest),
    ensures
        scan(items_text(items) + rest) == items_tokens(items) + scan(rest),
    decreases items, 0nat,
{
    if items.len() == 1 {
        lemma_scan_text(items[0], rest);
    } else {
        let tail = items.drop_first();
        let next = items_text(tail) + rest;
        let after = seq![','] + next;
        assert(items_text(items) + rest == text_of(items[0]) + after);
        lemma_scan_text(items[0], after);
        lemma_scan_mark(',', Lexeme::Comma, next);
        assert forall|i: int| 0 <= i < tail.len() implies writable(#[trigger] tail[i]) by {
            assert(tail[i] == items[i + 1]);
        }
        lemma_scan_items(tail, rest);
        assert(items_tokens(items) + scan(rest) == tokens_of(items[0]) + (seq![Lexeme::Comma] + (
            items_tokens(tail) + scan(rest))));
    }
}

/// In front of text that keeps apart from it, the text of a pair of an
/// object is scanned to the tokens of the pair.
pub proof fn lemma_scan_pair(key: Seq<char>, v: Value, rest: Seq<char>)
    requires
        all_in(key, CharClass::Unquoted),
        writable(v),
        apart(rest),
    ensures
        scan(pair_text(key, text_of(v)) + rest) == pair_tokens(key, tokens_of(v)) + scan(rest),
    decreases v, 1nat,
{
    let s = pair_text(key, text_of(v)) + rest;
    let value_on = text_of(v) + rest;
    let colon_on = seq![':'] + value_on;
    assert(s == seq!['"'] + key + seq!['"'] + colon_on);
    lemma_scan_string(key, colon_on);
    lemma_scan_first(s, Lexeme::String(key), key.len() + 2);
    assert(s.skip(key.len() as int + 2) == colon_on);
    lemma_scan_mark(':', Lexeme::Colon, value_on);
    lemma_scan_text(v, rest);
    assert(pair_tokens(key, tokens_of(v)) + scan(rest) == seq![Lexeme::String(key)] + (seq![Lexeme::Colon]
        + (tokens_of(v) + scan(rest))));
}

/// In front of text that keeps apart from them, the texts of the pairs of an
/// object are scanned to the tokens of the pairs.
pub proof fn lemma_scan_pairs(pairs: Seq<(Seq<char>, Value)>, rest: Seq<char>)
    requires
        pairs.len() > 0,
        forall|i: int|
            0 <= i < pairs.len() ==> all_in((#[trigger] pairs[i]).0, CharClass::Unquoted)
                && writable(pairs[i].1),
        apart(rest),
    ensures
        scan(pairs_text(pairs) + rest) == pairs_tokens(pairs) + scan(rest),
    decreases pairs, 0nat,
{
    let key = pairs[0].0;
    let v = pairs[0].1;
    if pairs.len() == 1 {
        lemma_scan_pair(key, v, rest);
    } else {
        let tail = pairs.drop_first();
        let next = pairs_text(tail) + rest;
        let after = seq![','] + next;
        assert(pairs_text(pairs) + rest == pair_text(key, text_of(v)) + after);
        lemma_scan_pair(key, v, after);
        lemma_scan_mark(',', Lexeme::Comma, next);
        assert forall|i: int| 0 <= i < tail.len() implies all_in(
            (#[trigger] tail[i]).0,
            CharClass::Unquoted,
        ) && writable(tail[i].1) by {
            assert(tail[i] == pairs[i + 1]);
        }
        lemma_scan_pairs(tail, rest);
        assert(pairs_tokens(pairs) + scan(rest) == pair_tokens(key, tokens_of(v)) + (seq![Lexeme::Comma] + (
            pairs_tokens(tail) + scan(rest))));
    }
}

/// Reading the text of a value gives the value back. The text is
/// tokenized to the tokens of the value, and those are parsed to the value.
pub proof fn lemma_round_trip(v: Value)
    requires
        writable(v),
    ensures
        tokenize(text_of(v)) == tokens_of(v),
        document(tokens_of(v)) == (Ok::<Value, crate::failure::Failure>(v), tokens_of(v).len()),
        document(tokenize(text_of(v))).0 == Ok::<Value, crate::failure::Failure>(v),
{
    let text = text_of(v);
    lemma_scan_text(v, Seq::empty());
    assert(text + Seq::<char>::empty() == text);
    assert(scan(Seq::<char>::empty()) == Seq::<Lexeme>::empty());
    assert(tokens_of(v) + Seq::<Lexeme>::empty() == tokens_of(v));
    assert(scan(text) == tokens_of(v));
    lemma_tokens_start(v);
    assert(tokens_of(v).last() != Lexeme::Unknown('"'));
    lemma_value_of_tokens(v, Seq::empty());
}

/// Every token of `ts` is one that the scanner can give.
pub open spec fn all_scanned(ts: Seq<Lexeme>) -> bool {
    forall|i: int| 0 <= i < ts.len() ==> scanned(#[trigger] ts[i])
}

/// A value can be written where the scanner can give each of its tokens.
pub proof fn lemma_writable_of_tokens(v: Value)
    requires
        all_scanned(tokens_of(v)),
    ensures
        writable(v),
    decreases v,
{
    let ts = tokens_of(v);
    match v {
        Value::Number(n) => {
            assert(scanned(ts[0]));
        },
        Value::String(s) => {
            assert(scanned(ts[0]));
        },
        Value::Array(items) => {
            let inner = items_tokens(items);
            assert forall|i: int| 0 <= i < inner.len() implies scanned(#[trigger] inner[i]) by {
                assert(inner[i] == ts[i + 1]);
            }
            lemma_writable_of_items(items);
        },
        Value::Object(pairs) => {
            let inner = pairs_tokens(pairs);
            assert forall|i: int| 0 <= i < inner.len() implies scanned(#[trigger] inner[i]) by {
                assert(inner[i] == ts[i + 1]);
            }
            lemma_writable_of_pairs(pairs);
        },
        _ => {},
    }
}

/// The items of an array can be written where the scanner can give each of
/// their tokens.
pub proof fn lemma_writable_of_items(items: Seq<Value>)
    requires
        all_scanned(items_tokens(items)),
    ensures
        forall|i: int| 0 <= i < items.len() ==> writable(#[trigger] items[i]),
    decreases items,
{
    if items.len() > 0 {
        let ts = items_tokens(items);
        let first = tokens_of(items[0]);
        assert forall|i: int| 0 <= i < first.len() implies scanned(#[trigger] first[i]) by {
            assert(first[i] == ts[i]);
        }
        lemma_writable_of_tokens(items[0]);
        let tail = items.drop_first();
        if items.len() > 1 {
            let more = items_tokens(tail);
            assert forall|i: int| 0 <= i < more.len() implies scanned(#[trigger] more[i]) by {
                assert(more[i] == ts[first.len() + 1 + i]);
            }
        }
        lemma_writable_of_items(tail);
        assert forall|i: int| 0 <= i < items.len() implies writable(#[trigger] items[i]) by {
            if i > 0 {
                assert(items[i] == tail[i - 1]);
            }
        }
    }
}

/// The pairs of an object can be written where the scanner can give each
/// of their tokens.
pub proof fn lemma_writable_of_pairs(pairs: Seq<(Seq<char>, Value)>)
    requires
        all_scanned(pairs_tokens(pairs)),
    ensures
        forall|i: int|
            0 <= i < pairs.len() ==> all_in((#[trigger] pairs[i]).0, CharClass::Unquoted)
                && writable(pairs[i].1),
    decreases pairs,
{
    if pairs.len() > 0 {
        let ts = pairs_tokens(pairs);
        let first = tokens_of(pairs[0].1);
        assert(ts[0] == Lexeme::String(pairs[0].0));
        assert(scanned(ts[0]));
        assert forall|i: int| 0 <= i < first.len() implies scanned(#[trigger] first[i]) by {
            assert(first[i] == ts[i + 2]);
        }
        lemma_writable_of_tokens(pairs[0].1);
        let tail = pairs.drop_first();
        if pairs.len() > 1 {
            let more = pairs_tokens(tail);
            assert forall|i: int| 0 <= i < more.len() implies scanned(#[trigger] more[i]) by {
                assert(more[i] == ts[first.len() + 3 + i]);
            }
        }
        lemma_writable_of_pairs(tail);
        assert forall|i: int| 0 <= i < pairs.len() implies all_in(
            (#[trigger] pairs[i]).0,
            CharClass::Unquoted,
        ) && writable(pairs[i].1) by {
            if i > 0 {
                assert(pairs[i] == tail[i - 1]);
            }
        }
    }
}

/// A value read from a text can be written: its numbers are between 0 and
/// `i32::MAX` and its strings and keys hold no double quote. So reading
/// what is written of it gives it back.
pub proof fn lemma_read_is_writable(s: Seq<char>)
    requires
        document(tokenize(s)).0 is Ok,
    ensures
        writable(document(tokenize(s)).0->Ok_0),
        document(tokenize(text_of(document(tokenize(s)).0->Ok_0))).0 == document(tokenize(s)).0,
{
    let ts = tokenize(s);
    let v = document(ts).0->Ok_0;
    lemma_document_accepts(ts, v);
    assert forall|i: int| 0 <= i < ts.len() implies scanned(#[trigger] ts[i]) by {
        lemma_tokenize_scanned(s, i);
    }
    lemma_writable_of_tokens(v);
    lemma_round_trip(v);
}

} // verus!
