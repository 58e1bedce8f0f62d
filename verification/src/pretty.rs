//! The indented text that shows a parsed tree, one node or bracket to a
//! line.
use vstd::prelude::*;
use vstd::string::StringExecFns;
use crate::chars::{decimal_text, digit_char};
use crate::grammar::Value;
use crate::parser::{Type, items_view, pairs_view};

verus! {

/// The decimal text of an integer, with a minus sign where it is negative.
pub open spec fn int_text(n: int) -> Seq<char> {
    if n < 0 {
        seq!['-'] + decimal_text((-n) as nat)
    } else {
        decimal_text(n as nat)
    }
}

/// The lines that show `v`, each starting with `indent`.
///
/// A number, a string, a boolean and null take one line. An array takes a
/// line for each bracket and shows its items between them, two spaces
/// deeper. An object takes a line for each brace and shows its pairs
/// between them.
pub open spec fn display(v: Value, indent: Seq<char>) -> Seq<char>
    decreases v,
{
    match v {
        Value::Number(n) => indent + int_text(n) + "\n"@,
        Value::String(s) => indent + "\""@ + s + "\"\n"@,
        Value::Boolean(b) => indent + (if b {
            "true\n"@
        } else {
            "false\n"@
        }),
        Value::Null => indent + "null\n"@,
        Value::Array(items) => indent + "[\n"@ + display_items(items, indent + "  "@) + indent
            + "]\n"@,
        Value::Object(pairs) => indent + "{\n"@ + display_pairs(pairs, indent) + indent + "}\n"@,
    }
}

/// The lines that show the items of an array, one item after the other.
pub open spec fn display_items(items: Seq<Value>, indent: Seq<char>) -> Seq<char>
    decreases items,
{
    if items.len() == 0 {
        Seq::empty()
    } else {
        display_items(items.drop_last(), indent) + display(items.last(), indent)
    }
}

/// The lines that show the pairs of an object whose braces start with
/// `indent`. A pair starts two spaces deeper with its key between quotes, a
/// colon and a space. A value that is neither array nor object follows on
/// the same line; an array or an object starts on the next line, four
/// spaces deeper than the braces.
pub open spec fn display_pairs(pairs: Seq<(Seq<char>, Value)>, indent: Seq<char>) -> Seq<char>
    decreases pairs,
{
    if pairs.len() == 0 {
        Seq::empty()
    } else {
        let key = pairs.last().0;
        let v = pairs.last().1;
        display_pairs(pairs.drop_last(), indent) + indent + "  \""@ + key + "\": "@ + (if v is Array
            || v is Object {
            "\n"@ + display(v, indent + "    "@)
        } else {
            display(v, Seq::empty())
        })
    }
}

/// Appends the decimal text of `n` to `out`.
fn write_decimal(n: u32, out: &mut String)
    ensures
        final(out)@ == old(out)@ + decimal_text(n as nat),
    decreases n,
{
    if n >= 10 {
        write_decimal(n / 10, out);
    }
    let d = n % 10;
    let c = if d == 0 {
        '0'
    } else if d == 1 {
        '1'
    } else if d == 2 {
        '2'
    } else if d == 3 {
        '3'
    } else if d == 4 {
        '4'
    } else if d == 5 {
        '5'
    } else if d == 6 {
        '6'
    } else if d == 7 {
        '7'
    } else if d == 8 {
        '8'
    } else {
        '9'
    };
    assert(c == digit_char(d as nat));
    out.push(c);
    assert(out@ == old(out)@ + decimal_text(n as nat));
}

/// Appends the decimal text of `n` to `out`.
fn write_int(n: i32, out: &mut String)
    ensures
        final(out)@ == old(out)@ + int_text(n as int),
{
    if n < 0 {
        out.push('-');
        let m: u32 = (-(n as i64)) as u32;
        write_decimal(m, out);
        assert(out@ == old(out)@ + int_text(n as int));
    } else {
        write_decimal(n as u32, out);
    }
}

/// Appends the lines that show `value` to `out`.
fn write_value(value: &Type, indent: &str, out: &mut String)
    ensures
        final(out)@ == old(out)@ + display(value@, indent@),
    decreases value,
{
    out.append(indent);
    match value {
        Type::Number(n) => {
            write_int(*n, out);
            out.append("\n");
        },
        Type::String(s) => {
            out.append("\"");
            out.append(s.as_str());
            out.append("\"\n");
        },
        Type::Boolean(b) => {
            if *b {
                out.append("true\n");
            } else {
                out.append("false\n");
            }
        },
        Type::Null => {
            out.append("null\n");
        },
        Type::Array(vals) => {
            out.append("[\n");
            let mut deeper = indent.to_owned();
            deeper.append("  ");
            let ghost start = out@;
            let ghost items = items_view(vals@);
            let mut i: usize = 0;
            while i < vals.len()
                invariant
                    i <= vals.len(),
                    value == Type::Array(*vals),
                    items == items_view(vals@),
                    deeper@ == indent@ + "  "@,
                    out@ == start + display_items(items.take(i as int), deeper@),
                decreases vals.len() - i,
            {
                proof {
                    assert(decreases_to!(*value => value->Array_0));
                    assert(decreases_to!(vals@ => vals@[i as int]));
                }
                write_value(&vals[i], deeper.as_str(), out);
                proof {
                    assert(items.take(i + 1).drop_last() == items.take(i as int));
                    assert(items.take(i + 1).last() == vals[i as int]@);
                }
                i += 1;
            }
            proof {
                assert(items.take(i as int) == items);
            }
            out.append(indent);
            out.append("]\n");
        },
        Type::Object(pairs) => {
            out.append("{\n");
            let mut deeper = indent.to_owned();
            deeper.append("    ");
            let ghost start = out@;
            let ghost shown = pairs_view(pairs@);
            let mut i: usize = 0;
            while i < pairs.len()
                invariant
                    i <= pairs.len(),
                    value == Type::Object(*pairs),
                    shown == pairs_view(pairs@),
                    deeper@ == indent@ + "    "@,
                    out@ == start + display_pairs(shown.take(i as int), indent@),
                decreases pairs.len() - i,
            {
                let pair = &pairs[i];
                proof {
                    assert(decreases_to!(*value => value->Object_0));
                    assert(decreases_to!(pairs@ => pairs@[i as int]));
                    assert(decreases_to!(pairs@[i as int] => pairs@[i as int].1));
                }
                out.append(indent);
                out.append("  \"");
                out.append(pair.0.as_str());
                out.append("\": ");
                match &pair.1 {
                    Type::Object(_) | Type::Array(_) => {
                        out.append("\n");
                        write_value(&pair.1, deeper.as_str(), out);
                    },
                    _ => {
                        proof {
                            reveal_strlit("");
                            assert(""@ == Seq::<char>::empty());
                        }
                        write_value(&pair.1, "", out);
                    },
                }
                proof {
                    assert(shown.take(i + 1).drop_last() == shown.take(i as int));
                    assert(shown.take(i + 1).last() == (pair.0@, pair.1@));
                }
                i += 1;
            }
            proof {
                assert(shown.take(i as int) == shown);
            }
            out.append(indent);
            out.append("}\n");
        },
    }
}

/// The text that shows `value`, without indentation.
pub fn pretty(value: &Type) -> (text: String)
    ensures
        text@ == display(value@, Seq::empty()),
{
    let mut out = String::new();
    proof {
        reveal_strlit("");
        assert(""@ == Seq::<char>::empty());
    }
    write_value(value, "", &mut out);
    assert(out@ == display(value@, Seq::empty()));
    out
}

} // verus!
