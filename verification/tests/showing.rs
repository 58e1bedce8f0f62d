use json_parser::parser::Type;
use json_parser::pretty::pretty;

fn text(s: &str) -> String {
    s.to_string()
}

#[test]
fn scalars_take_one_line() {
    assert_eq!(pretty(&Type::Number(0)), "0\n");
    assert_eq!(pretty(&Type::Number(42)), "42\n");
    assert_eq!(pretty(&Type::Number(1000)), "1000\n");
    assert_eq!(pretty(&Type::Number(i32::MAX)), "2147483647\n");
    assert_eq!(pretty(&Type::Number(-7)), "-7\n");
    assert_eq!(pretty(&Type::Number(i32::MIN)), "-2147483648\n");
    assert_eq!(pretty(&Type::String(text("hi there"))), "\"hi there\"\n");
    assert_eq!(pretty(&Type::String(text(""))), "\"\"\n");
    assert_eq!(pretty(&Type::Boolean(true)), "true\n");
    assert_eq!(pretty(&Type::Boolean(false)), "false\n");
    assert_eq!(pretty(&Type::Null), "null\n");
}

#[test]
fn empty_array_and_object_take_two_lines() {
    assert_eq!(pretty(&Type::Array(vec![])), "[\n]\n");
    assert_eq!(pretty(&Type::Object(vec![])), "{\n}\n");
}

#[test]
fn array_items_are_two_spaces_deeper() {
    let tree = Type::Array(vec![
        Type::Number(1),
        Type::Array(vec![Type::Null, Type::Array(vec![])]),
        Type::String(text("x")),
    ]);
    assert_eq!(
        pretty(&tree),
        "[\n  1\n  [\n    null\n    [\n    ]\n  ]\n  \"x\"\n]\n"
    );
}

#[test]
fn object_pairs_show_key_and_value() {
    let tree = Type::Object(vec![
        (text("key"), Type::Number(123)),
        (text("active"), Type::Boolean(true)),
        (
            text("items"),
            Type::Array(vec![Type::Number(1), Type::Number(2), Type::Null]),
        ),
    ]);
    assert_eq!(
        pretty(&tree),
        "{\n  \"key\": 123\n  \"active\": true\n  \"items\": \n    [\n      1\n      2\n      null\n    ]\n}\n"
    );
}

#[test]
fn nested_objects_go_four_spaces_deeper() {
    let tree = Type::Object(vec![(
        text("a"),
        Type::Object(vec![
            (text("b"), Type::Object(vec![])),
            (text("c"), Type::String(text("d"))),
        ]),
    )]);
    assert_eq!(
        pretty(&tree),
        "{\n  \"a\": \n    {\n      \"b\": \n        {\n        }\n      \"c\": \"d\"\n    }\n}\n"
    );
}

#[test]
fn object_inside_array_inside_object() {
    let tree = Type::Array(vec![Type::Object(vec![
        (text("id"), Type::Number(1)),
        (text("tags"), Type::Array(vec![Type::Boolean(false)])),
    ])]);
    assert_eq!(
        pretty(&tree),
        "[\n  {\n    \"id\": 1\n    \"tags\": \n      [\n        false\n      ]\n  }\n]\n"
    );
}
