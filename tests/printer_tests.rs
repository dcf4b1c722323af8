use fenris::printer::{key_order, render, ParsedValue};

fn num(s: &str) -> ParsedValue {
    ParsedValue::Number(s.to_string())
}

fn text(s: &str) -> ParsedValue {
    ParsedValue::Str(s.to_string())
}

fn object(entries: Vec<(&str, ParsedValue)>) -> ParsedValue {
    ParsedValue::Object(entries.into_iter().map(|(k, v)| (k.to_string(), v)).collect())
}

fn from_json(v: &serde_json::Value) -> ParsedValue {
    match v {
        serde_json::Value::Null => ParsedValue::Null,
        serde_json::Value::Bool(b) => ParsedValue::Bool(*b),
        serde_json::Value::Number(n) => ParsedValue::Number(n.to_string()),
        serde_json::Value::String(s) => ParsedValue::Str(s.clone()),
        serde_json::Value::Array(a) => ParsedValue::Array(a.iter().map(from_json).collect()),
        serde_json::Value::Object(m) => {
            ParsedValue::Object(m.iter().map(|(k, v)| (k.clone(), from_json(v))).collect())
        }
    }
}

#[test]
fn keys_are_printed_in_ascending_order() {
    let v = object(vec![("b", num("1")), ("a", num("2"))]);
    assert_eq!(render(&v), "{\n\"a\": 2,\n\"b\": 1\n}");
}

#[test]
fn scalars_print_as_their_text() {
    assert_eq!(render(&ParsedValue::Null), "null");
    assert_eq!(render(&ParsedValue::Bool(true)), "true");
    assert_eq!(render(&ParsedValue::Bool(false)), "false");
    assert_eq!(render(&num("-12.5e3")), "-12.5e3");
    assert_eq!(render(&text("hi there")), "\"hi there\"");
}

#[test]
fn strings_are_not_escaped_again() {
    assert_eq!(render(&text("a\\nb")), "\"a\\nb\"");
}

#[test]
fn arrays_keep_their_order() {
    let v = ParsedValue::Array(vec![num("3"), num("1"), ParsedValue::Null]);
    assert_eq!(render(&v), "[\n3,\n1,\nnull\n]");
}

#[test]
fn empty_containers() {
    assert_eq!(render(&ParsedValue::Array(vec![])), "[\n\n]");
    assert_eq!(render(&ParsedValue::Object(vec![])), "{\n\n}");
}

#[test]
fn nested_values_render_recursively() {
    let v = object(vec![
        ("z", ParsedValue::Array(vec![object(vec![("y", num("1")), ("x", text("s"))])])),
        ("m", ParsedValue::Bool(false)),
    ]);
    assert_eq!(
        render(&v),
        "{\n\"m\": false,\n\"z\": [\n{\n\"x\": \"s\",\n\"y\": 1\n}\n]\n}"
    );
}

#[test]
fn duplicate_keys_are_all_printed_in_given_order() {
    let v = object(vec![("k", num("1")), ("a", num("0")), ("k", num("2"))]);
    assert_eq!(render(&v), "{\n\"a\": 0,\n\"k\": 1,\n\"k\": 2\n}");
}

#[test]
fn keys_compare_by_bytes() {
    let v = object(vec![("a", num("1")), ("B", num("2")), ("ab", num("3")), ("é", num("4"))]);
    assert_eq!(render(&v), "{\n\"B\": 2,\n\"a\": 1,\n\"ab\": 3,\n\"é\": 4\n}");
}

#[test]
fn key_order_sorts_indices_stably() {
    let entries: Vec<(String, ParsedValue)> = vec![
        ("c".to_string(), ParsedValue::Null),
        ("a".to_string(), ParsedValue::Null),
        ("c".to_string(), ParsedValue::Null),
        ("b".to_string(), ParsedValue::Null),
    ];
    assert_eq!(key_order(&entries), vec![1, 3, 0, 2]);
}

#[test]
fn rendering_is_deterministic() {
    let v = object(vec![("q", num("1")), ("p", ParsedValue::Array(vec![text("x")]))]);
    assert_eq!(render(&v), render(&v));
}

#[test]
fn reparsing_rendered_text_keeps_the_structure() {
    let source = r#"{"b": 1, "a": [true, null, {"d": "x", "c": 2.5}], "e": "text"}"#;
    let parsed: serde_json::Value = serde_json::from_str(source).unwrap();
    let first = render(&from_json(&parsed));
    let reparsed: serde_json::Value = serde_json::from_str(&first).unwrap();
    assert_eq!(reparsed, parsed);
    assert_eq!(render(&from_json(&reparsed)), first);
}

#[test]
fn reordered_objects_print_the_same() {
    let a = object(vec![("x", num("1")), ("y", text("t")), ("w", ParsedValue::Null)]);
    let b = object(vec![("w", ParsedValue::Null), ("x", num("1")), ("y", text("t"))]);
    assert_eq!(render(&a), render(&b));
    assert_eq!(render(&a), "{\n\"w\": null,\n\"x\": 1,\n\"y\": \"t\"\n}");
}
