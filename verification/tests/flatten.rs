use jsonflat::{Traverser, Value};

fn string(s: &str) -> Value {
    Value::String(s.to_string())
}

fn number(s: &str) -> Value {
    Value::Number(s.to_string())
}

fn drain(mut t: Traverser) -> Vec<String> {
    let mut lines: Vec<String> = Vec::new();
    while let Some(line) = t.produce_next() {
        lines.push(line);
    }
    lines
}

#[test]
fn test_flat_value_iterator_full() {
    let value = Value::Object(vec![
        ("null".to_string(), Value::Null),
        ("bool".to_string(), Value::Bool(true)),
        ("number".to_string(), number("42")),
        ("string".to_string(), string("Hello, world!")),
        (
            "array".to_string(),
            Value::Array(vec![number("1"), number("2"), number("3")]),
        ),
        (
            "object".to_string(),
            Value::Object(vec![
                ("foo".to_string(), string("bar")),
                ("answer".to_string(), number("42")),
            ]),
        ),
    ]);

    let mut iter = Traverser::create(value);
    assert_eq!(iter.produce_next(), Some("$.null: null".to_string()));
    assert_eq!(iter.produce_next(), Some("$.bool: true".to_string()));
    assert_eq!(iter.produce_next(), Some("$.number: 42".to_string()));
    assert_eq!(
        iter.produce_next(),
        Some(r#"$.string: "Hello, world!""#.to_string())
    );
    assert_eq!(iter.produce_next(), Some("$.array[0]: 1".to_string()));
    assert_eq!(iter.produce_next(), Some("$.array[1]: 2".to_string()));
    assert_eq!(iter.produce_next(), Some("$.array[2]: 3".to_string()));
    assert_eq!(iter.produce_next(), Some(r#"$.object.foo: "bar""#.to_string()));
    assert_eq!(iter.produce_next(), Some("$.object.answer: 42".to_string()));
    assert_eq!(iter.produce_next(), None);
}

#[test]
fn test_flat_value_iterator_null() {
    let mut iter = Traverser::create(Value::Null);
    assert_eq!(iter.produce_next(), Some(r#"$: null"#.to_string()));
    assert_eq!(iter.produce_next(), None);
}

#[test]
fn test_flat_value_iterator_bool() {
    let mut iter = Traverser::create(Value::Bool(true));
    assert_eq!(iter.produce_next(), Some(r#"$: true"#.to_string()));
    assert_eq!(iter.produce_next(), None);
}

#[test]
fn test_flat_value_iterator_number() {
    let mut iter = Traverser::create(number("42"));
    assert_eq!(iter.produce_next(), Some(r#"$: 42"#.to_string()));
    assert_eq!(iter.produce_next(), None);
}

#[test]
fn test_flat_value_iterator_string() {
    let mut iter = Traverser::create(string("Hello, world!"));
    assert_eq!(iter.produce_next(), Some(r#"$: "Hello, world!""#.to_string()));
    assert_eq!(iter.produce_next(), None);
}

#[test]
fn test_flat_value_iterator_object() {
    let value = Value::Object(vec![
        ("foo".to_string(), string("bar")),
        ("answer".to_string(), number("42")),
    ]);
    let mut iter = Traverser::create(value);
    assert_eq!(iter.produce_next(), Some("$.foo: \"bar\"".to_string()));
    assert_eq!(iter.produce_next(), Some("$.answer: 42".to_string()));
    assert_eq!(iter.produce_next(), None);
}

#[test]
fn test_flat_value_iterator_object_nested() {
    let value = Value::Object(vec![
        ("foo".to_string(), string("bar")),
        ("answer".to_string(), number("42")),
        (
            "object".to_string(),
            Value::Object(vec![
                ("foo".to_string(), string("bar")),
                ("answer".to_string(), number("42")),
            ]),
        ),
    ]);
    let mut iter = Traverser::create(value);
    assert_eq!(iter.produce_next(), Some("$.foo: \"bar\"".to_string()));
    assert_eq!(iter.produce_next(), Some("$.answer: 42".to_string()));
    assert_eq!(iter.produce_next(), Some("$.object.foo: \"bar\"".to_string()));
    assert_eq!(iter.produce_next(), Some("$.object.answer: 42".to_string()));
    assert_eq!(iter.produce_next(), None);
}

#[test]
fn test_flat_value_iterator_array() {
    let value = Value::Array(vec![number("1"), number("2"), number("3")]);
    let mut iter = Traverser::create(value);
    assert_eq!(iter.produce_next(), Some("$[0]: 1".to_string()));
    assert_eq!(iter.produce_next(), Some("$[1]: 2".to_string()));
    assert_eq!(iter.produce_next(), Some("$[2]: 3".to_string()));
    assert_eq!(iter.produce_next(), None);
}

#[test]
fn test_flat_value_iterator_array_nested() {
    let value = Value::Array(vec![
        number("1"),
        number("2"),
        number("3"),
        Value::Array(vec![number("4"), number("5"), number("6")]),
    ]);
    let mut iter = Traverser::create(value);
    assert_eq!(iter.produce_next(), Some("$[0]: 1".to_string()));
    assert_eq!(iter.produce_next(), Some("$[1]: 2".to_string()));
    assert_eq!(iter.produce_next(), Some("$[2]: 3".to_string()));
    assert_eq!(iter.produce_next(), Some("$[3][0]: 4".to_string()));
    assert_eq!(iter.produce_next(), Some("$[3][1]: 5".to_string()));
    assert_eq!(iter.produce_next(), Some("$[3][2]: 6".to_string()));
    assert_eq!(iter.produce_next(), None);
}

#[test]
fn empty_containers_emit_nothing() {
    assert_eq!(drain(Traverser::create(Value::Object(vec![]))), Vec::<String>::new());
    assert_eq!(drain(Traverser::create(Value::Array(vec![]))), Vec::<String>::new());
}

#[test]
fn empty_containers_vanish_inside_trees() {
    let value = Value::Array(vec![
        Value::Array(vec![]),
        number("7"),
        Value::Object(vec![]),
        Value::Bool(false),
    ]);
    assert_eq!(
        drain(Traverser::create(value)),
        vec!["$[1]: 7".to_string(), "$[3]: false".to_string()]
    );
}

#[test]
fn leaf_count_matches_line_count() {
    let value = Value::Object(vec![
        ("a".to_string(), Value::Array(vec![Value::Null, Value::Bool(true)])),
        ("b".to_string(), Value::Object(vec![("c".to_string(), number("1"))])),
        ("d".to_string(), string("x")),
        ("e".to_string(), Value::Array(vec![])),
    ]);
    // Four leaves: two in the array, one nested in `b`, the string at `d`.
    assert_eq!(drain(Traverser::create(value)).len(), 4);
}

#[test]
fn retraversal_repeats_the_drain() {
    let build = || {
        Value::Object(vec![
            ("k".to_string(), Value::Array(vec![number("10"), string("v")])),
            ("m".to_string(), Value::Null),
        ])
    };
    let first = drain(Traverser::create(build()));
    let second = drain(Traverser::create(build()));
    assert_eq!(first, second);
    assert_eq!(
        first,
        vec![
            "$.k[0]: 10".to_string(),
            "$.k[1]: \"v\"".to_string(),
            "$.m: null".to_string(),
        ]
    );
}

#[test]
fn exhaustion_is_stable() {
    let mut t = Traverser::create(Value::Array(vec![number("1")]));
    assert_eq!(t.produce_next(), Some("$[0]: 1".to_string()));
    assert_eq!(t.produce_next(), None);
    assert_eq!(t.produce_next(), None);
    assert_eq!(t.produce_next(), None);
}

#[test]
fn paths_are_unique_and_in_document_order() {
    let value = Value::Object(vec![
        ("x".to_string(), Value::Array(vec![number("1"), Value::Array(vec![number("2")])])),
        ("y".to_string(), Value::Object(vec![("x".to_string(), number("3"))])),
    ]);
    let lines = drain(Traverser::create(value));
    assert_eq!(
        lines,
        vec![
            "$.x[0]: 1".to_string(),
            "$.x[1][0]: 2".to_string(),
            "$.y.x: 3".to_string(),
        ]
    );
    let mut paths: Vec<String> = lines
        .iter()
        .map(|l| l.split(": ").next().unwrap().to_string())
        .collect();
    paths.sort();
    paths.dedup();
    assert_eq!(paths.len(), lines.len());
}

#[test]
fn string_escaping_follows_literal_rules() {
    let value = Value::Array(vec![
        string("say \"hi\""),
        string("back\\slash"),
        string("line\nbreak\ttab\rret"),
        string("\u{1}\u{1f}"),
    ]);
    assert_eq!(
        drain(Traverser::create(value)),
        vec![
            "$[0]: \"say \\\"hi\\\"\"".to_string(),
            "$[1]: \"back\\\\slash\"".to_string(),
            "$[2]: \"line\\nbreak\\ttab\\rret\"".to_string(),
            "$[3]: \"\\u{1}\\u{1f}\"".to_string(),
        ]
    );
}

#[test]
fn deep_nesting_and_wide_indices() {
    let mut value = number("0");
    for _ in 0..40 {
        value = Value::Array(vec![value]);
    }
    let lines = drain(Traverser::create(value));
    assert_eq!(lines.len(), 1);
    assert_eq!(lines[0], format!("${}: 0", "[0]".repeat(40)));

    let wide = Value::Array((0..12).map(|i| number(&i.to_string())).collect());
    let lines = drain(Traverser::create(wide));
    assert_eq!(lines[10], "$[10]: 10".to_string());
    assert_eq!(lines[11], "$[11]: 11".to_string());
}

#[test]
fn numbers_keep_their_original_text() {
    let value = Value::Array(vec![number("-3"), number("2.5"), number("1e10")]);
    assert_eq!(
        drain(Traverser::create(value)),
        vec![
            "$[0]: -3".to_string(),
            "$[1]: 2.5".to_string(),
            "$[2]: 1e10".to_string(),
        ]
    );
}
