use piinguin::annotated::{
    float_key_of, get_value_by_path, same_found, same_raw_value, same_value, strip_sidecar,
    Annotated, Meta, Value,
};
use piinguin::text::{
    chars_of, holds_text, parse_index_in, path_below, same_text, segment_end,
};

fn no_notes() -> Meta {
    Meta { remarks: Vec::new(), errors: Vec::new(), path: String::new() }
}

fn node(value: Value) -> Annotated {
    Annotated { value: Some(value), meta: no_notes() }
}

fn gone() -> Annotated {
    Annotated { value: None, meta: no_notes() }
}

fn text(s: &str) -> Annotated {
    node(Value::String(s.to_string()))
}

fn object(entries: Vec<(&str, Annotated)>) -> Annotated {
    node(Value::Object(entries.into_iter().map(|(k, v)| (k.to_string(), v)).collect()))
}

fn array(items: Vec<Annotated>) -> Annotated {
    node(Value::Array(items))
}

/// {"level": "warning", "extra": {"foo": [1, 2, 3, "127.0.0.1"], "message": "hello"}}
fn sample() -> Annotated {
    object(vec![
        ("level", text("warning")),
        (
            "extra",
            object(vec![
                (
                    "foo",
                    array(vec![
                        node(Value::U64(1)),
                        node(Value::U64(2)),
                        node(Value::U64(3)),
                        text("127.0.0.1"),
                    ]),
                ),
                ("message", text("hello")),
            ]),
        ),
    ])
}

#[test]
fn empty_path_addresses_the_root() {
    let root = sample();
    assert_eq!(get_value_by_path(&root, ""), Some(&root));
}

#[test]
fn single_dot_addresses_the_root() {
    let root = sample();
    assert_eq!(get_value_by_path(&root, "."), Some(&root));
}

#[test]
fn key_addresses_an_entry() {
    let root = sample();
    assert_eq!(get_value_by_path(&root, "level"), Some(&text("warning")));
}

#[test]
fn nested_keys_address_nested_entries() {
    let root = sample();
    assert_eq!(get_value_by_path(&root, "extra.message"), Some(&text("hello")));
}

#[test]
fn index_addresses_an_element() {
    let root = sample();
    assert_eq!(get_value_by_path(&root, "extra.foo.0"), Some(&node(Value::U64(1))));
    assert_eq!(get_value_by_path(&root, "extra.foo.3"), Some(&text("127.0.0.1")));
}

#[test]
fn index_may_have_leading_zeros_or_a_plus() {
    let root = sample();
    assert_eq!(get_value_by_path(&root, "extra.foo.03"), Some(&text("127.0.0.1")));
    assert_eq!(get_value_by_path(&root, "extra.foo.+2"), Some(&node(Value::U64(3))));
}

#[test]
fn missing_key_finds_nothing() {
    let root = sample();
    assert_eq!(get_value_by_path(&root, "extra.bar"), None);
    assert_eq!(get_value_by_path(&root, "nothing"), None);
}

#[test]
fn index_past_the_end_finds_nothing() {
    let root = sample();
    assert_eq!(get_value_by_path(&root, "extra.foo.4"), None);
}

#[test]
fn index_too_large_for_the_machine_finds_nothing() {
    let root = sample();
    assert_eq!(get_value_by_path(&root, "extra.foo.99999999999999999999999999999999"), None);
}

#[test]
fn segment_that_is_no_index_finds_nothing_in_a_sequence() {
    let root = sample();
    assert_eq!(get_value_by_path(&root, "extra.foo.first"), None);
    assert_eq!(get_value_by_path(&root, "extra.foo.-1"), None);
    assert_eq!(get_value_by_path(&root, "extra.foo.1x"), None);
    assert_eq!(get_value_by_path(&root, "extra.foo.+"), None);
}

#[test]
fn path_past_a_leaf_finds_nothing() {
    let root = sample();
    assert_eq!(get_value_by_path(&root, "level.more"), None);
    assert_eq!(get_value_by_path(&root, "extra.foo.0.more"), None);
}

#[test]
fn path_below_a_redacted_node_finds_nothing() {
    let root = object(vec![("secret", gone())]);
    assert_eq!(get_value_by_path(&root, "secret"), Some(&gone()));
    assert_eq!(get_value_by_path(&root, "secret.inner"), None);
}

#[test]
fn trailing_separator_addresses_the_same_node() {
    let root = sample();
    assert_eq!(get_value_by_path(&root, "level."), Some(&text("warning")));
    assert_eq!(get_value_by_path(&root, "level.."), Some(&text("warning")));
}

#[test]
fn empty_segment_finds_nothing() {
    let root = sample();
    assert_eq!(get_value_by_path(&root, "extra..foo"), None);
    assert_eq!(get_value_by_path(&root, ".level"), None);
    assert_eq!(get_value_by_path(&root, ".."), None);
    assert_eq!(get_value_by_path(&root, "level..."), None);
}

#[test]
fn first_entry_of_a_name_is_the_one_found() {
    let root = object(vec![("twice", text("first")), ("twice", text("second"))]);
    assert_eq!(get_value_by_path(&root, "twice"), Some(&text("first")));
}

#[test]
fn non_ascii_keys_are_found() {
    let root = object(vec![("größe", object(vec![("näme", text("x"))]))]);
    assert_eq!(get_value_by_path(&root, "größe.näme"), Some(&text("x")));
}

#[test]
fn same_raw_value_ignores_notes() {
    let plain = text("card");
    let noted = Annotated {
        value: Some(Value::String("card".to_string())),
        meta: Meta {
            remarks: vec!["masked".to_string()],
            errors: vec!["oops".to_string()],
            path: "message".to_string(),
        },
    };
    assert!(same_raw_value(&plain, &noted));
    assert_ne!(plain, noted);
}

#[test]
fn same_raw_value_ignores_notes_below() {
    let noted_child = Annotated {
        value: Some(Value::U64(1)),
        meta: Meta { remarks: vec!["r".to_string()], errors: Vec::new(), path: "a.0".to_string() },
    };
    let one = object(vec![("a", array(vec![noted_child]))]);
    let other = object(vec![("a", array(vec![node(Value::U64(1))]))]);
    assert!(same_raw_value(&one, &other));
}

#[test]
fn same_raw_value_tells_shapes_apart() {
    assert!(!same_raw_value(&text("a"), &text("b")));
    assert!(!same_raw_value(&text("1"), &node(Value::U64(1))));
    assert!(!same_raw_value(&node(Value::U64(1)), &node(Value::I64(1))));
    assert!(!same_raw_value(&node(Value::Float(1)), &node(Value::U64(1))));
    assert!(!same_raw_value(&node(Value::Bool(true)), &node(Value::Bool(false))));
    assert!(!same_raw_value(&node(Value::Null), &gone()));
    assert!(!same_raw_value(&gone(), &text("a")));
    assert!(!same_raw_value(&array(vec![text("a")]), &array(vec![text("a"), text("a")])));
    assert!(!same_raw_value(&array(vec![text("a")]), &array(vec![gone()])));
    assert!(!same_raw_value(
        &object(vec![("k", text("a"))]),
        &object(vec![("l", text("a"))])
    ));
    assert!(!same_raw_value(
        &object(vec![("k", text("a"))]),
        &object(vec![("k", text("b"))])
    ));
    assert!(!same_raw_value(&object(vec![]), &array(vec![])));
}

#[test]
fn same_raw_value_holds_of_equal_shapes() {
    assert!(same_raw_value(&gone(), &gone()));
    assert!(same_raw_value(&node(Value::Null), &node(Value::Null)));
    assert!(same_raw_value(&node(Value::Float(7)), &node(Value::Float(7))));
    assert!(same_raw_value(&node(Value::I64(-3)), &node(Value::I64(-3))));
    assert!(same_raw_value(&sample(), &sample()));
}

#[test]
fn same_value_compares_raw_values() {
    assert!(same_value(&Value::U64(4), &Value::U64(4)));
    assert!(!same_value(&Value::U64(4), &Value::U64(5)));
    assert!(same_value(&Value::Array(vec![gone()]), &Value::Array(vec![gone()])));
}

#[test]
fn same_found_treats_a_miss_like_a_node_without_value() {
    let redacted = gone();
    let present = text("x");
    assert!(same_found(None, None));
    assert!(same_found(None, Some(&redacted)));
    assert!(same_found(Some(&redacted), None));
    assert!(!same_found(None, Some(&present)));
    assert!(!same_found(Some(&present), None));
    assert!(same_found(Some(&present), Some(&present)));
    assert!(!same_found(Some(&present), Some(&redacted)));
}

#[test]
fn strip_sidecar_takes_the_reserved_entry_out() {
    let result = object(vec![
        ("message", text("x")),
        ("_meta", object(vec![("message", text("notes"))])),
        ("level", text("warning")),
    ]);
    let stripped = strip_sidecar(result);
    assert_eq!(stripped, object(vec![("message", text("x")), ("level", text("warning"))]));
}

#[test]
fn strip_sidecar_leaves_other_documents_alone() {
    assert_eq!(strip_sidecar(sample()), sample());
    assert_eq!(strip_sidecar(text("_meta")), text("_meta"));
    assert_eq!(strip_sidecar(gone()), gone());
    assert_eq!(strip_sidecar(array(vec![text("_meta")])), array(vec![text("_meta")]));
}

#[test]
fn strip_sidecar_only_works_at_the_top() {
    let nested = object(vec![("extra", object(vec![("_meta", text("kept"))]))]);
    assert_eq!(
        strip_sidecar(nested),
        object(vec![("extra", object(vec![("_meta", text("kept"))]))])
    );
}

#[test]
fn strip_sidecar_keeps_the_notes_of_the_root() {
    let meta = || Meta { remarks: vec!["r".to_string()], errors: Vec::new(), path: "".to_string() };
    let result = Annotated {
        value: Some(Value::Object(vec![("_meta".to_string(), text("n"))])),
        meta: meta(),
    };
    let stripped = strip_sidecar(result);
    assert_eq!(stripped.meta, meta());
    assert_eq!(stripped.value, Some(Value::Object(Vec::new())));
}

#[test]
fn chars_of_gives_the_characters() {
    assert_eq!(chars_of("a.bé"), vec!['a', '.', 'b', 'é']);
    assert_eq!(chars_of(""), Vec::<char>::new());
}

#[test]
fn segment_end_finds_the_next_separator() {
    let path = chars_of("ab.c..d");
    assert_eq!(segment_end(&path, 0), 2);
    assert_eq!(segment_end(&path, 2), 2);
    assert_eq!(segment_end(&path, 3), 4);
    assert_eq!(segment_end(&path, 5), 5);
    assert_eq!(segment_end(&path, 6), 7);
    assert_eq!(segment_end(&path, 7), 7);
}

#[test]
fn parse_index_in_reads_decimal_digits() {
    let path = chars_of("a.120.+7.x9.007");
    assert_eq!(parse_index_in(&path, 2, 5), Some(120));
    assert_eq!(parse_index_in(&path, 6, 8), Some(7));
    assert_eq!(parse_index_in(&path, 9, 11), None);
    assert_eq!(parse_index_in(&path, 12, 15), Some(7));
    assert_eq!(parse_index_in(&path, 2, 2), None);
    assert_eq!(parse_index_in(&path, 6, 7), None);
}

#[test]
fn parse_index_in_reads_the_largest_index() {
    let written = usize::MAX.to_string();
    let path = chars_of(&written);
    assert_eq!(parse_index_in(&path, 0, path.len()), Some(usize::MAX));
    let beyond = format!("{}0", written);
    let path = chars_of(&beyond);
    assert_eq!(parse_index_in(&path, 0, path.len()), None);
}

#[test]
fn same_text_compares_characters() {
    assert!(same_text("rules", &"rules".to_string()));
    assert!(!same_text("rules", &"rule".to_string()));
    assert!(!same_text("", &"x".to_string()));
}

#[test]
fn holds_text_finds_a_name() {
    let names = vec!["a".to_string(), "b".to_string()];
    assert!(holds_text(&names, &"b".to_string()));
    assert!(!holds_text(&names, &"c".to_string()));
    assert!(!holds_text(&Vec::new(), &"a".to_string()));
}

#[test]
fn path_below_joins_with_a_separator() {
    assert_eq!(path_below("", "extra"), "extra");
    assert_eq!(path_below("extra", "foo"), "extra.foo");
    assert_eq!(path_below("extra.foo", "3"), "extra.foo.3");
    assert_eq!(path_below("größe", "näme"), "größe.näme");
}

#[test]
fn path_below_addresses_the_child() {
    let root = sample();
    let extra = path_below("", "extra");
    let foo = path_below(&extra, "foo");
    let third = path_below(&foo, "2");
    assert_eq!(get_value_by_path(&root, &extra), get_value_by_path(&root, "extra"));
    assert_eq!(
        get_value_by_path(&root, &foo),
        get_value_by_path(get_value_by_path(&root, &extra).unwrap(), "foo")
    );
    assert_eq!(get_value_by_path(&root, &third), Some(&node(Value::U64(3))));
    assert_eq!(get_value_by_path(&root, &path_below(&foo, "9")), None);
    assert_eq!(get_value_by_path(&root, &path_below("missing", "foo")), None);
}

#[test]
fn the_two_zeros_are_one_number() {
    let zero = 0u64;
    let minus_zero = 0x8000_0000_0000_0000u64;
    assert_eq!(float_key_of(minus_zero), 0);
    assert_eq!(float_key_of(zero), 0);
    assert_eq!(float_key_of(0x3ff0_0000_0000_0000), 0x3ff0_0000_0000_0000);
    assert!(same_raw_value(&node(Value::Float(zero)), &node(Value::Float(minus_zero))));
    assert!(same_value(&Value::Float(minus_zero), &Value::Float(zero)));
    assert!(!same_value(&Value::Float(1), &Value::Float(minus_zero)));
    let one = 0x3ff0_0000_0000_0000u64;
    let minus_one = 0xbff0_0000_0000_0000u64;
    assert!(!same_value(&Value::Float(one), &Value::Float(minus_one)));
}
