use std::cell::RefCell;

use piinguin::annotated::{get_value_by_path, same_found, Annotated, Meta, StrippedEvent, Value};
use piinguin::document::Json;
use piinguin::suggestions::{
    candidate_edits, get_rule_suggestions_for_value, last_segment_of, pii_kind_names,
    rule_does_something, select_suggestions, PiiRuleSuggestion, SuggestError,
};
use piinguin::types::PiiConfig;

fn no_notes() -> Meta {
    Meta { remarks: Vec::new(), errors: Vec::new(), path: String::new() }
}

fn node(value: Value) -> Annotated {
    Annotated { value: Some(value), meta: no_notes() }
}

fn redacted(remark: &str) -> Annotated {
    Annotated {
        value: None,
        meta: Meta { remarks: vec![remark.to_string()], errors: Vec::new(), path: String::new() },
    }
}

fn text(s: &str) -> Annotated {
    node(Value::String(s.to_string()))
}

fn object(entries: Vec<(&str, Annotated)>) -> Annotated {
    node(Value::Object(entries.into_iter().map(|(k, v)| (k.to_string(), v)).collect()))
}

fn s(text: &str) -> Json {
    Json::String(text.to_string())
}

fn list(names: &[&str]) -> Json {
    Json::Array(names.iter().map(|name| s(name)).collect())
}

fn json_object(entries: Vec<(&str, Json)>) -> Json {
    Json::Object(entries.into_iter().map(|(k, v)| (k.to_string(), v)).collect())
}

fn config(entries: Vec<(&str, Json)>) -> PiiConfig {
    PiiConfig(entries.into_iter().map(|(k, v)| (k.to_string(), v)).collect())
}

fn names(all: &[&str]) -> Vec<String> {
    all.iter().map(|name| name.to_string()).collect()
}

fn key_rule(key: &str) -> Json {
    json_object(vec![("type", s("redact-pair")), ("keyPattern", s(key))])
}

fn section<'a>(config: &'a PiiConfig, name: &str) -> Option<&'a Json> {
    config.0.iter().find(|(key, _)| key == name).map(|(_, value)| value)
}

/// The rules that `config` applies to any of `kinds`, or the reason why it
/// cannot be read.
fn applied(config: &PiiConfig, kinds: &[&str]) -> Result<Vec<String>, String> {
    let mut rules = Vec::new();
    match section(config, "applications") {
        None => {}
        Some(Json::Object(applications)) => {
            for (kind, applied) in applications {
                match applied {
                    Json::Array(items) => {
                        for item in items {
                            match item {
                                Json::String(rule) => {
                                    if kinds.contains(&kind.as_str()) {
                                        rules.push(rule.clone());
                                    }
                                }
                                _ => return Err("bad rule".to_string()),
                            }
                        }
                    }
                    _ => return Err("bad kind".to_string()),
                }
            }
        }
        Some(_) => return Err("bad applications".to_string()),
    }
    Ok(rules)
}

/// The key that the rule `name` takes away, where `config` defines it so.
fn removed_key(config: &PiiConfig, name: &str) -> Option<String> {
    match section(config, "rules") {
        Some(Json::Object(rules)) => match rules.iter().find(|(key, _)| key == name) {
            Some((_, Json::Object(fields))) => {
                let is_pair = fields
                    .iter()
                    .any(|(key, value)| key == "type" && *value == s("redact-pair"));
                let pattern = fields.iter().find(|(key, _)| key == "keyPattern");
                match (is_pair, pattern) {
                    (true, Some((_, Json::String(key)))) => Some(key.clone()),
                    _ => None,
                }
            }
            _ => None,
        },
        _ => None,
    }
}

/// A stand-in for the engine. It works on the event
/// `{"message": "card 1234-1234-1234-1234", "level": "warning",
///   "extra": {"foo": "bar", "id": "d/deadbeef"}}`.
/// `@creditcard` masks the card number in texts and `@fail` makes the engine
/// fail; a rule defined to take away a key takes the value of every entry of
/// that name. Rules count where they are applied to `**`, to `$string`, or to
/// the path of the value.
fn engine(config: &PiiConfig) -> Result<StrippedEvent, String> {
    let everywhere = applied(config, &["**", "$string"])?;
    let on_message = applied(config, &["**", "$string", "message"])?;
    let on_foo = applied(config, &["**", "$string", "extra.foo"])?;
    let anywhere = applied(
        config,
        &["**", "$string", "$object", "message", "extra.foo", "extra.id", "level"],
    )?;
    if anywhere.iter().any(|rule| rule == "@fail") {
        return Err("the engine failed".to_string());
    }
    let gone: Vec<String> =
        anywhere.iter().filter_map(|rule| removed_key(config, rule)).collect();
    let entry = |key: &str, value: Annotated| -> Annotated {
        if gone.iter().any(|name| name == key) {
            redacted("removed")
        } else {
            value
        }
    };
    let message = if on_message.iter().any(|rule| rule == "@creditcard") {
        text("card ****-****-****-1234")
    } else {
        text("card 1234-1234-1234-1234")
    };
    let foo = if on_foo.iter().any(|rule| rule == "@shout") { text("BAR") } else { text("bar") };
    let id = if everywhere.iter().any(|rule| rule == "device_id") {
        text("d/****")
    } else {
        text("d/deadbeef")
    };
    Ok(object(vec![
        ("message", entry("message", message)),
        ("level", entry("level", text("warning"))),
        (
            "extra",
            entry("extra", object(vec![("foo", entry("foo", foo)), ("id", entry("id", id))])),
        ),
        ("_meta", object(vec![("message", text("notes"))])),
    ]))
}

fn builtin() -> Vec<String> {
    names(&["@creditcard", "@ip", "@shout"])
}

fn search(start: &PiiConfig, path: &str) -> Result<Vec<PiiRuleSuggestion>, SuggestError> {
    get_rule_suggestions_for_value(&engine, start, path, &builtin())
}

fn shown(config: &PiiConfig, path: &str) -> Option<Value> {
    let result = config.strip_event(&engine).expect("the engine answers");
    match get_value_by_path(&result, path) {
        Some(found) => match &found.value {
            Some(Value::String(text)) => Some(Value::String(text.clone())),
            Some(Value::Object(_)) => Some(Value::Object(Vec::new())),
            Some(_) => Some(Value::Null),
            None => None,
        },
        None => None,
    }
}

#[test]
fn masking_the_card_number_is_suggested() {
    let start = config(vec![]);
    let card = Value::String("card 1234-1234-1234-1234".to_string());
    assert_eq!(shown(&start, "message"), Some(card));
    let found = search(&start, "message").expect("the search succeeds");
    let wanted = PiiRuleSuggestion::ActivateRule {
        pii_kind: "$string".to_string(),
        rule: "@creditcard".to_string(),
        config: config(vec![(
            "applications",
            json_object(vec![("$string", list(&["@creditcard"]))]),
        )]),
    };
    assert!(found.contains(&wanted));
    let after = shown(wanted.config(), "message");
    assert_ne!(after, Some(Value::String("card 1234-1234-1234-1234".to_string())));
    assert_eq!(after, Some(Value::String("card ****-****-****-1234".to_string())));
}

#[test]
fn search_in_an_empty_configuration_finds_these() {
    let found = search(&config(vec![]), "message").expect("the search succeeds");
    let activate = |kind: &str| PiiRuleSuggestion::ActivateRule {
        pii_kind: kind.to_string(),
        rule: "@creditcard".to_string(),
        config: config(vec![("applications", json_object(vec![(kind, list(&["@creditcard"]))]))]),
    };
    let remove = |kind: &str| PiiRuleSuggestion::RemoveKeyNamed {
        pii_kind: kind.to_string(),
        key_name: "message".to_string(),
        config: config(vec![
            ("rules", json_object(vec![("remove_message", key_rule("message"))])),
            ("applications", json_object(vec![(kind, list(&["remove_message"]))])),
        ]),
    };
    assert_eq!(
        found,
        vec![
            activate("**"),
            remove("**"),
            activate("$string"),
            remove("$string"),
            remove("$object"),
            activate("message"),
            remove("message"),
        ]
    );
}

#[test]
fn removing_the_key_is_suggested() {
    let start = config(vec![]);
    let found = search(&start, "extra.foo").expect("the search succeeds");
    let wanted = PiiRuleSuggestion::RemoveKeyNamed {
        pii_kind: "$object".to_string(),
        key_name: "foo".to_string(),
        config: config(vec![
            ("rules", json_object(vec![("remove_foo", key_rule("foo"))])),
            ("applications", json_object(vec![("$object", list(&["remove_foo"]))])),
        ]),
    };
    assert!(found.contains(&wanted));
    assert_eq!(shown(&start, "extra.foo"), Some(Value::String("bar".to_string())));
    assert_eq!(shown(wanted.config(), "extra.foo"), None);
    let result = wanted.config().strip_event(&engine).expect("the engine answers");
    assert_eq!(get_value_by_path(&result, "extra.foo"), Some(&redacted("removed")));
    assert_eq!(get_value_by_path(&result, "extra.id"), Some(&text("d/deadbeef")));
}

#[test]
fn every_suggestion_changes_the_value() {
    let start = config(vec![
        ("rules", json_object(vec![("device_id", json_object(vec![("type", s("pattern"))]))])),
        ("applications", json_object(vec![("$string", list(&["@creditcard", "device_id"]))])),
    ]);
    for path in ["message", "extra.foo", "extra.id", "level", "extra", "missing", ""] {
        let before = start.strip_event(&engine).expect("the engine answers");
        let found = search(&start, path).expect("the search succeeds");
        for suggestion in &found {
            let after = suggestion.config().strip_event(&engine).expect("the engine answers");
            assert!(!same_found(
                get_value_by_path(&after, path),
                get_value_by_path(&before, path)
            ));
        }
    }
}

#[test]
fn every_suggestion_comes_from_the_known_rules_and_kinds() {
    let start = config(vec![
        ("rules", json_object(vec![("device_id", json_object(vec![("type", s("pattern"))]))])),
        ("applications", json_object(vec![("$string", list(&["@creditcard"]))])),
    ]);
    let path = "extra.id";
    let rules = start.get_known_rules(&builtin());
    let mut kinds = pii_kind_names();
    kinds.push(path.to_string());
    let found = search(&start, path).expect("the search succeeds");
    assert!(!found.is_empty());
    for suggestion in &found {
        assert!(kinds.contains(&suggestion.pii_kind().to_string()));
        match suggestion {
            PiiRuleSuggestion::ActivateRule { rule, .. } => assert!(rules.contains(rule)),
            PiiRuleSuggestion::DeactivateRule { rule, .. } => assert!(rules.contains(rule)),
            PiiRuleSuggestion::RemoveKeyNamed { key_name, .. } => assert_eq!(key_name, "id"),
        }
    }
}

#[test]
fn custom_rules_are_tried() {
    let start = config(vec![(
        "rules",
        json_object(vec![("device_id", json_object(vec![("type", s("pattern"))]))]),
    )]);
    let found = search(&start, "extra.id").expect("the search succeeds");
    let wanted = PiiRuleSuggestion::ActivateRule {
        pii_kind: "**".to_string(),
        rule: "device_id".to_string(),
        config: config(vec![
            ("rules", json_object(vec![("device_id", json_object(vec![("type", s("pattern"))]))])),
            ("applications", json_object(vec![("**", list(&["device_id"]))])),
        ]),
    };
    assert_eq!(found.first(), Some(&wanted));
}

#[test]
fn taking_a_rule_away_is_suggested() {
    let start = config(vec![(
        "applications",
        json_object(vec![("$string", list(&["@ip", "@creditcard"]))]),
    )]);
    let found = search(&start, "message").expect("the search succeeds");
    let wanted = PiiRuleSuggestion::DeactivateRule {
        pii_kind: "$string".to_string(),
        rule: "@creditcard".to_string(),
        config: config(vec![("applications", json_object(vec![("$string", list(&["@ip"]))]))]),
    };
    assert!(found.contains(&wanted));
    assert!(!found.iter().any(|suggestion| matches!(
        suggestion,
        PiiRuleSuggestion::ActivateRule { .. }
    )));
    assert!(!found.iter().any(|suggestion| matches!(
        suggestion,
        PiiRuleSuggestion::DeactivateRule { rule, .. } if rule == "@ip"
    )));
}

#[test]
fn two_searches_find_the_same() {
    let start = config(vec![("applications", json_object(vec![("**", list(&["@shout"]))]))]);
    let first = search(&start, "extra.foo").expect("the search succeeds");
    let second = search(&start, "extra.foo").expect("the search succeeds");
    assert!(!first.is_empty());
    assert_eq!(first, second);
}

#[test]
fn search_leaves_the_configuration_alone() {
    let start = config(vec![("applications", json_object(vec![("**", list(&["@shout"]))]))]);
    let copy = start.clone();
    let _ = search(&start, "extra.foo");
    assert_eq!(start, copy);
}

#[test]
fn suggestions_come_kind_by_kind() {
    let found = search(&config(vec![]), "extra.foo").expect("the search succeeds");
    let kinds: Vec<&str> = found.iter().map(|suggestion| suggestion.pii_kind()).collect();
    assert_eq!(kinds, vec!["**", "**", "$string", "$string", "$object", "extra.foo", "extra.foo"]);
    assert!(matches!(
        &found[0],
        PiiRuleSuggestion::ActivateRule { rule, .. } if rule == "@shout"
    ));
    assert!(matches!(
        &found[1],
        PiiRuleSuggestion::RemoveKeyNamed { key_name, .. } if key_name == "foo"
    ));
}

#[test]
fn failure_on_the_configuration_as_it_stands_ends_the_search() {
    let start = config(vec![("applications", json_object(vec![("**", list(&["@fail"]))]))]);
    assert_eq!(
        search(&start, "message"),
        Err(SuggestError::Engine("the engine failed".to_string()))
    );
}

#[test]
fn failure_on_an_edit_only_skips_the_edit() {
    let rules = names(&["@fail", "@creditcard"]);
    let found = get_rule_suggestions_for_value(&engine, &config(vec![]), "message", &rules)
        .expect("the search succeeds");
    assert!(!found.is_empty());
    assert!(!found.iter().any(|suggestion| matches!(
        suggestion,
        PiiRuleSuggestion::ActivateRule { rule, .. } if rule == "@fail"
    )));
    assert!(found.iter().any(|suggestion| matches!(
        suggestion,
        PiiRuleSuggestion::ActivateRule { rule, .. } if rule == "@creditcard"
    )));
}

#[test]
fn section_of_the_wrong_shape_does_not_end_the_search() {
    let lenient = |config: &PiiConfig| -> Result<StrippedEvent, String> {
        if config.0.len() > 1 {
            Ok(object(vec![("a", text("changed"))]))
        } else {
            Ok(object(vec![("a", text("x"))]))
        }
    };
    let bad_rules = config(vec![("rules", Json::Number("5".to_string()))]);
    let found = get_rule_suggestions_for_value(&lenient, &bad_rules, "a", &builtin())
        .expect("only the baseline ends a search");
    assert_eq!(found.len(), 19 * 3);
    assert!(found.iter().all(|suggestion| matches!(
        suggestion,
        PiiRuleSuggestion::ActivateRule { .. }
    )));
    let bad_applications = config(vec![("applications", Json::Null)]);
    assert_eq!(
        get_rule_suggestions_for_value(&lenient, &bad_applications, "a", &builtin()),
        Ok(Vec::new())
    );
    let bad_kind = config(vec![("applications", json_object(vec![("$user", Json::Null)]))]);
    let always = |config: &PiiConfig| -> Result<StrippedEvent, String> {
        if *config == config_with_bad_user() {
            Ok(object(vec![("a", text("x"))]))
        } else {
            Ok(object(vec![("a", text("changed"))]))
        }
    };
    let found = get_rule_suggestions_for_value(&always, &bad_kind, "a", &builtin())
        .expect("only the baseline ends a search");
    assert_eq!(found.len(), 18 * 4);
    assert!(found.iter().all(|suggestion| suggestion.pii_kind() != "$user"));
}

fn config_with_bad_user() -> PiiConfig {
    config(vec![("applications", json_object(vec![("$user", Json::Null)]))])
}

#[test]
fn engine_failure_ends_the_search_whatever_the_configuration() {
    let failing = |_: &PiiConfig| -> Result<StrippedEvent, String> { Err("no".to_string()) };
    let bad_applications = config(vec![("applications", Json::Null)]);
    assert_eq!(
        get_rule_suggestions_for_value(&failing, &bad_applications, "a", &builtin()),
        Err(SuggestError::Engine("no".to_string()))
    );
}

#[test]
fn engine_that_rejects_every_edit_leaves_nothing_to_suggest() {
    let start = config(vec![("applications", json_object(vec![("**", list(&["@ip"]))]))]);
    let picky = |config: &PiiConfig| -> Result<StrippedEvent, String> {
        if *config == start {
            Ok(object(vec![("a", text("x"))]))
        } else {
            Err("rejected".to_string())
        }
    };
    assert_eq!(get_rule_suggestions_for_value(&picky, &start, "a", &builtin()), Ok(Vec::new()));
}

#[test]
fn engine_is_asked_with_the_configuration_and_with_every_edit() {
    let asked: RefCell<Vec<PiiConfig>> = RefCell::new(Vec::new());
    let recording = |config: &PiiConfig| -> Result<StrippedEvent, String> {
        asked.borrow_mut().push(config.clone());
        engine(config)
    };
    let start = config(vec![("applications", json_object(vec![("$string", list(&["@ip"]))]))]);
    let rules = builtin();
    let found = get_rule_suggestions_for_value(&recording, &start, "message", &rules)
        .expect("the search succeeds");
    let edits = candidate_edits(&start, "message", &rules);
    let asked = asked.into_inner();
    assert_eq!(asked.len(), edits.len() + 1);
    assert_eq!(asked[0], start);
    for (i, edit) in edits.iter().enumerate() {
        assert_eq!(&asked[i + 1], edit.config());
    }
    for suggestion in &found {
        assert!(edits.contains(suggestion));
    }
}

#[test]
fn engine_notes_at_the_top_are_no_value() {
    let start = config(vec![]);
    let result = start.strip_event(&engine).expect("the engine answers");
    assert_eq!(get_value_by_path(&result, "_meta"), None);
    assert_eq!(get_value_by_path(&result, "level"), Some(&text("warning")));
    assert_eq!(search(&start, "_meta.message"), Ok(Vec::new()));
}

#[test]
fn strip_event_hands_on_the_failure() {
    let start = config(vec![("applications", json_object(vec![("**", list(&["@fail"]))]))]);
    assert_eq!(start.strip_event(&engine), Err("the engine failed".to_string()));
}

#[test]
fn candidate_edits_of_an_empty_configuration() {
    let edits = candidate_edits(&config(vec![]), "a.b", &names(&["r1", "r2"]));
    let kinds = pii_kind_names();
    assert_eq!(edits.len(), (kinds.len() + 1) * 3);
    assert_eq!(
        edits[0],
        PiiRuleSuggestion::ActivateRule {
            pii_kind: "**".to_string(),
            rule: "r1".to_string(),
            config: config(vec![("applications", json_object(vec![("**", list(&["r1"]))]))]),
        }
    );
    assert_eq!(
        edits[1],
        PiiRuleSuggestion::ActivateRule {
            pii_kind: "**".to_string(),
            rule: "r2".to_string(),
            config: config(vec![("applications", json_object(vec![("**", list(&["r2"]))]))]),
        }
    );
    assert_eq!(
        edits[2],
        PiiRuleSuggestion::RemoveKeyNamed {
            pii_kind: "**".to_string(),
            key_name: "b".to_string(),
            config: config(vec![
                ("rules", json_object(vec![("remove_b", key_rule("b"))])),
                ("applications", json_object(vec![("**", list(&["remove_b"]))])),
            ]),
        }
    );
    assert_eq!(edits[3].pii_kind(), "$string");
    assert_eq!(edits[edits.len() - 1].pii_kind(), "a.b");
}

#[test]
fn candidate_edits_try_both_directions() {
    let start = config(vec![("applications", json_object(vec![("**", list(&["r1"]))]))]);
    let edits = candidate_edits(&start, "", &names(&["r1", "r2"]));
    assert_eq!(
        edits[0],
        PiiRuleSuggestion::DeactivateRule {
            pii_kind: "**".to_string(),
            rule: "r1".to_string(),
            config: config(vec![("applications", json_object(vec![]))]),
        }
    );
    assert_eq!(
        edits[1],
        PiiRuleSuggestion::ActivateRule {
            pii_kind: "**".to_string(),
            rule: "r2".to_string(),
            config: config(vec![("applications", json_object(vec![("**", list(&["r1", "r2"]))]))]),
        }
    );
    assert_eq!(edits[2].pii_kind(), "$string");
    assert!(!edits.iter().any(|edit| matches!(edit, PiiRuleSuggestion::RemoveKeyNamed { .. })));
}

#[test]
fn candidate_edits_skip_a_key_rule_that_is_applied() {
    let start = config(vec![
        ("rules", json_object(vec![("remove_b", key_rule("b"))])),
        ("applications", json_object(vec![("**", list(&["remove_b"]))])),
    ]);
    let edits = candidate_edits(&start, "a.b", &Vec::new());
    assert_eq!(
        edits[0],
        PiiRuleSuggestion::DeactivateRule {
            pii_kind: "**".to_string(),
            rule: "remove_b".to_string(),
            config: config(vec![
                ("rules", json_object(vec![("remove_b", key_rule("b"))])),
                ("applications", json_object(vec![])),
            ]),
        }
    );
    assert_eq!(edits[1].pii_kind(), "$string");
    assert!(matches!(edits[2], PiiRuleSuggestion::RemoveKeyNamed { .. }));
}

#[test]
fn candidate_edits_leave_out_what_cannot_be_made() {
    let start = config(vec![(
        "applications",
        json_object(vec![("$user", Json::Null), ("**", list(&[]))]),
    )]);
    let edits = candidate_edits(&start, "a", &names(&["r"]));
    assert_eq!(edits.len(), 18 * 2);
    assert!(edits.iter().all(|edit| edit.pii_kind() != "$user"));
    let start = config(vec![("rules", Json::Null), ("applications", Json::Null)]);
    assert_eq!(candidate_edits(&start, "a", &names(&["r"])), Vec::new());
    assert_eq!(candidate_edits(&start, "a.", &Vec::new()), Vec::new());
    let start = config(vec![("rules", Json::Bool(true))]);
    let edits = candidate_edits(&start, "a", &names(&["r"]));
    assert_eq!(edits.len(), 19);
    assert!(edits.iter().all(|edit| matches!(edit, PiiRuleSuggestion::ActivateRule { .. })));
}

#[test]
fn rule_does_something_compares_raw_values() {
    let before = object(vec![("a", text("x")), ("b", redacted("r"))]);
    let old_a = get_value_by_path(&before, "a");
    let old_b = get_value_by_path(&before, "b");
    let same = Ok(object(vec![("a", text("x"))]));
    let other = Ok(object(vec![("a", text("y"))]));
    let missing = Ok(object(vec![]));
    let failed = Err("no".to_string());
    assert!(!rule_does_something(old_a, &same, "a"));
    assert!(rule_does_something(old_a, &other, "a"));
    assert!(rule_does_something(old_a, &missing, "a"));
    assert!(!rule_does_something(old_a, &failed, "a"));
    assert!(!rule_does_something(old_b, &missing, "b"));
    assert!(rule_does_something(old_b, &Ok(object(vec![("b", text("x"))])), "b"));
    assert!(!rule_does_something(None, &missing, "zzz"));
}

#[test]
fn select_suggestions_keeps_the_edits_that_matter() {
    let start = config(vec![]);
    let edits = candidate_edits(&start, "a", &names(&["r1", "r2"]));
    let first = edits[0].config().clone();
    let third = edits[2].config().clone();
    let old_result = object(vec![("a", text("x"))]);
    let answers = vec![
        Ok(object(vec![("a", text("changed"))])),
        Ok(object(vec![("a", text("x"))])),
        Ok(object(vec![("a", redacted("gone"))])),
        Err("failed".to_string()),
    ];
    let found = select_suggestions(&old_result, edits, &answers, "a");
    assert_eq!(found.len(), 2);
    assert_eq!(found[0].config(), &first);
    assert_eq!(found[1].config(), &third);
}

#[test]
fn select_suggestions_of_nothing() {
    let old_result = object(vec![]);
    assert_eq!(select_suggestions(&old_result, Vec::new(), &Vec::new(), "a"), Vec::new());
}

#[test]
fn last_segment_of_a_path() {
    assert_eq!(last_segment_of("extra.foo"), "foo");
    assert_eq!(last_segment_of("message"), "message");
    assert_eq!(last_segment_of("a.b.c.12"), "12");
    assert_eq!(last_segment_of("a."), "");
    assert_eq!(last_segment_of("."), "");
    assert_eq!(last_segment_of(""), "");
    assert_eq!(last_segment_of("größe.näme"), "näme");
}

#[test]
fn pii_kind_names_are_these() {
    assert_eq!(
        pii_kind_names(),
        names(&[
            "**",
            "$string",
            "$number",
            "$boolean",
            "$datetime",
            "$array",
            "$object",
            "$event",
            "$exception",
            "$stacktrace",
            "$frame",
            "$request",
            "$user",
            "$logentry",
            "$thread",
            "$breadcrumb",
            "$span",
            "$sdk",
        ])
    );
}

#[test]
fn suggestion_tells_its_kind_and_configuration() {
    let held = config(vec![("applications", json_object(vec![]))]);
    let suggestion = PiiRuleSuggestion::DeactivateRule {
        pii_kind: "$user".to_string(),
        rule: "@ip".to_string(),
        config: held.clone(),
    };
    assert_eq!(suggestion.pii_kind(), "$user");
    assert_eq!(suggestion.config(), &held);
    let suggestion = PiiRuleSuggestion::RemoveKeyNamed {
        pii_kind: "a.b".to_string(),
        key_name: "b".to_string(),
        config: held.clone(),
    };
    assert_eq!(suggestion.pii_kind(), "a.b");
    let suggestion = PiiRuleSuggestion::ActivateRule {
        pii_kind: "**".to_string(),
        rule: "@ip".to_string(),
        config: held,
    };
    assert_eq!(suggestion.pii_kind(), "**");
}

#[test]
fn search_errors_have_their_words() {
    assert_eq!(SuggestError::Engine("it broke".to_string()).message(), "it broke");
}
