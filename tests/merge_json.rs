use walla::merge::{ArrayBehavior, MergeSettings, NullBehavior};
use walla::value::Value;

fn from_json(v: serde_json::Value) -> Value {
    match v {
        serde_json::Value::Null => Value::Null,
        serde_json::Value::Bool(b) => Value::Bool(b),
        serde_json::Value::Number(n) => Value::Number(n.to_string()),
        serde_json::Value::String(s) => Value::String(s),
        serde_json::Value::Array(xs) => Value::Array(xs.into_iter().map(from_json).collect()),
        serde_json::Value::Object(m) => {
            Value::Object(m.into_iter().map(|(k, v)| (k, from_json(v))).collect())
        }
    }
}

fn json(text: &str) -> Value {
    from_json(serde_json::from_str(text).unwrap())
}

fn defaults() -> MergeSettings {
    MergeSettings::default()
}

#[test]
fn default_settings_merge_json_basic() {
    let settings = defaults();
    assert_eq!(settings.null_behavior, NullBehavior::Merge);

    assert_eq!(settings.merge(json("\"hello\""), json("\"world\"")), json("\"world\""));
    assert_eq!(settings.merge(json("\"hello\""), json("100")), json("100"));
    assert_eq!(settings.merge(json("\"hello\""), Value::Null), Value::Null);
    assert_eq!(settings.merge(json("100"), json("100.0")), json("100.0"));
}

#[test]
fn merge_ignore_null_behavior() {
    let mut settings = defaults();
    settings.null_behavior = NullBehavior::Ignore;

    assert_eq!(settings.merge(json("\"hello\""), Value::Null), json("\"hello\""));
    assert_eq!(settings.merge(Value::Null, Value::Null), Value::Null);
    assert_eq!(settings.merge(Value::Null, json("\"goodbye\"")), json("\"goodbye\""));
}

#[test]
fn default_settings_merge_json_arrays() {
    let settings = defaults();
    assert_eq!(settings.array_behavior, ArrayBehavior::Concat);

    assert_eq!(settings.merge(json("[]"), json("[]")), json("[]"));
    assert_eq!(
        settings.merge(json(r#"["a","b","c","d","e"]"#), json(r#"["a","b","d","e","f"]"#)),
        json(r#"["a","b","c","d","e","a","b","d","e","f"]"#)
    );
    assert_eq!(
        settings.merge(
            json(r#"[{"hello":"sun"},{"goodbye":"moon"}]"#),
            json(r#"[{"goodbye":"moon"},{"hello":"sun"}]"#)
        ),
        json(r#"[{"hello":"sun"},{"goodbye":"moon"},{"goodbye":"moon"},{"hello":"sun"}]"#)
    );
}

#[test]
fn merge_union_array_behavior() {
    let mut settings = defaults();
    settings.array_behavior = ArrayBehavior::Union;

    assert_eq!(settings.merge(json("[]"), json("[]")), json("[]"));
    assert_eq!(
        settings.merge(json(r#"["a","b","c","d","e"]"#), json(r#"["a","b","d","e","f"]"#)),
        json(r#"["a","b","c","d","e","f"]"#)
    );
    assert_eq!(
        settings.merge(
            json(r#"[{"hello":"sun"},{"goodbye":"moon"}]"#),
            json(r#"[{"goodbye":"moon"},{"hello":"sun"}]"#)
        ),
        json(r#"[{"hello":"sun"},{"goodbye":"moon"}]"#)
    );
}

#[test]
fn merge_merge_array_behavior() {
    let mut settings = defaults();
    settings.array_behavior = ArrayBehavior::Merge;

    assert_eq!(settings.merge(json("[]"), json("[]")), json("[]"));
    assert_eq!(
        settings.merge(json(r#"["a","b","c","d","e"]"#), json(r#"["a","b","d","e","f"]"#)),
        json(r#"["a","b","d","e","f"]"#)
    );
    assert_eq!(
        settings.merge(
            json(r#"[{"goodbye":"sun"},{"hello":"moon","something":"else"}]"#),
            json(r#"[{"goodbye":"moon"},{"hello":"sun","or":"this"}]"#)
        ),
        json(r#"[{"goodbye":"moon"},{"hello":"sun","something":"else","or":"this"}]"#)
    );
}

#[test]
fn merge_replace_array_behavior() {
    let mut settings = defaults();
    settings.array_behavior = ArrayBehavior::Replace;

    assert_eq!(settings.merge(json("[]"), json("[]")), json("[]"));
    assert_eq!(
        settings.merge(json(r#"["a","b","c","d","e"]"#), json(r#"["a","b","d","e","f"]"#)),
        json(r#"["a","b","d","e","f"]"#)
    );
    assert_eq!(
        settings.merge(
            json(r#"[{"hello":"sun"},{"goodbye":"moon","something":"else"}]"#),
            json(r#"[{"goodbye":"moon"},{"hello":"sun","or":"this"}]"#)
        ),
        json(r#"[{"goodbye":"moon"},{"hello":"sun","or":"this"}]"#)
    );
}

#[test]
fn default_settings_merge_json_objects() {
    let settings = defaults();

    assert_eq!(settings.merge(json("{}"), json("{}")), json("{}"));
    assert_eq!(
        settings.merge(
            json(r#"{"hello":"sun","goodbye":"moon","other":100}"#),
            json(r#"{"hello":"moon","goodbye":"sun","also-other":100}"#)
        ),
        json(r#"{"hello":"moon","goodbye":"sun","other":100,"also-other":100}"#)
    );
    assert_eq!(
        settings.merge(json(r#"{"hello":"sun","goodbye":"moon","other":100}"#), json("{}")),
        json(r#"{"hello":"sun","goodbye":"moon","other":100}"#)
    );
    assert_eq!(
        settings.merge(
            json(r#"{"hello":"sun","goodbye":{"type":"planet","name":"pluto"}}"#),
            json(r#"{"hello":"moon","goodbye":{"type":"dwarf planet"}}"#)
        ),
        json(r#"{"hello":"moon","goodbye":{"type":"dwarf planet","name":"pluto"}}"#)
    );
}
