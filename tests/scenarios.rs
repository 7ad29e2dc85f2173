use walla::archive::{archive_bytes, collect_archived_values, read_archive_value};
use walla::naming::{archive_file_name, archive_read_order, stamp_string, ArchiveStamp};
use walla::read::ReadCommand;
use walla::staging::{archive_for_staging, merge_staging_values, staging_file_path, StagingBudget};
use walla::value::Value;

fn from_json(v: serde_json::Value) -> Value {
    match v {
        serde_json::Value::Null => Value::Null,
        serde_json::Value::Bool(b) => Value::Bool(b),
        serde_json::Value::Number(n) => Value::Number(n.to_string()),
        serde_json::Value::String(s) => Value::String(s),
        serde_json::Value::Array(xs) => Value::Array(xs.into_iter().map(from_json).collect()),
        serde_json::Value::Object(m) => {
            Value::Object(m.into_iter().map(|(k, v)| (k, from_json(v))).collect())
        }
    }
}

fn json(text: &str) -> Value {
    from_json(serde_json::from_str(text).unwrap())
}

fn stamp(year: u16, month: u8, day: u8, hour: u8, minute: u8, second: u8) -> ArchiveStamp {
    ArchiveStamp { year, month, day, hour, minute, second }
}

#[test]
fn staged_lines_roll_into_an_archive_and_read_back() {
    let lines = vec![json(r#"{"a":1}"#), json(r#"{"b":2}"#), json(r#"{"a":3,"c":4}"#)];
    let merged = merge_staging_values(&lines);
    assert_eq!(merged, Some(json(r#"{"a":3,"b":2,"c":4}"#)));
    let file = archive_for_staging(merged).unwrap();
    let archived = collect_archived_values(&vec![file]).unwrap();
    let out = ReadCommand {}.final_value(archived, None);
    assert_eq!(out, Some(json(r#"{"a":3,"b":2,"c":4}"#)));
}

#[test]
fn empty_staging_makes_no_archive() {
    assert_eq!(merge_staging_values(&Vec::new()), None);
    assert_eq!(archive_for_staging(None), None);
}

#[test]
fn default_array_concat_across_lines() {
    let lines = vec![json(r#"{"xs":[1,2]}"#), json(r#"{"xs":[3]}"#)];
    let staged = merge_staging_values(&lines);
    assert_eq!(ReadCommand {}.final_value(None, staged), Some(json(r#"{"xs":[1,2,3]}"#)));
}

#[test]
fn object_key_order_is_kept() {
    let lines = vec![json(r#"{"b":1,"a":2}"#), json(r#"{"c":3,"a":9}"#)];
    let out = merge_staging_values(&lines).unwrap();
    assert_eq!(
        out,
        Value::Object(vec![
            ("b".to_string(), Value::Number("1".to_string())),
            ("a".to_string(), Value::Number("9".to_string())),
            ("c".to_string(), Value::Number("3".to_string())),
        ])
    );
}

#[test]
fn empty_sources_give_nothing() {
    let archived = collect_archived_values(&Vec::new()).unwrap();
    let staged = merge_staging_values(&Vec::new());
    assert_eq!(ReadCommand {}.final_value(archived, staged), None);
}

#[test]
fn number_text_survives_an_archive() {
    let v = json(r#"{"n":10000000000000001}"#);
    let file = archive_bytes(&v);
    let back = read_archive_value(&file).unwrap();
    assert_eq!(
        back,
        Value::Object(vec![("n".to_string(), Value::Number("10000000000000001".to_string()))])
    );
}

#[test]
fn staging_value_is_newest() {
    let archived = Some(json(r#"{"a":1,"b":[1]}"#));
    let staged = Some(json(r#"{"a":2,"b":[2]}"#));
    assert_eq!(
        ReadCommand {}.final_value(archived, staged),
        Some(json(r#"{"a":2,"b":[1,2]}"#))
    );
    assert_eq!(ReadCommand {}.final_value(Some(json("1")), None), Some(json("1")));
}

#[test]
fn staging_fold_is_left_to_right() {
    let lines = vec![json("1"), json("[1]"), json("[2]"), json("null"), json(r#"{"k":true}"#)];
    assert_eq!(merge_staging_values(&lines), Some(json(r#"{"k":true}"#)));
    let lines = vec![json("[1]"), json("[2]"), json("[3]")];
    assert_eq!(merge_staging_values(&lines), Some(json("[1,2,3]")));
}

#[test]
fn budget_counts_initial_length_and_written_bytes() {
    let mut budget = StagingBudget::new(10, 32);
    assert!(!budget.record_line(8));
    assert!(!budget.record_line(14));
    assert_eq!(budget.added_bytes, 22);
    assert!(budget.record_line(1));
    assert_eq!(budget.added_bytes, 23);
    assert_eq!(budget.initial_len, 10);

    let mut full = StagingBudget::new(0, 5);
    assert!(!full.record_line(5));
    assert!(full.record_line(u64::MAX));
    assert_eq!(full.added_bytes, u64::MAX);
}

#[test]
fn staging_path_joins_the_data_directory() {
    assert_eq!(staging_file_path("data"), "data/staging.jsonl");
    assert_eq!(staging_file_path(""), "staging.jsonl");
}

#[test]
fn archive_names_use_dashes() {
    let s = stamp(2024, 6, 19, 19, 22, 45);
    assert!(s.is_valid());
    assert_eq!(stamp_string(&s), "2024-06-19-19-22-45");
    assert_eq!(archive_file_name(&s), "2024-06-19-19-22-45.bin");
    assert_eq!(archive_file_name(&stamp(7, 1, 2, 3, 4, 5)), "0007-01-02-03-04-05.bin");
    assert!(!stamp(2024, 13, 1, 0, 0, 0).is_valid());
}

#[test]
fn archive_names_sort_in_time_order() {
    let times = [
        stamp(2023, 12, 31, 23, 59, 59),
        stamp(2024, 1, 1, 0, 0, 0),
        stamp(2024, 1, 1, 0, 0, 9),
        stamp(2024, 1, 1, 0, 0, 10),
        stamp(2024, 1, 1, 0, 1, 0),
        stamp(2024, 2, 1, 0, 0, 0),
        stamp(2024, 10, 1, 0, 0, 0),
    ];
    for i in 0..times.len() {
        for j in i + 1..times.len() {
            assert!(archive_file_name(&times[i]) < archive_file_name(&times[j]));
        }
    }
}

#[test]
fn archives_are_read_in_name_order() {
    let names: Vec<Vec<u8>> = vec![
        b"2024-06-19-19-22-45.bin".to_vec(),
        b"2023-01-01-00-00-00.bin".to_vec(),
        b"2024-06-19-19-22-44.bin".to_vec(),
        b"2024-06-19-19-22-45.bin.tmp".to_vec(),
        b"2024".to_vec(),
    ];
    assert_eq!(archive_read_order(&names), vec![1, 4, 2, 0, 3]);
    assert_eq!(archive_read_order(&Vec::new()), Vec::<usize>::new());
}
