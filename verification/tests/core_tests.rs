//! The shared utilities on concrete values.

use coding_agent_search::index::tokenize;
use coding_agent_search::json::{parse_json, JsonMember, JsonValue};
use coding_agent_search::paths;
use coding_agent_search::text;
use coding_agent_search::time;

fn s(x: &str) -> JsonValue {
    JsonValue::Str(x.to_string())
}

fn n(x: &str) -> JsonValue {
    JsonValue::Num(x.to_string())
}

#[test]
fn json_decoding_reaches_the_fields() {
    let v = parse_json("{\"a\": 1, \"b\": [true, null, \"x\"], \"t\": \"hi\"}").expect("json");
    assert_eq!(v.get("t").and_then(|x| x.as_str()), Some("hi"));
    assert_eq!(v.get("a").and_then(|x| x.as_num_text()), Some("1"));
    let b = v.get("b").and_then(|x| x.as_arr()).expect("array");
    assert_eq!(b.len(), 3);
    assert!(matches!(b[0], JsonValue::Bool(true)));
    assert!(matches!(b[1], JsonValue::Null));
    assert!(parse_json("{ not json").is_none());
}

#[test]
fn json_keeps_number_text() {
    let v = parse_json("{\"ts\": 1714584005.123456}").expect("json");
    let txt = v.get("ts").and_then(|x| x.as_num_text()).expect("number");
    assert!(txt.starts_with("1714584005.123"));
}

#[test]
fn timestamps_disambiguate_seconds_and_milliseconds() {
    // Seconds are widened by a factor of one thousand.
    assert_eq!(time::parse_timestamp(&n("1714584005")), Some(1_714_584_005_000));
    // Fractional seconds keep their milliseconds, truncated.
    assert_eq!(time::parse_timestamp(&n("1714584005.1239")), Some(1_714_584_005_123));
    // Values above 10^12 already are milliseconds.
    assert_eq!(time::parse_timestamp(&n("1714584005000")), Some(1_714_584_005_000));
    // ISO-8601 text is read by the calendar.
    assert_eq!(time::parse_timestamp(&s("2024-01-01T00:00:00Z")), Some(1_704_067_200_000));
    assert_eq!(time::parse_timestamp(&s("not a date")), None);
    assert_eq!(time::parse_timestamp(&JsonValue::Null), None);
}

#[test]
fn decimal_text_parsing_is_exact() {
    assert_eq!(time::text_seconds_to_millis("1.5"), Some(1500));
    assert_eq!(time::text_seconds_to_millis("-1.5"), Some(-1500));
    assert_eq!(time::text_seconds_to_millis("0.0001"), Some(0));
    assert_eq!(time::text_seconds_to_millis(""), None);
    assert_eq!(time::text_seconds_to_millis("1.2.3"), None);
    assert_eq!(time::text_to_int("12.9"), Some(12));
    assert_eq!(time::text_to_int("-7"), Some(-7));
    assert_eq!(time::text_to_int("x7"), None);
    assert_eq!(time::strict_int_exec("1766137957398"), Some(1766137957398));
    assert_eq!(time::strict_int_exec("12.0"), None);
}

#[test]
fn tokenizer_lowers_and_splits() {
    let toks = tokenize("Hello, WORLD-42!");
    assert_eq!(toks, vec!["hello".to_string(), "world".to_string(), "42".to_string()]);
    let empty: Vec<String> = vec![];
    assert_eq!(tokenize("  ... "), empty);
}

#[test]
fn truncation_respects_character_boundaries() {
    assert_eq!(text::truncate_text("abcd", 3, "..."), "abc...");
    assert_eq!(text::truncate_text("abc", 3, "..."), "abc");
    // A two-byte character does not fit in the last byte and is
    // backed off whole.
    assert_eq!(text::truncate_text("a\u{e9}x", 2, "..."), "a...");
    assert_eq!(text::truncate_text("", 5, "..."), "");
}

#[test]
fn flatten_content_walks_parts_and_text() {
    let v = JsonValue::Obj(vec![JsonMember {
        key: "parts".to_string(),
        value: JsonValue::Arr(vec![s("one"), s(""), s("two")]),
    }]);
    assert_eq!(text::flatten_content(&v), "one\ntwo");
    let t = JsonValue::Obj(vec![JsonMember { key: "text".to_string(), value: s("plain") }]);
    assert_eq!(text::flatten_content(&t), "plain");
    assert_eq!(text::flatten_content(&s("direct")), "direct");
    assert_eq!(text::flatten_content(&JsonValue::Null), "");
}

#[test]
fn first_line_and_take_chars_cut_titles() {
    assert_eq!(text::first_line("a title\nand more"), "a title");
    assert_eq!(text::first_line("windows\r\nline"), "windows");
    assert_eq!(text::first_line("plain"), "plain");
    assert_eq!(text::take_chars("abcdef", 3), "abc");
    assert_eq!(text::take_chars("ab", 90), "ab");
}

#[test]
fn path_helpers_take_paths_apart() {
    assert_eq!(paths::parent_path("/a/b/c.json"), "/a/b");
    assert_eq!(paths::file_name("/a/b/c.json"), "c.json");
    assert_eq!(paths::file_stem("/a/b/session-9.json"), "session-9");
    assert!(paths::path_has_extension("/a/b/c.json", "json"));
    assert!(!paths::path_has_extension("/a/b/c.data", "json"));
    assert!(paths::str_starts_with("/a/b", "/a"));
    assert!(!paths::str_starts_with("/b", "/a"));
    assert!(paths::str_contains("conversations-v2-xyz", "-v2-"));
    assert!(!paths::str_contains("conversations-xyz", "-v2-"));
    let comps = paths::split_components("/x/y/z");
    assert_eq!(comps, vec!["".to_string(), "x".to_string(), "y".to_string(), "z".to_string()]);
}

#[test]
fn default_db_path_names_the_store_file() {
    let p = coding_agent_search::default_db_path();
    assert!(p.ends_with("agent_search.db"));
}

#[test]
fn blank_content_is_recognized() {
    assert!(text::blank("  \t\r\n"));
    assert!(text::blank(""));
    assert!(!text::blank(" x "));
}
