use cafetera::codec::{parse, render};
use cafetera::json::{
    as_text, check_filters, field_as_text, field_is, get_field, is_well_formed, JsonValue,
};
use cafetera::pointer::{exchange, find_slot, locate_in, node_ref};
use cafetera::text::split_segments;

fn text(s: &str) -> JsonValue {
    JsonValue::String(s.to_string())
}

fn number(n: u64) -> JsonValue {
    JsonValue::Number(serde_json::Number::from(n))
}

fn object(entries: Vec<(&str, JsonValue)>) -> JsonValue {
    JsonValue::Object(entries.into_iter().map(|(k, v)| (k.to_string(), v)).collect())
}

fn pair(key: &str, value: &str) -> (String, String) {
    (key.to_string(), value.to_string())
}

#[test]
fn parse_reads_every_kind_of_value() {
    assert_eq!(parse("null"), Some(JsonValue::Null));
    assert_eq!(parse("true"), Some(JsonValue::Bool(true)));
    assert_eq!(parse("12"), Some(number(12)));
    assert_eq!(parse("\"a\\nb\""), Some(text("a\nb")));
    assert_eq!(
        parse("[1, [2], {}]"),
        Some(JsonValue::Array(vec![
            number(1),
            JsonValue::Array(vec![number(2)]),
            JsonValue::Object(Vec::new()),
        ]))
    );
    assert_eq!(
        parse(" {\"b\": 1, \"a\": {\"c\": null}} "),
        Some(object(vec![("b", number(1)), ("a", object(vec![("c", JsonValue::Null)]))]))
    );
}

#[test]
fn parse_rejects_what_is_not_json() {
    assert_eq!(parse(""), None);
    assert_eq!(parse("invalid_json"), None);
    assert_eq!(parse("{\"a\":}"), None);
    assert_eq!(parse("[1,]"), None);
    assert_eq!(parse("1 2"), None);
}

#[test]
fn parse_keeps_the_last_of_a_repeated_key() {
    let value = parse("{\"a\":1,\"b\":2,\"a\":3}").unwrap();
    assert_eq!(value, object(vec![("a", number(3)), ("b", number(2))]));
    assert!(is_well_formed(&value));
}

#[test]
fn render_writes_compact_text_in_entry_order() {
    let value = object(vec![
        ("z", JsonValue::Array(vec![number(1), JsonValue::Bool(false), JsonValue::Null])),
        ("a", text("q\"uote")),
    ]);
    assert_eq!(
        render(&value),
        Some("{\"z\":[1,false,null],\"a\":\"q\\\"uote\"}".to_string())
    );
}

#[test]
fn render_undoes_parse() {
    let source = "{\"list\":[{\"id\":\"1\",\"v\":1.5},{\"id\":-2,\"v\":[]}],\"on\":true}";
    let value = parse(source).unwrap();
    assert_eq!(render(&value), Some(source.to_string()));
    assert_eq!(parse(&render(&value).unwrap()), Some(value));
}

#[test]
fn clone_holds_the_same_tree() {
    let value = parse("{\"a\":[1,{\"b\":\"c\"}],\"d\":null}").unwrap();
    let copy = value.clone();
    assert_eq!(copy, value);
    assert_eq!(render(&copy), render(&value));
}

#[test]
fn a_repeated_key_is_not_well_formed() {
    assert!(is_well_formed(&object(vec![("a", number(1)), ("b", number(2))])));
    assert!(!is_well_formed(&object(vec![("a", number(1)), ("a", number(2))])));
    let inner = object(vec![("k", JsonValue::Null), ("k", JsonValue::Null)]);
    assert!(!is_well_formed(&JsonValue::Array(vec![number(1), inner.clone()])));
    assert!(!is_well_formed(&object(vec![("x", inner)])));
    assert!(is_well_formed(&JsonValue::Array(Vec::new())));
    assert!(is_well_formed(&JsonValue::Null));
}

#[test]
fn a_field_is_found_by_its_key() {
    let value = object(vec![("a", number(1)), ("b", text("two"))]);
    assert_eq!(get_field(&value, "b"), Some(&text("two")));
    assert_eq!(get_field(&value, "c"), None);
    assert_eq!(get_field(&number(1), "a"), None);
    assert_eq!(get_field(&JsonValue::Array(vec![value.clone()]), "a"), None);
}

#[test]
fn a_string_stands_for_its_characters() {
    assert_eq!(as_text(&text("a b")), Some("a b".to_string()));
    assert_eq!(as_text(&number(7)), Some("7".to_string()));
    assert_eq!(as_text(&JsonValue::Bool(true)), Some("true".to_string()));
    assert_eq!(as_text(&JsonValue::Null), Some("null".to_string()));
    assert_eq!(
        as_text(&JsonValue::Array(vec![text("x")])),
        Some("[\"x\"]".to_string())
    );
}

#[test]
fn a_missing_field_reads_as_null() {
    let value = object(vec![("a", text("x"))]);
    assert_eq!(field_as_text(&value, "a"), Some("x".to_string()));
    assert_eq!(field_as_text(&value, "b"), Some("null".to_string()));
    assert_eq!(field_as_text(&number(3), "a"), Some("null".to_string()));
    assert!(field_is(&value, "a", "x"));
    assert!(!field_is(&value, "a", "\"x\""));
    assert!(field_is(&value, "b", "null"));
}

#[test]
fn every_filter_must_hold() {
    let value = object(vec![("a", text("x")), ("n", number(1))]);
    assert!(check_filters(&value, &Vec::new()));
    assert!(check_filters(&value, &vec![pair("a", "x")]));
    assert!(check_filters(&value, &vec![pair("a", "x"), pair("n", "1")]));
    assert!(check_filters(&value, &vec![pair("n", "1"), pair("a", "x")]));
    assert!(!check_filters(&value, &vec![pair("a", "x"), pair("n", "2")]));
    assert!(!check_filters(&value, &vec![pair("a", "x"), pair("a", "y")]));
}

#[test]
fn an_array_child_is_found_by_id_then_by_index() {
    let list = parse("[{\"id\":\"b\"},{\"id\":2},{\"id\":\"0\"},7]").unwrap();
    assert_eq!(find_slot(&list, "b"), Some(0));
    assert_eq!(find_slot(&list, "2"), Some(1));
    assert_eq!(find_slot(&list, "0"), Some(2));
    assert_eq!(find_slot(&list, "1"), Some(1));
    assert_eq!(find_slot(&list, "3"), Some(3));
    assert_eq!(find_slot(&list, "4"), None);
    assert_eq!(find_slot(&list, "x"), None);
}

#[test]
fn an_object_child_is_found_by_key() {
    let value = parse("{\"a\":1,\"0\":2}").unwrap();
    assert_eq!(find_slot(&value, "a"), Some(0));
    assert_eq!(find_slot(&value, "0"), Some(1));
    assert_eq!(find_slot(&value, "1"), None);
    assert_eq!(find_slot(&text("a"), "a"), None);
    assert_eq!(find_slot(&JsonValue::Null, "0"), None);
}

#[test]
fn a_path_leads_to_a_location() {
    let doc = parse("{\"a\":{\"b\":[10,{\"id\":\"k\",\"c\":true}]}}").unwrap();
    let segs = split_segments("/a//b/k/c");
    let loc = locate_in(&doc, &segs, segs.len()).unwrap();
    assert_eq!(loc, vec![0, 0, 1, 1]);
    assert_eq!(node_ref(&doc, &loc), &JsonValue::Bool(true));
    assert_eq!(locate_in(&doc, &segs, 3), Some(vec![0]));
    assert_eq!(locate_in(&doc, &segs, 0), Some(Vec::new()));
    let missing = split_segments("/a/x");
    assert_eq!(locate_in(&doc, &missing, missing.len()), None);
    let below = split_segments("/a/b/0/x");
    assert_eq!(locate_in(&doc, &below, below.len()), None);
}

#[test]
fn exchange_replaces_one_node() {
    let mut doc = parse("{\"a\":[1,2,3],\"b\":\"x\"}").unwrap();
    let segs = split_segments("/a/1");
    let loc = locate_in(&doc, &segs, segs.len()).unwrap();
    let previous = exchange(&mut doc, &loc, text("two"));
    assert_eq!(previous, number(2));
    assert_eq!(render(&doc), Some("{\"a\":[1,\"two\",3],\"b\":\"x\"}".to_string()));
    let whole = exchange(&mut doc, &Vec::new(), JsonValue::Null);
    assert_eq!(render(&whole), Some("{\"a\":[1,\"two\",3],\"b\":\"x\"}".to_string()));
    assert_eq!(doc, JsonValue::Null);
}
