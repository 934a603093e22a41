use cafetera::db_handle::{finish, post_node, patch_node, prune_node, DbHandle};
use cafetera::json::JsonValue;
use hteapot::HttpStatus;

fn object_text(entries: Vec<(&str, serde_json::Value)>) -> String {
    let mut map = serde_json::Map::new();
    for (key, value) in entries {
        map.insert(key.to_string(), value);
    }
    serde_json::Value::Object(map).to_string()
}

fn text_value(s: &str) -> serde_json::Value {
    serde_json::Value::String(s.to_string())
}

fn pair(key: &str, value: &str) -> (String, String) {
    (key.to_string(), value.to_string())
}

fn list_store() -> DbHandle {
    DbHandle::new(
        "/db".to_string(),
        "{\"list\":[{\"id\":\"1\",\"v\":\"a\"},{\"id\":\"2\",\"v\":\"b\"}]}".to_string(),
    )
    .unwrap()
}

fn status_of(result: Result<String, cafetera::db_handle::HttpErr>) -> HttpStatus {
    match result {
        Ok(text) => panic!("expected a failure, got {}", text),
        Err(e) => e.status,
    }
}

#[test]
fn test_dbhandle_new_valid_json() {
    let json_data = object_text(vec![("key", text_value("value"))]);
    let db = DbHandle::new("/test".to_string(), json_data);
    assert!(db.is_ok());
}

#[test]
fn test_dbhandle_new_invalid_json() {
    let json_data = "invalid_json".to_string();
    let db = DbHandle::new("/test".to_string(), json_data);
    assert!(db.is_err());
}

#[test]
fn test_delete_valid_key() {
    let json_data = object_text(vec![(
        "parent",
        serde_json::from_str(&object_text(vec![("child", text_value("value"))])).unwrap(),
    )]);
    let mut db: DbHandle = DbHandle::new("/test".to_string(), json_data).unwrap();
    let result = db.delete("/parent/child".to_string(), Vec::new());
    assert!(result.is_ok())
}

#[test]
fn test_delete_invalid_key() {
    let json_data = object_text(vec![(
        "parent",
        serde_json::from_str(&object_text(vec![("child", text_value("value"))])).unwrap(),
    )]);
    let mut db: DbHandle = DbHandle::new("/test".to_string(), json_data).unwrap();
    let result = db.delete("/paren/non_existent".to_string(), Vec::new());
    assert!(result.is_err());
}

#[test]
fn test_patch_valid_key() {
    let json_data = object_text(vec![(
        "key",
        serde_json::from_str(&object_text(vec![("subkey", text_value("old_value"))])).unwrap(),
    )]);
    let mut db: DbHandle = DbHandle::new("/test".to_string(), json_data).unwrap();
    let patch_body = JsonValue::Object(vec![(
        "subkey".to_string(),
        JsonValue::String("new_value".to_string()),
    )]);
    let result = db.patch("/key".to_string(), Vec::new(), Some(patch_body));
    assert!(result.is_ok());
}

#[test]
fn test_post_valid_key() {
    let json_data = object_text(vec![("list", serde_json::Value::Array(Vec::new()))]);
    let mut db = DbHandle::new("/test".to_string(), json_data).unwrap();
    let post_body = JsonValue::String("new_item".to_string());
    let result = db.post("/list".to_string(), Vec::new(), Some(post_body));
    assert!(result.is_ok());
}

#[test]
fn test_get_valid_key() {
    let json_data = object_text(vec![("key", text_value("value"))]);
    let db = DbHandle::new("/test".to_string(), json_data).unwrap();
    let result = db.get("/key".to_string(), Vec::new());
    assert!(result.is_ok());
}

#[test]
fn test_get_invalid_key() {
    let json_data = object_text(vec![("key", text_value("value"))]);
    let db = DbHandle::new("/test".to_string(), json_data).unwrap();
    let result = db.get("/non_existent".to_string(), Vec::new());
    assert!(result.is_err());
}

#[test]
fn delete_answers_with_the_parent_after_the_removal() {
    let mut db = DbHandle::new(
        "/test".to_string(),
        "{\"parent\":{\"child\":\"value\"}}".to_string(),
    )
    .unwrap();
    let result = db.delete("/parent/child".to_string(), Vec::new());
    assert_eq!(result.ok(), Some("{}".to_string()));
}

#[test]
fn patch_answers_with_the_updated_node() {
    let mut db = DbHandle::new(
        "/test".to_string(),
        "{\"key\":{\"subkey\":\"old_value\"}}".to_string(),
    )
    .unwrap();
    let body = JsonValue::Object(vec![(
        "subkey".to_string(),
        JsonValue::String("new_value".to_string()),
    )]);
    let result = db.patch("/key".to_string(), Vec::new(), Some(body));
    assert_eq!(result.ok(), Some("{\"subkey\":\"new_value\"}".to_string()));
}

#[test]
fn get_of_a_string_answers_with_its_json_text() {
    let db = DbHandle::new("/test".to_string(), "{\"key\":\"value\"}".to_string()).unwrap();
    let result = db.get("/key".to_string(), Vec::new());
    assert_eq!(result.ok(), Some("\"value\"".to_string()));
}

#[test]
fn get_without_filters_returns_every_element() {
    let mut db = list_store();
    let result = db.process("GET", "/db/list".to_string(), Vec::new(), String::new());
    assert_eq!(
        result.ok(),
        Some("[{\"id\":\"1\",\"v\":\"a\"},{\"id\":\"2\",\"v\":\"b\"}]".to_string())
    );
}

#[test]
fn get_with_a_filter_returns_the_matching_elements() {
    let mut db = list_store();
    let result = db.process("GET", "/db/list".to_string(), vec![pair("v", "a")], String::new());
    assert_eq!(result.ok(), Some("[{\"id\":\"1\",\"v\":\"a\"}]".to_string()));
}

#[test]
fn get_with_two_filters_needs_both() {
    let mut db = list_store();
    let both = db.process(
        "GET",
        "/db/list".to_string(),
        vec![pair("v", "b"), pair("id", "2")],
        String::new(),
    );
    assert_eq!(both.ok(), Some("[{\"id\":\"2\",\"v\":\"b\"}]".to_string()));
    let neither = db.process(
        "GET",
        "/db/list".to_string(),
        vec![pair("v", "b"), pair("id", "1")],
        String::new(),
    );
    assert_eq!(neither.ok(), Some("[]".to_string()));
}

#[test]
fn filter_holds_a_number_against_its_json_text() {
    let mut db = DbHandle::new(
        "/db".to_string(),
        "{\"list\":[{\"n\":1},{\"n\":2},{\"n\":\"1\"}]}".to_string(),
    )
    .unwrap();
    let result = db.process("GET", "/db/list".to_string(), vec![pair("n", "1")], String::new());
    assert_eq!(result.ok(), Some("[{\"n\":1},{\"n\":\"1\"}]".to_string()));
}

#[test]
fn post_appends_the_new_element_last() {
    let mut db = list_store();
    let result = db.process(
        "POST",
        "/db/list".to_string(),
        Vec::new(),
        "{\"id\":\"3\",\"v\":\"c\"}".to_string(),
    );
    assert_eq!(
        result.ok(),
        Some(
            "[{\"id\":\"1\",\"v\":\"a\"},{\"id\":\"2\",\"v\":\"b\"},{\"id\":\"3\",\"v\":\"c\"}]"
                .to_string()
        )
    );
    let third = db.process("GET", "/db/list/3".to_string(), Vec::new(), String::new());
    assert_eq!(third.ok(), Some("{\"id\":\"3\",\"v\":\"c\"}".to_string()));
}

#[test]
fn post_on_an_object_merges_the_body() {
    let mut db = DbHandle::new("/db".to_string(), "{\"cfg\":{\"b\":1,\"a\":2}}".to_string())
        .unwrap();
    let result = db.process(
        "POST",
        "/db/cfg".to_string(),
        Vec::new(),
        "{\"a\":3,\"c\":4}".to_string(),
    );
    assert_eq!(result.ok(), Some("{\"b\":1,\"a\":3,\"c\":4}".to_string()));
}

#[test]
fn post_with_an_unreadable_body_is_a_bad_request() {
    let mut db = list_store();
    let result = db.process("POST", "/db/list".to_string(), Vec::new(), "{oops".to_string());
    assert!(status_of(result) == HttpStatus::BadRequest);
    let list = db.process("GET", "/db/list".to_string(), Vec::new(), String::new());
    assert_eq!(
        list.ok(),
        Some("[{\"id\":\"1\",\"v\":\"a\"},{\"id\":\"2\",\"v\":\"b\"}]".to_string())
    );
}

#[test]
fn post_of_a_non_object_on_an_object_is_a_bad_request() {
    let mut db = list_store();
    let result = db.process("POST", "/db".to_string(), Vec::new(), "[1]".to_string());
    assert!(status_of(result) == HttpStatus::BadRequest);
}

#[test]
fn post_on_an_unknown_path_is_a_bad_request() {
    let mut db = list_store();
    let result = db.process("POST", "/db/nothing".to_string(), Vec::new(), "1".to_string());
    match result {
        Ok(_) => panic!("expected a failure"),
        Err(e) => {
            assert!(e.status == HttpStatus::BadRequest);
            assert_eq!(e.text, "Invalid Path");
        }
    }
}

#[test]
fn patch_updates_known_keys_and_ignores_new_ones() {
    let mut db = list_store();
    let result = db.process(
        "PATCH",
        "/db/list/1".to_string(),
        Vec::new(),
        "{\"v\":\"z\",\"new\":\"x\"}".to_string(),
    );
    assert_eq!(result.ok(), Some("{\"id\":\"1\",\"v\":\"z\"}".to_string()));
    let list = db.process("GET", "/db/list".to_string(), Vec::new(), String::new());
    assert_eq!(
        list.ok(),
        Some("[{\"id\":\"1\",\"v\":\"z\"},{\"id\":\"2\",\"v\":\"b\"}]".to_string())
    );
}

#[test]
fn patch_on_an_array_is_a_bad_request() {
    let mut db = list_store();
    let result = db.process(
        "PATCH",
        "/db/list".to_string(),
        Vec::new(),
        "{\"v\":\"z\"}".to_string(),
    );
    assert!(status_of(result) == HttpStatus::BadRequest);
}

#[test]
fn patch_without_an_object_body_is_a_bad_request() {
    let mut db = list_store();
    let result = db.process("PATCH", "/db/list/1".to_string(), Vec::new(), "7".to_string());
    match result {
        Ok(_) => panic!("expected a failure"),
        Err(e) => {
            assert!(e.status == HttpStatus::BadRequest);
            assert_eq!(e.text, "Invalid Body");
        }
    }
}

#[test]
fn patch_on_an_unknown_path_is_not_found() {
    let mut db = list_store();
    let result = db.process("PATCH", "/db/none".to_string(), Vec::new(), "{}".to_string());
    assert!(status_of(result) == HttpStatus::NotFound);
}

#[test]
fn delete_by_index_shifts_the_later_elements() {
    let mut db = list_store();
    let result = db.process("DELETE", "/db/list/0".to_string(), Vec::new(), String::new());
    assert_eq!(result.ok(), Some("[{\"id\":\"2\",\"v\":\"b\"}]".to_string()));
    let first = db.process("GET", "/db/list/0".to_string(), Vec::new(), String::new());
    assert_eq!(first.ok(), Some("{\"id\":\"2\",\"v\":\"b\"}".to_string()));
}

#[test]
fn delete_with_filters_removes_the_matching_elements() {
    let mut db = list_store();
    let result = db.process(
        "DELETE",
        "/db/list".to_string(),
        vec![pair("v", "a")],
        String::new(),
    );
    assert_eq!(result.ok(), Some("[{\"id\":\"2\",\"v\":\"b\"}]".to_string()));
}

#[test]
fn delete_with_filters_needs_an_array() {
    let mut db = list_store();
    let result = db.process(
        "DELETE",
        "/db/list/1".to_string(),
        vec![pair("v", "a")],
        String::new(),
    );
    assert!(status_of(result) == HttpStatus::BadRequest);
}

#[test]
fn delete_of_the_whole_document_is_a_bad_request() {
    let mut db = list_store();
    let result = db.process("DELETE", "/db".to_string(), Vec::new(), String::new());
    match result {
        Ok(_) => panic!("expected a failure"),
        Err(e) => {
            assert!(e.status == HttpStatus::BadRequest);
            assert_eq!(e.text, "Can't remove all the db");
        }
    }
}

#[test]
fn delete_of_an_index_out_of_bounds_changes_nothing() {
    let mut db = list_store();
    let result = db.process("DELETE", "/db/list/7".to_string(), Vec::new(), String::new());
    assert_eq!(
        result.ok(),
        Some("[{\"id\":\"1\",\"v\":\"a\"},{\"id\":\"2\",\"v\":\"b\"}]".to_string())
    );
}

#[test]
fn an_id_wins_over_an_index() {
    let mut db = DbHandle::new(
        "/db".to_string(),
        "{\"list\":[{\"id\":\"1\",\"v\":\"a\"},{\"id\":\"0\",\"v\":\"b\"}]}".to_string(),
    )
    .unwrap();
    let result = db.process("GET", "/db/list/0".to_string(), Vec::new(), String::new());
    assert_eq!(result.ok(), Some("{\"id\":\"0\",\"v\":\"b\"}".to_string()));
}

#[test]
fn a_number_id_is_found_by_its_digits() {
    let mut db = DbHandle::new(
        "/db".to_string(),
        "{\"list\":[{\"id\":7,\"v\":\"a\"},{\"id\":8,\"v\":\"b\"}]}".to_string(),
    )
    .unwrap();
    let result = db.process("GET", "/db/list/8/v".to_string(), Vec::new(), String::new());
    assert_eq!(result.ok(), Some("\"b\"".to_string()));
}

#[test]
fn empty_segments_are_passed_over() {
    let mut db = list_store();
    let result = db.process("GET", "/db//list//1/v/".to_string(), Vec::new(), String::new());
    assert_eq!(result.ok(), Some("\"a\"".to_string()));
}

#[test]
fn a_null_node_is_not_found() {
    let mut db = DbHandle::new("/db".to_string(), "{\"gone\":null,\"zero\":0}".to_string())
        .unwrap();
    let gone = db.process("GET", "/db/gone".to_string(), Vec::new(), String::new());
    assert!(status_of(gone) == HttpStatus::NotFound);
    let zero = db.process("GET", "/db/zero".to_string(), Vec::new(), String::new());
    assert_eq!(zero.ok(), Some("0".to_string()));
}

#[test]
fn get_on_an_unknown_path_is_not_found() {
    let mut db = list_store();
    let result = db.process("GET", "/db/list/9".to_string(), Vec::new(), String::new());
    assert!(status_of(result) == HttpStatus::NotFound);
}

#[test]
fn a_scalar_has_no_children() {
    let mut db = list_store();
    let result = db.process("GET", "/db/list/1/v/x".to_string(), Vec::new(), String::new());
    assert!(status_of(result) == HttpStatus::NotFound);
}

#[test]
fn an_unknown_method_is_not_allowed() {
    let mut db = list_store();
    let result = db.process("PUT", "/db/list".to_string(), Vec::new(), String::new());
    match result {
        Ok(_) => panic!("expected a failure"),
        Err(e) => {
            assert!(e.status == HttpStatus::MethodNotAllowed);
            assert_eq!(e.text, "Method Not Allowed");
        }
    }
}

#[test]
fn a_path_outside_the_mount_is_a_bad_request() {
    let mut db = list_store();
    let result = db.process("GET", "/other/list".to_string(), Vec::new(), String::new());
    assert!(status_of(result) == HttpStatus::BadRequest);
}

#[test]
fn a_mount_path_may_end_with_a_slash() {
    let mut db = DbHandle::new("/db/".to_string(), "{\"a\":1}".to_string()).unwrap();
    let result = db.process("GET", "/db/a".to_string(), Vec::new(), String::new());
    assert_eq!(result.ok(), Some("1".to_string()));
    assert!(db.is_match(&"/db/a".to_string()));
    assert!(!db.is_match(&"/db".to_string()));
}

#[test]
fn two_gets_in_a_row_answer_alike() {
    let mut db = list_store();
    let first = db.process("GET", "/db/list".to_string(), vec![pair("v", "b")], String::new());
    let second = db.process("GET", "/db/list".to_string(), vec![pair("v", "b")], String::new());
    assert_eq!(first.ok(), second.ok());
}

#[test]
fn posts_in_a_row_lose_and_repeat_nothing() {
    let mut db = DbHandle::new("/db".to_string(), "{\"list\":[0]}".to_string()).unwrap();
    for n in 1..6 {
        let body = format!("{}", n);
        assert!(db.process("POST", "/db/list".to_string(), Vec::new(), body).is_ok());
    }
    let list = db.process("GET", "/db/list".to_string(), Vec::new(), String::new());
    assert_eq!(list.ok(), Some("[0,1,2,3,4,5]".to_string()));
}

#[test]
fn a_node_that_was_not_written_is_a_server_error() {
    match finish(None) {
        Ok(_) => panic!("expected a failure"),
        Err(e) => {
            assert!(e.status == HttpStatus::InternalServerError);
            assert_eq!(e.text, "Error parsing result");
        }
    }
}

#[test]
fn the_text_null_is_not_found_and_any_other_text_is_the_answer() {
    assert!(status_of(finish(Some("null".to_string()))) == HttpStatus::NotFound);
    assert_eq!(finish(Some("\"null\"".to_string())).ok(), Some("\"null\"".to_string()));
    assert_eq!(finish(Some("0".to_string())).ok(), Some("0".to_string()));
    assert_eq!(finish(Some(String::new())).ok(), Some(String::new()));
}

#[test]
fn post_on_a_scalar_is_a_bad_request() {
    let (node, failure) = post_node(
        JsonValue::Bool(true),
        Some(JsonValue::Object(Vec::new())),
    );
    assert_eq!(node, JsonValue::Bool(true));
    match failure {
        Some(e) => {
            assert!(e.status == HttpStatus::BadRequest);
            assert_eq!(e.text, "Invalid Path");
        }
        None => panic!("expected a failure"),
    }
}

#[test]
fn post_without_a_body_is_a_bad_request() {
    let (node, failure) = post_node(JsonValue::Array(Vec::new()), None);
    assert_eq!(node, JsonValue::Array(Vec::new()));
    match failure {
        Some(e) => {
            assert!(e.status == HttpStatus::BadRequest);
            assert_eq!(e.text, "Invalid Body");
        }
        None => panic!("expected a failure"),
    }
}

#[test]
fn patch_of_a_scalar_changes_nothing() {
    let body = JsonValue::Object(vec![("a".to_string(), JsonValue::Null)]);
    let (node, failure) = patch_node(JsonValue::String("x".to_string()), Some(body));
    assert_eq!(node, JsonValue::String("x".to_string()));
    assert!(failure.is_none());
    let mut db = DbHandle::new("/db".to_string(), "{\"s\":\"x\"}".to_string()).unwrap();
    let result = db.process("PATCH", "/db/s".to_string(), Vec::new(), "{\"a\":1}".to_string());
    assert_eq!(result.ok(), Some("\"x\"".to_string()));
}

#[test]
fn patch_takes_the_last_value_of_the_body() {
    let mut db = DbHandle::new("/db".to_string(), "{\"o\":{\"a\":1,\"b\":2}}".to_string())
        .unwrap();
    let result = db.process(
        "PATCH",
        "/db/o".to_string(),
        Vec::new(),
        "{\"b\":[true],\"c\":3,\"a\":null}".to_string(),
    );
    assert_eq!(result.ok(), Some("{\"a\":null,\"b\":[true]}".to_string()));
}

#[test]
fn prune_removes_a_key_or_an_index() {
    let object = JsonValue::Object(vec![
        ("a".to_string(), JsonValue::Null),
        ("1".to_string(), JsonValue::Bool(true)),
    ]);
    assert_eq!(
        prune_node(object, "1"),
        JsonValue::Object(vec![("a".to_string(), JsonValue::Null)])
    );
    let list = JsonValue::Array(vec![
        JsonValue::Bool(false),
        JsonValue::Bool(true),
        JsonValue::Null,
    ]);
    assert_eq!(
        prune_node(list, "1"),
        JsonValue::Array(vec![JsonValue::Bool(false), JsonValue::Null])
    );
    assert_eq!(prune_node(JsonValue::Array(Vec::new()), "0"), JsonValue::Array(Vec::new()));
    assert_eq!(prune_node(JsonValue::Bool(true), "0"), JsonValue::Bool(true));
}

#[test]
fn delete_by_position_does_not_look_at_ids() {
    let mut db = list_store();
    let result = db.process("DELETE", "/db/list/1".to_string(), Vec::new(), String::new());
    assert_eq!(result.ok(), Some("[{\"id\":\"1\",\"v\":\"a\"}]".to_string()));
}

#[test]
fn delete_of_a_missing_key_changes_nothing() {
    let mut db = list_store();
    let result = db.process("DELETE", "/db/nothing".to_string(), Vec::new(), String::new());
    assert_eq!(
        result.ok(),
        Some("{\"list\":[{\"id\":\"1\",\"v\":\"a\"},{\"id\":\"2\",\"v\":\"b\"}]}".to_string())
    );
}

#[test]
fn delete_below_an_unknown_parent_is_not_found() {
    let mut db = list_store();
    let result = db.process("DELETE", "/db/none/x".to_string(), Vec::new(), String::new());
    match result {
        Ok(_) => panic!("expected a failure"),
        Err(e) => {
            assert!(e.status == HttpStatus::NotFound);
            assert_eq!(e.text, "Parent not found");
        }
    }
}

#[test]
fn delete_with_filters_that_nothing_meets_changes_nothing() {
    let mut db = list_store();
    let result = db.process(
        "DELETE",
        "/db/list".to_string(),
        vec![pair("v", "a"), pair("id", "2")],
        String::new(),
    );
    assert_eq!(
        result.ok(),
        Some("[{\"id\":\"1\",\"v\":\"a\"},{\"id\":\"2\",\"v\":\"b\"}]".to_string())
    );
}

#[test]
fn a_post_that_moves_the_path_sends_the_next_one_elsewhere() {
    let mut db = DbHandle::new("/db".to_string(), "[{\"id\":[]}]".to_string()).unwrap();
    let first = db.process("POST", "/db/[]/id".to_string(), Vec::new(), "1".to_string());
    assert_eq!(first.ok(), Some("[1]".to_string()));
    let second = db.process("POST", "/db/[]/id".to_string(), Vec::new(), "2".to_string());
    assert!(status_of(second) == HttpStatus::BadRequest);
}

#[test]
fn a_body_with_a_repeated_key_counts_as_no_body() {
    let mut db = list_store();
    let twice = JsonValue::Object(vec![
        ("v".to_string(), JsonValue::Null),
        ("v".to_string(), JsonValue::Bool(true)),
    ]);
    let posted = db.post("/list".to_string(), Vec::new(), Some(twice));
    match posted {
        Ok(_) => panic!("expected a failure"),
        Err(e) => {
            assert!(e.status == HttpStatus::BadRequest);
            assert_eq!(e.text, "Invalid Body");
        }
    }
    let again = JsonValue::Object(vec![
        ("v".to_string(), JsonValue::Null),
        ("v".to_string(), JsonValue::Bool(true)),
    ]);
    let patched = db.patch("/list/1".to_string(), Vec::new(), Some(again));
    assert!(status_of(patched) == HttpStatus::BadRequest);
    assert_eq!(
        db.get("/list".to_string(), Vec::new()).ok(),
        Some("[{\"id\":\"1\",\"v\":\"a\"},{\"id\":\"2\",\"v\":\"b\"}]".to_string())
    );
}

#[test]
fn a_get_shows_what_the_post_answered() {
    let mut db = list_store();
    let posted = db.process("POST", "/db/list".to_string(), Vec::new(), "{\"id\":9}".to_string());
    let shown = db.process("GET", "/db/list".to_string(), Vec::new(), String::new());
    assert!(posted.is_ok());
    assert_eq!(posted.ok(), shown.ok());
}

#[test]
fn what_a_delete_removed_a_get_no_longer_finds() {
    let mut db = list_store();
    let filters = vec![pair("v", "b")];
    assert!(db.process("DELETE", "/db/list".to_string(), filters.clone(), String::new()).is_ok());
    let left = db.process("GET", "/db/list".to_string(), filters, String::new());
    assert_eq!(left.ok(), Some("[]".to_string()));
}
