use kv_server::json::Json;
use kv_server::path::parse_path;
use kv_server::storage::{Error, Storage};

fn to_json(v: serde_json::Value) -> Json {
    match v {
        serde_json::Value::Null => Json::Null,
        serde_json::Value::Bool(b) => Json::Bool(b),
        serde_json::Value::Number(n) => Json::Number(n.to_string()),
        serde_json::Value::String(s) => Json::Str(s),
        serde_json::Value::Array(items) => Json::Array(items.into_iter().map(to_json).collect()),
        serde_json::Value::Object(m) => {
            Json::Object(m.into_iter().map(|(k, v)| (k, to_json(v))).collect())
        }
    }
}

fn parsed(payload: &str) -> Option<Json> {
    serde_json::from_str::<serde_json::Value>(payload).ok().map(to_json)
}

fn update(s: &mut Storage, path: &str, payload: &str) -> Result<(), Error> {
    s.update(path, payload, parsed(payload))
}

fn obj(members: Vec<(&str, Json)>) -> Json {
    Json::Object(members.into_iter().map(|(k, v)| (k.to_string(), v)).collect())
}

fn empty() -> Storage {
    Storage::from_file(None, None)
}

#[test]
fn scenario_nested_string_then_conflict_then_delete() {
    let mut s = empty();
    assert_eq!(update(&mut s, "a/b", "\"x\""), Ok(()));
    assert_eq!(s.get(""), Some(&obj(vec![("a", obj(vec![("b", Json::Str("x".to_string()))]))])));
    assert_eq!(s.get("a/b"), Some(&Json::Str("x".to_string())));
    assert_eq!(update(&mut s, "a/b/c", "1"), Err(Error::NotAnObject("b".to_string())));
    assert_eq!(s.delete("a/b"), Ok(()));
    assert_eq!(s.get(""), Some(&obj(vec![("a", obj(vec![]))])));
    assert_eq!(s.get("a/b"), None);
}

#[test]
fn number_payload_is_stored_as_number() {
    let mut s = empty();
    assert_eq!(update(&mut s, "count", "5"), Ok(()));
    assert_eq!(s.get("count"), Some(&Json::Number("5".to_string())));
}

#[test]
fn bare_text_payload_is_stored_as_string() {
    let mut s = empty();
    assert_eq!(update(&mut s, "name", "hello"), Ok(()));
    assert_eq!(s.get("name"), Some(&Json::Str("hello".to_string())));
}

#[test]
fn get_returns_what_update_wrote() {
    let mut s = empty();
    assert_eq!(update(&mut s, "x/y/z", "[1, true, null]"), Ok(()));
    assert_eq!(
        s.get("x/y/z"),
        Some(&Json::Array(vec![Json::Number("1".to_string()), Json::Bool(true), Json::Null]))
    );
    assert_eq!(update(&mut s, "x/y", "{\"k\": \"v\"}"), Ok(()));
    assert_eq!(s.get("x/y/k"), Some(&Json::Str("v".to_string())));
    assert_eq!(s.get("x/y/z"), None);
}

#[test]
fn update_overwrites_in_place() {
    let mut s = empty();
    assert_eq!(update(&mut s, "a", "1"), Ok(()));
    assert_eq!(update(&mut s, "b", "2"), Ok(()));
    assert_eq!(update(&mut s, "a", "3"), Ok(()));
    assert_eq!(
        s.get(""),
        Some(&obj(vec![
            ("a", Json::Number("3".to_string())),
            ("b", Json::Number("2".to_string())),
        ]))
    );
}

#[test]
fn append_overwrites_like_update() {
    let mut s = empty();
    assert_eq!(update(&mut s, "a/b", "1"), Ok(()));
    assert_eq!(s.append("a/b", "{\"c\": 2}", parsed("{\"c\": 2}")), Ok(()));
    assert_eq!(s.get("a/b"), Some(&obj(vec![("c", Json::Number("2".to_string()))])));
    assert_eq!(s.append("", "1", parsed("1")), Err(Error::NoKey));
}

#[test]
fn delete_then_get_is_absent() {
    let mut s = empty();
    assert_eq!(update(&mut s, "p/q", "true"), Ok(()));
    assert_eq!(update(&mut s, "p/r", "false"), Ok(()));
    assert_eq!(s.delete("/p/q/"), Ok(()));
    assert_eq!(s.get("p/q"), None);
    assert_eq!(s.get("p/r"), Some(&Json::Bool(false)));
}

#[test]
fn delete_of_absent_member_changes_nothing() {
    let mut s = empty();
    assert_eq!(update(&mut s, "a/b", "1"), Ok(()));
    assert_eq!(s.delete("a/zz"), Ok(()));
    assert_eq!(s.delete("nothing"), Ok(()));
    assert_eq!(s.get(""), Some(&obj(vec![("a", obj(vec![("b", Json::Number("1".to_string()))]))])));
}

#[test]
fn delete_below_missing_objects_creates_them() {
    let mut s = empty();
    assert_eq!(s.delete("m/n/o"), Ok(()));
    assert_eq!(s.get(""), Some(&obj(vec![("m", obj(vec![("n", obj(vec![]))]))])));
}

#[test]
fn get_of_empty_path_is_root() {
    let mut s = empty();
    assert_eq!(s.get(""), Some(&obj(vec![])));
    assert_eq!(s.get("///"), Some(&obj(vec![])));
    assert_eq!(update(&mut s, "k", "null"), Ok(()));
    assert_eq!(s.get(""), Some(&obj(vec![("k", Json::Null)])));
}

#[test]
fn path_forms_are_equivalent() {
    let mut s = empty();
    assert_eq!(update(&mut s, "a/b", "7"), Ok(()));
    let seven = Some(&Json::Number("7".to_string()));
    assert_eq!(s.get("/a//b/"), seven);
    assert_eq!(s.get("a/b"), seven);
    assert_eq!(s.get("/a/b"), seven);
}

#[test]
fn parse_path_drops_empty_segments() {
    assert_eq!(parse_path("/a//b/"), vec!["a".to_string(), "b".to_string()]);
    assert_eq!(parse_path("a/b"), vec!["a".to_string(), "b".to_string()]);
    assert_eq!(parse_path(""), Vec::<String>::new());
    assert_eq!(parse_path("//"), Vec::<String>::new());
    assert_eq!(parse_path("é/ü x"), vec!["é".to_string(), "ü x".to_string()]);
}

#[test]
fn write_through_scalar_fails_and_changes_nothing() {
    let mut s = empty();
    assert_eq!(update(&mut s, "a/s", "\"text\""), Ok(()));
    let before = obj(vec![("a", obj(vec![("s", Json::Str("text".to_string()))]))]);
    assert_eq!(update(&mut s, "a/s/t/u", "1"), Err(Error::NotAnObject("s".to_string())));
    assert_eq!(s.delete("a/s/t"), Err(Error::NotAnObject("s".to_string())));
    assert_eq!(s.get(""), Some(&before));
}

#[test]
fn write_through_array_fails() {
    let mut s = empty();
    assert_eq!(update(&mut s, "list", "[1]"), Ok(()));
    assert_eq!(update(&mut s, "list/0", "2"), Err(Error::NotAnObject("list".to_string())));
    assert_eq!(s.get("list/0"), None);
}

#[test]
fn empty_path_has_no_key() {
    let mut s = empty();
    assert_eq!(update(&mut s, "", "1"), Err(Error::NoKey));
    assert_eq!(update(&mut s, "//", "1"), Err(Error::NoKey));
    assert_eq!(s.delete("/"), Err(Error::NoKey));
    assert_eq!(s.get(""), Some(&obj(vec![])));
}

#[test]
fn from_file_keeps_loaded_tree_and_path() {
    let loaded = parsed("{\"a\": {\"b\": [1, 2.5]}}");
    let s = Storage::from_file(Some("db/data.json".to_string()), loaded);
    assert_eq!(s.file(), Some(&"db/data.json".to_string()));
    assert_eq!(
        s.get("a/b"),
        Some(&Json::Array(vec![Json::Number("1".to_string()), Json::Number("2.5".to_string())]))
    );
    assert_eq!(empty().file(), None);
}
