use snapsign::canon::canonical_json_bytes;
use snapsign::json::Json;

fn b(s: &str) -> Vec<u8> {
    s.as_bytes().to_vec()
}

fn obj(entries: Vec<(&str, Json)>) -> Json {
    Json::Obj(entries.into_iter().map(|(k, v)| (b(k), v)).collect())
}

#[test]
fn scalars_serialize_compactly() {
    assert_eq!(canonical_json_bytes(&Json::Null), b"null".to_vec());
    assert_eq!(canonical_json_bytes(&Json::Bool(true)), b"true".to_vec());
    assert_eq!(canonical_json_bytes(&Json::Bool(false)), b"false".to_vec());
    assert_eq!(canonical_json_bytes(&Json::Int(0)), b"0".to_vec());
    assert_eq!(canonical_json_bytes(&Json::Int(-42)), b"-42".to_vec());
    assert_eq!(
        canonical_json_bytes(&Json::Int(i64::MAX)),
        b"9223372036854775807".to_vec()
    );
    assert_eq!(
        canonical_json_bytes(&Json::Int(i64::MIN)),
        b"-9223372036854775808".to_vec()
    );
}

#[test]
fn strings_escape_like_standard_json() {
    let raw = "a\"b\\c\nd\t\r\u{8}\u{c}e";
    let ours = canonical_json_bytes(&Json::Str(b(raw)));
    let reference = serde_json::to_vec(&serde_json::Value::String(raw.to_string())).unwrap();
    assert_eq!(ours, reference);
}

#[test]
fn control_bytes_use_u_escapes() {
    let ours = canonical_json_bytes(&Json::Str(vec![0x01, 0x1f]));
    assert_eq!(ours, b"\"\\u0001\\u001f\"".to_vec());
}

#[test]
fn arrays_preserve_order() {
    let v = Json::Arr(vec![Json::Int(2), Json::Int(1), Json::Str(b("x"))]);
    assert_eq!(canonical_json_bytes(&v), b"[2,1,\"x\"]".to_vec());
}

#[test]
fn object_keys_are_sorted() {
    let v = obj(vec![
        ("b", obj(vec![("z", Json::Int(1)), ("a", Json::Int(2))])),
        ("a", Json::Arr(vec![Json::Int(1), Json::Int(2)])),
    ]);
    assert_eq!(
        canonical_json_bytes(&v),
        b"{\"a\":[1,2],\"b\":{\"a\":2,\"z\":1}}".to_vec()
    );
}

#[test]
fn key_order_does_not_matter() {
    let v1 = obj(vec![
        ("a", Json::Int(1)),
        ("b", Json::Int(2)),
        ("signing", obj(vec![])),
    ]);
    let v2 = obj(vec![
        ("b", Json::Int(2)),
        ("a", Json::Int(1)),
        ("signing", obj(vec![])),
    ]);
    let b1 = canonical_json_bytes(&v1);
    let b2 = canonical_json_bytes(&v2);
    assert_eq!(b1, b2);
    assert_eq!(b1, b"{\"a\":1,\"b\":2,\"signing\":{}}".to_vec());
}

#[test]
fn matches_serde_json_compact_form() {
    let v = obj(vec![
        ("k", Json::Str(b("v"))),
        ("n", Json::Int(-7)),
        ("l", Json::Arr(vec![Json::Null, Json::Bool(false)])),
    ]);
    let reference: serde_json::Value =
        serde_json::from_str("{\"n\": -7, \"k\": \"v\", \"l\": [null, false]}").unwrap();
    let mut sorted = serde_json::Map::new();
    if let serde_json::Value::Object(m) = reference {
        let mut keys: Vec<String> = m.keys().cloned().collect();
        keys.sort();
        for k in keys {
            sorted.insert(k.clone(), m[&k].clone());
        }
    }
    let expected = serde_json::to_vec(&serde_json::Value::Object(sorted)).unwrap();
    assert_eq!(canonical_json_bytes(&v), expected);
}
