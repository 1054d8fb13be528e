use snapsign::digest::{hash_str, payload_hash_keccak};
use snapsign::json::Json;

fn b(s: &str) -> Vec<u8> {
    s.as_bytes().to_vec()
}

fn obj(entries: Vec<(&str, Json)>) -> Json {
    Json::Obj(entries.into_iter().map(|(k, v)| (b(k), v)).collect())
}

#[test]
fn digest_is_keccak_of_canonical_bytes() {
    let v = obj(vec![("a", Json::Int(1))]);
    let d = payload_hash_keccak(&v);
    let expected = ethers_core::utils::keccak256(b"{\"a\":1}").to_vec();
    assert_eq!(d, expected);
}

#[test]
fn digest_ignores_the_signature_field() {
    let base = obj(vec![("a", Json::Int(1)), ("signing", obj(vec![]))]);
    let with_sig = obj(vec![
        ("a", Json::Int(1)),
        ("signing", obj(vec![("signature", Json::Str(b("anything")))])),
    ]);
    assert_eq!(payload_hash_keccak(&base), payload_hash_keccak(&with_sig));
}

#[test]
fn digest_ignores_stale_managed_fields() {
    let base = obj(vec![("a", Json::Int(1)), ("signing", obj(vec![]))]);
    let resigned = obj(vec![
        ("a", Json::Int(1)),
        (
            "signing",
            obj(vec![
                ("payload_hash", Json::Str(b("keccak256:00"))),
                ("scheme", Json::Str(b("eip191"))),
            ]),
        ),
    ]);
    assert_eq!(payload_hash_keccak(&base), payload_hash_keccak(&resigned));
}

#[test]
fn digest_keeps_caller_metadata_in_signing() {
    let base = obj(vec![("a", Json::Int(1)), ("signing", obj(vec![]))]);
    let with_note = obj(vec![
        ("a", Json::Int(1)),
        ("signing", obj(vec![("note", Json::Str(b("mine")))])),
    ]);
    assert_ne!(payload_hash_keccak(&base), payload_hash_keccak(&with_note));
}

#[test]
fn changing_a_payload_field_changes_the_digest() {
    let v1 = obj(vec![("a", Json::Int(1)), ("signing", obj(vec![]))]);
    let v2 = obj(vec![("a", Json::Int(2)), ("signing", obj(vec![]))]);
    assert_ne!(payload_hash_keccak(&v1), payload_hash_keccak(&v2));
}

#[test]
fn permuted_objects_hash_alike() {
    let v1 = obj(vec![
        ("a", Json::Int(1)),
        ("b", Json::Int(2)),
        ("signing", obj(vec![])),
    ]);
    let v2 = obj(vec![
        ("b", Json::Int(2)),
        ("a", Json::Int(1)),
        ("signing", obj(vec![])),
    ]);
    assert_eq!(payload_hash_keccak(&v1), payload_hash_keccak(&v2));
}

#[test]
fn hash_str_is_prefixed_lowercase_hex() {
    let v = obj(vec![("a", Json::Int(1))]);
    let d = payload_hash_keccak(&v);
    let text = hash_str(&d);
    assert_eq!(text, format!("keccak256:{}", hex::encode(&d)));
    assert_eq!(text.len(), 10 + 64);
}

#[test]
fn digest_text_round_trips_through_the_parser() {
    let v = obj(vec![("a", Json::Int(1))]);
    let d = payload_hash_keccak(&v);
    let text = hash_str(&d).into_bytes();
    assert_eq!(snapsign::verify::parse_hash_field(&text), Ok(d));
}
