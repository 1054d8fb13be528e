use snapsign::digest::{hash_str, payload_hash_keccak};
use snapsign::errors::{AttachError, EncodingFault, FieldKind, KeyError, VerifyError};
use snapsign::json::Json;
use snapsign::sign::{attach_signature, sign_eip191_hash, wallet_from_private_key_hex};
use snapsign::verify::verify_eip191;

const KEY_ONE: &str = "0000000000000000000000000000000000000000000000000000000000000001";
const ADDR_ONE: &str = "7e5f4552091a69125d5dfcb7b8c2659029395bdf";
const KEY_TWO: &str = "0000000000000000000000000000000000000000000000000000000000000002";

fn b(s: &str) -> Vec<u8> {
    s.as_bytes().to_vec()
}

fn obj(entries: Vec<(&str, Json)>) -> Json {
    Json::Obj(entries.into_iter().map(|(k, v)| (b(k), v)).collect())
}

fn sample_snapshot() -> Json {
    obj(vec![
        ("a", Json::Int(1)),
        ("b", Json::Int(2)),
        ("signing", obj(vec![])),
    ])
}

fn get<'a>(v: &'a Json, key: &str) -> Option<&'a Json> {
    match v {
        Json::Obj(es) => es.iter().find(|e| e.0 == b(key)).map(|e| &e.1),
        _ => None,
    }
}

#[test]
fn key_loading_is_prefix_insensitive() {
    let bare = wallet_from_private_key_hex(&b(KEY_ONE)).unwrap();
    let prefixed = wallet_from_private_key_hex(&b(&format!("0x{KEY_ONE}"))).unwrap();
    assert_eq!(bare.address(), prefixed.address());
    assert_eq!(hex::encode(bare.address()), ADDR_ONE);
}

#[test]
fn key_loading_trims_whitespace() {
    let padded = format!("  0x{KEY_ONE}\n");
    let signer = wallet_from_private_key_hex(&b(&padded)).unwrap();
    assert_eq!(hex::encode(signer.address()), ADDR_ONE);
}

#[test]
fn short_and_long_keys_are_rejected() {
    let short = "00".repeat(31);
    let long = "00".repeat(33);
    assert!(matches!(
        wallet_from_private_key_hex(&b(&short)),
        Err(KeyError::InvalidKeyLength { found: 31 })
    ));
    assert!(matches!(
        wallet_from_private_key_hex(&b(&long)),
        Err(KeyError::InvalidKeyLength { found: 33 })
    ));
}

#[test]
fn non_hex_keys_are_rejected() {
    assert!(matches!(
        wallet_from_private_key_hex(&b("zz")),
        Err(KeyError::InvalidHex)
    ));
    let odd = "0".repeat(63);
    assert!(matches!(
        wallet_from_private_key_hex(&b(&odd)),
        Err(KeyError::InvalidHex)
    ));
}

#[test]
fn the_zero_scalar_is_not_a_key() {
    let zero = "00".repeat(32);
    assert!(matches!(
        wallet_from_private_key_hex(&b(&zero)),
        Err(KeyError::InvalidKey)
    ));
}

#[test]
fn sign_then_verify_round_trips() {
    let signer = wallet_from_private_key_hex(&b(KEY_ONE)).unwrap();
    let mut snap = sample_snapshot();
    let digest = payload_hash_keccak(&snap);
    let (sig, addr) = sign_eip191_hash(&signer, &digest).unwrap();
    assert_eq!(sig.len(), 65);
    assert_eq!(addr, *signer.address());
    attach_signature(&mut snap, &digest, &sig).unwrap();
    assert_eq!(verify_eip191(&snap, &addr), Ok(()));
}

#[test]
fn attach_writes_the_three_fields() {
    let signer = wallet_from_private_key_hex(&b(KEY_ONE)).unwrap();
    let mut snap = sample_snapshot();
    let digest = payload_hash_keccak(&snap);
    let (sig, _) = sign_eip191_hash(&signer, &digest).unwrap();
    attach_signature(&mut snap, &digest, &sig).unwrap();
    let signing = get(&snap, "signing").unwrap();
    match get(signing, "payload_hash").unwrap() {
        Json::Str(t) => assert_eq!(String::from_utf8(t.clone()).unwrap(), hash_str(&digest)),
        _ => panic!("payload_hash is not a string"),
    }
    match get(signing, "signature").unwrap() {
        Json::Str(t) => {
            let text = String::from_utf8(t.clone()).unwrap();
            assert_eq!(text, format!("eip191:0x{}", hex::encode(&sig)));
            assert_eq!(text.len(), 9 + 130);
        }
        _ => panic!("signature is not a string"),
    }
    match get(signing, "scheme").unwrap() {
        Json::Str(t) => assert_eq!(t, &b("eip191")),
        _ => panic!("scheme is not a string"),
    }
}

#[test]
fn attach_needs_a_signing_object() {
    let mut no_signing = obj(vec![("a", Json::Int(1))]);
    let digest = vec![0u8; 32];
    let sig = vec![0u8; 65];
    assert_eq!(
        attach_signature(&mut no_signing, &digest, &sig),
        Err(AttachError::MissingSigningBlock)
    );
    let mut wrong_type = obj(vec![("signing", Json::Int(3))]);
    assert_eq!(
        attach_signature(&mut wrong_type, &digest, &sig),
        Err(AttachError::MissingSigningBlock)
    );
}

#[test]
fn tampering_is_detected() {
    let signer = wallet_from_private_key_hex(&b(KEY_ONE)).unwrap();
    let mut snap = sample_snapshot();
    let digest = payload_hash_keccak(&snap);
    let (sig, addr) = sign_eip191_hash(&signer, &digest).unwrap();
    attach_signature(&mut snap, &digest, &sig).unwrap();
    // mutate a payload field after signing
    if let Json::Obj(es) = &mut snap {
        for e in es.iter_mut() {
            if e.0 == b("a") {
                e.1 = Json::Int(999);
            }
        }
    }
    assert_eq!(
        verify_eip191(&snap, &addr),
        Err(VerifyError::PayloadTampered)
    );
}

#[test]
fn wrong_identity_is_detected() {
    let signer = wallet_from_private_key_hex(&b(KEY_ONE)).unwrap();
    let other = wallet_from_private_key_hex(&b(KEY_TWO)).unwrap();
    let mut snap = sample_snapshot();
    let digest = payload_hash_keccak(&snap);
    let (sig, _) = sign_eip191_hash(&signer, &digest).unwrap();
    attach_signature(&mut snap, &digest, &sig).unwrap();
    assert_eq!(
        verify_eip191(&snap, other.address()),
        Err(VerifyError::AddressMismatch)
    );
}

fn snapshot_with_signing(fields: Vec<(&str, Json)>) -> Json {
    obj(vec![("a", Json::Int(1)), ("signing", obj(fields))])
}

#[test]
fn missing_signing_block_is_reported() {
    let addr = vec![0u8; 20];
    let no_signing = obj(vec![("a", Json::Int(1))]);
    assert_eq!(
        verify_eip191(&no_signing, &addr),
        Err(VerifyError::MissingSigningBlock)
    );
    let wrong_type = obj(vec![("signing", Json::Str(b("x")))]);
    assert_eq!(
        verify_eip191(&wrong_type, &addr),
        Err(VerifyError::MissingSigningBlock)
    );
}

#[test]
fn missing_fields_are_reported() {
    let addr = vec![0u8; 20];
    let empty = snapshot_with_signing(vec![]);
    assert_eq!(
        verify_eip191(&empty, &addr),
        Err(VerifyError::MissingField {
            field: FieldKind::PayloadHash
        })
    );
    let only_hash = snapshot_with_signing(vec![(
        "payload_hash",
        Json::Str(b(&format!("keccak256:{}", "00".repeat(32)))),
    )]);
    assert_eq!(
        verify_eip191(&only_hash, &addr),
        Err(VerifyError::MissingField {
            field: FieldKind::Signature
        })
    );
}

#[test]
fn bad_hash_encodings_are_reported() {
    let addr = vec![0u8; 20];
    for (text, fault) in [
        (format!("keccak256:{}", "00".repeat(31)), EncodingFault::WrongLength { found: 31 }),
        (format!("keccak256:{}", "00".repeat(33)), EncodingFault::WrongLength { found: 33 }),
        (format!("sha256:{}", "00".repeat(32)), EncodingFault::MissingPrefix),
        ("keccak256:zz".to_string(), EncodingFault::NotHex),
    ] {
        let snap = snapshot_with_signing(vec![("payload_hash", Json::Str(b(&text)))]);
        assert_eq!(
            verify_eip191(&snap, &addr),
            Err(VerifyError::BadEncoding {
                field: FieldKind::PayloadHash,
                fault
            })
        );
    }
}

#[test]
fn bad_signature_encodings_are_reported() {
    let addr = vec![0u8; 20];
    let good_hash = ("payload_hash", Json::Str(b(&format!("keccak256:{}", "00".repeat(32)))));
    for (text, fault) in [
        (format!("eip191:0x{}", "00".repeat(64)), EncodingFault::WrongLength { found: 64 }),
        (format!("eip191:0x{}", "00".repeat(66)), EncodingFault::WrongLength { found: 66 }),
        (format!("0x{}", "00".repeat(65)), EncodingFault::MissingPrefix),
    ] {
        let snap = snapshot_with_signing(vec![
            good_hash.clone(),
            ("signature", Json::Str(b(&text))),
        ]);
        assert_eq!(
            verify_eip191(&snap, &addr),
            Err(VerifyError::BadEncoding {
                field: FieldKind::Signature,
                fault
            })
        );
    }
}

#[test]
fn unrecoverable_signatures_are_reported() {
    let addr = vec![0u8; 20];
    let snap = snapshot_with_signing(vec![
        (
            "payload_hash",
            Json::Str(b(&format!("keccak256:{}", "00".repeat(32)))),
        ),
        (
            "signature",
            Json::Str(b(&format!("eip191:0x{}", "00".repeat(65)))),
        ),
    ]);
    assert_eq!(
        verify_eip191(&snap, &addr),
        Err(VerifyError::RecoveryFailed)
    );
}

#[test]
fn verify_checks_identity_before_content() {
    // sign, tamper, then verify against the wrong address: the identity
    // mismatch must win over the content mismatch
    let signer = wallet_from_private_key_hex(&b(KEY_ONE)).unwrap();
    let other = wallet_from_private_key_hex(&b(KEY_TWO)).unwrap();
    let mut snap = sample_snapshot();
    let digest = payload_hash_keccak(&snap);
    let (sig, _) = sign_eip191_hash(&signer, &digest).unwrap();
    attach_signature(&mut snap, &digest, &sig).unwrap();
    if let Json::Obj(es) = &mut snap {
        for e in es.iter_mut() {
            if e.0 == b("a") {
                e.1 = Json::Int(999);
            }
        }
    }
    assert_eq!(
        verify_eip191(&snap, other.address()),
        Err(VerifyError::AddressMismatch)
    );
}
