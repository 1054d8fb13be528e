//! Verification of a signed snapshot, one distinct failure per protocol step,
//! and the laws that tie signing and verifying together.

use vstd::prelude::*;

use crate::digest::{
    hash_text, key_payload_hash, key_payload_hash_vec, key_scheme, key_signature,
    key_signature_vec, key_signing, key_signing_vec, managed_keys, payload_digest, payload_hash_keccak,
    prefix_keccak, strip_signing,
};
use crate::errors::{EncodingFault, FieldKind, VerifyError};
use crate::hexs::{
    all_hex, hex_decode, hex_of, hex_parse, lemma_hex_of_all_hex, lemma_hex_of_len,
    lemma_hex_round_trip,
};
use crate::json::{bytes_eq, keys_distinct, obj_get, JVal, Json};
use crate::sign::{
    attach_model, has_signing_obj, prefix_sig, recover_eip191_raw, recovered_of, scheme_tag,
    sig_text, RecoverOutcome,
};

verus! {

/// The parse of a stored digest text: the `keccak256:` prefix, then hex that
/// decodes to exactly 32 bytes.
pub open spec fn parse_hash_text(t: Seq<u8>) -> Result<Seq<u8>, EncodingFault> {
    if !(t.len() >= 10 && t.take(10) == prefix_keccak()) {
        Err(EncodingFault::MissingPrefix)
    } else {
        let h = t.skip(10);
        if !(h.len() % 2 == 0 && all_hex(h)) {
            Err(EncodingFault::NotHex)
        } else if hex_parse(h).len() != 32 {
            Err(EncodingFault::WrongLength { found: hex_parse(h).len() as usize })
        } else {
            Ok(hex_parse(h))
        }
    }
}

/// The parse of a stored signature text: the `eip191:0x` prefix, then hex
/// that decodes to exactly 65 bytes.
pub open spec fn parse_sig_text(t: Seq<u8>) -> Result<Seq<u8>, EncodingFault> {
    if !(t.len() >= 9 && t.take(9) == prefix_sig()) {
        Err(EncodingFault::MissingPrefix)
    } else {
        let h = t.skip(9);
        if !(h.len() % 2 == 0 && all_hex(h)) {
            Err(EncodingFault::NotHex)
        } else if hex_parse(h).len() != 65 {
            Err(EncodingFault::WrongLength { found: hex_parse(h).len() as usize })
        } else {
            Ok(hex_parse(h))
        }
    }
}

/// Whether the signing object carries both stored fields as strings.
pub open spec fn fields_present(v: JVal) -> bool {
    let ms = (v->Obj_0)[key_signing()]->Obj_0;
    &&& has_signing_obj(v)
    &&& ms.contains_key(key_payload_hash()) && ms[key_payload_hash()] is Str
    &&& ms.contains_key(key_signature()) && ms[key_signature()] is Str
}

/// The stored digest text.
pub open spec fn stored_hash_field(v: JVal) -> Seq<u8> {
    ((v->Obj_0)[key_signing()]->Obj_0)[key_payload_hash()]->Str_0
}

/// The stored signature text.
pub open spec fn stored_sig_field(v: JVal) -> Seq<u8> {
    ((v->Obj_0)[key_signing()]->Obj_0)[key_signature()]->Str_0
}

/// What verification decides, step by step: locate the signing object,
/// extract and decode the stored digest, then the stored signature, recover
/// the signer, compare it to the expected address, and finally recompute the
/// digest from the current content.
pub open spec fn verify_spec(v: JVal, expected: Seq<u8>) -> Result<(), VerifyError> {
    if !has_signing_obj(v) {
        Err(VerifyError::MissingSigningBlock)
    } else {
        let ms = (v->Obj_0)[key_signing()]->Obj_0;
        if !(ms.contains_key(key_payload_hash()) && ms[key_payload_hash()] is Str) {
            Err(VerifyError::MissingField { field: FieldKind::PayloadHash })
        } else {
            match parse_hash_text(ms[key_payload_hash()]->Str_0) {
                Err(f) => Err(VerifyError::BadEncoding { field: FieldKind::PayloadHash, fault: f }),
                Ok(d) => {
                    if !(ms.contains_key(key_signature()) && ms[key_signature()] is Str) {
                        Err(VerifyError::MissingField { field: FieldKind::Signature })
                    } else {
                        match parse_sig_text(ms[key_signature()]->Str_0) {
                            Err(f) => Err(
                                VerifyError::BadEncoding { field: FieldKind::Signature, fault: f },
                            ),
                            Ok(sb) => match recovered_of(d, sb) {
                                None => Err(VerifyError::RecoveryFailed),
                                Some(a) => if a != expected {
                                    Err(VerifyError::AddressMismatch)
                                } else if payload_digest(v) != d {
                                    Err(VerifyError::PayloadTampered)
                                } else {
                                    Ok(())
                                },
                            },
                        }
                    }
                },
            }
        }
    }
}

/// Whether `s` starts with `p`.
#[verifier::loop_isolation(false)]
fn starts_with(s: &Vec<u8>, p: &Vec<u8>) -> (r: bool)
    ensures
        r == (s@.len() >= p@.len() && s@.take(p@.len() as int) == p@),
{
    if s.len() < p.len() {
        return false;
    }
    let mut i: usize = 0;
    while i < p.len()
        invariant
            0 <= i <= p@.len(),
            s@.len() >= p@.len(),
            forall|j: int| 0 <= j < i ==> s@[j] == p@[j],
        decreases p@.len() - i,
    {
        if s[i] != p[i] {
            proof {
                assert(s@.take(p@.len() as int)[i as int] != p@[i as int]);
            }
            return false;
        }
        i = i + 1;
    }
    proof {
        assert(s@.take(p@.len() as int) =~= p@);
    }
    true
}

/// The bytes from position `k` on.
#[verifier::loop_isolation(false)]
fn tail_from(s: &Vec<u8>, k: usize) -> (r: Vec<u8>)
    requires
        k <= s@.len(),
    ensures
        r@ == s@.skip(k as int),
{
    let mut out: Vec<u8> = Vec::new();
    let mut i: usize = k;
    while i < s.len()
        invariant
            k <= i <= s@.len(),
            out@ == s@.subrange(k as int, i as int),
        decreases s@.len() - i,
    {
        out.push(s[i]);
        proof {
            assert(out@ =~= s@.subrange(k as int, i + 1));
        }
        i = i + 1;
    }
    proof {
        assert(s@.subrange(k as int, s@.len() as int) =~= s@.skip(k as int));
    }
    out
}

/// The digest prefix `keccak256:` as a byte string value.
fn prefix_keccak_vec() -> (r: Vec<u8>)
    ensures
        r@ == prefix_keccak(),
{
    let mut v: Vec<u8> = Vec::new();
    v.push(107);
    v.push(101);
    v.push(99);
    v.push(99);
    v.push(97);
    v.push(107);
    v.push(50);
    v.push(53);
    v.push(54);
    v.push(58);
    proof {
        assert(v@ =~= prefix_keccak());
    }
    v
}

/// The signature prefix `eip191:0x` as a byte string value.
fn prefix_sig_vec() -> (r: Vec<u8>)
    ensures
        r@ == prefix_sig(),
{
    let mut v: Vec<u8> = Vec::new();
    v.push(101);
    v.push(105);
    v.push(112);
    v.push(49);
    v.push(57);
    v.push(49);
    v.push(58);
    v.push(48);
    v.push(120);
    proof {
        assert(v@ =~= prefix_sig());
    }
    v
}

/// Decodes a stored digest text, reporting the exact fault: the inverse of
/// the digest's textual encoding.
pub fn parse_hash_field(t: &Vec<u8>) -> (r: Result<Vec<u8>, EncodingFault>)
    ensures
        match r {
            Ok(d) => parse_hash_text(t@) == Ok::<Seq<u8>, EncodingFault>(d@) && d@.len() == 32,
            Err(f) => parse_hash_text(t@) == Err::<Seq<u8>, EncodingFault>(f),
        },
{
    let p = prefix_keccak_vec();
    if !starts_with(t, &p) {
        return Err(EncodingFault::MissingPrefix);
    }
    let tail = tail_from(t, 10);
    match hex_decode(&tail) {
        None => Err(EncodingFault::NotHex),
        Some(bs) => {
            if bs.len() != 32 {
                Err(EncodingFault::WrongLength { found: bs.len() })
            } else {
                Ok(bs)
            }
        },
    }
}

/// Decodes a stored signature text, reporting the exact fault: the inverse
/// of the signature's textual encoding.
pub fn parse_sig_field(t: &Vec<u8>) -> (r: Result<Vec<u8>, EncodingFault>)
    ensures
        match r {
            Ok(sb) => parse_sig_text(t@) == Ok::<Seq<u8>, EncodingFault>(sb@) && sb@.len() == 65,
            Err(f) => parse_sig_text(t@) == Err::<Seq<u8>, EncodingFault>(f),
        },
{
    let p = prefix_sig_vec();
    if !starts_with(t, &p) {
        return Err(EncodingFault::MissingPrefix);
    }
    let tail = tail_from(t, 9);
    match hex_decode(&tail) {
        None => Err(EncodingFault::NotHex),
        Some(bs) => {
            if bs.len() != 65 {
                Err(EncodingFault::WrongLength { found: bs.len() })
            } else {
                Ok(bs)
            }
        },
    }
}

/// Verifies a snapshot against an expected 20-byte address: the stored
/// signature must recover to it over the stored digest, and the current
/// content must still hash to that digest. Each failing step yields its own
/// error, and recovery is judged before content, so a stale signature and a
/// tampered payload stay distinguishable.
#[verifier::rlimit(60)]
pub fn verify_eip191(snapshot: &Json, expected_addr: &Vec<u8>) -> (r: Result<(), VerifyError>)
    requires
        snapshot.wf(),
        expected_addr@.len() == 20,
    ensures
        r == verify_spec(snapshot@, expected_addr@),
{
    let k_signing = key_signing_vec();
    let es = match snapshot {
        Json::Obj(es) => es,
        _ => {
            return Err(VerifyError::MissingSigningBlock);
        },
    };
    proof {
        assert(*snapshot == Json::Obj(*es));
    }
    let signing = match obj_get(es, &k_signing) {
        Some(v) => v,
        None => {
            return Err(VerifyError::MissingSigningBlock);
        },
    };
    let sig_es = match signing {
        Json::Obj(se) => se,
        _ => {
            return Err(VerifyError::MissingSigningBlock);
        },
    };
    proof {
        assert(*signing == Json::Obj(*sig_es));
        let i = choose|i: int|
            0 <= i < es@.len() && (#[trigger] es@[i]).0@ == key_signing() && es@[i].1 == *signing;
        assert(es@[i].1.wf());
        assert(keys_distinct(sig_es@));
    }
    let k_ph = key_payload_hash_vec();
    let ph_val = match obj_get(sig_es, &k_ph) {
        Some(v) => v,
        None => {
            return Err(VerifyError::MissingField { field: FieldKind::PayloadHash });
        },
    };
    let ph_text = match ph_val {
        Json::Str(tb) => tb,
        _ => {
            return Err(VerifyError::MissingField { field: FieldKind::PayloadHash });
        },
    };
    proof {
        assert(*ph_val == Json::Str(*ph_text));
    }
    let d = match parse_hash_field(ph_text) {
        Ok(d) => d,
        Err(f) => {
            return Err(VerifyError::BadEncoding { field: FieldKind::PayloadHash, fault: f });
        },
    };
    let k_sig = key_signature_vec();
    let sig_val = match obj_get(sig_es, &k_sig) {
        Some(v) => v,
        None => {
            return Err(VerifyError::MissingField { field: FieldKind::Signature });
        },
    };
    let sig_text_b = match sig_val {
        Json::Str(tb) => tb,
        _ => {
            return Err(VerifyError::MissingField { field: FieldKind::Signature });
        },
    };
    proof {
        assert(*sig_val == Json::Str(*sig_text_b));
    }
    let sb = match parse_sig_field(sig_text_b) {
        Ok(sb) => sb,
        Err(f) => {
            return Err(VerifyError::BadEncoding { field: FieldKind::Signature, fault: f });
        },
    };
    match recover_eip191_raw(&d, &sb) {
        RecoverOutcome::Recovered(a) => {
            if !bytes_eq(&a, expected_addr) {
                Err(VerifyError::AddressMismatch)
            } else {
                let recomputed = payload_hash_keccak(snapshot);
                if !bytes_eq(&recomputed, &d) {
                    Err(VerifyError::PayloadTampered)
                } else {
                    Ok(())
                }
            }
        },
        RecoverOutcome::ParseFailed => {
            proof {
                assert(false);
            }
            Err(VerifyError::MalformedSignature)
        },
        RecoverOutcome::RecoverFailed => Err(VerifyError::RecoveryFailed),
    }
}

/// A digest's text parses back to the digest.
pub proof fn lemma_hash_text_parses(d: Seq<u8>)
    requires
        d.len() == 32,
    ensures
        parse_hash_text(hash_text(d)) == Ok::<Seq<u8>, EncodingFault>(d),
{
    let t = hash_text(d);
    lemma_hex_of_len(d);
    lemma_hex_of_all_hex(d);
    lemma_hex_round_trip(d);
    assert(t.take(10) =~= prefix_keccak());
    assert(t.skip(10) =~= hex_of(d));
}

/// A signature's text parses back to the signature bytes.
pub proof fn lemma_sig_text_parses(sig: Seq<u8>)
    requires
        sig.len() == 65,
    ensures
        parse_sig_text(sig_text(sig)) == Ok::<Seq<u8>, EncodingFault>(sig),
{
    let t = sig_text(sig);
    lemma_hex_of_len(sig);
    lemma_hex_of_all_hex(sig);
    lemma_hex_round_trip(sig);
    assert(t.take(9) =~= prefix_sig());
    assert(t.skip(9) =~= hex_of(sig));
}

/// Attaching only writes managed fields, which the digest rule excludes, so
/// the digest of a snapshot does not move when a signature is attached.
pub proof fn lemma_attach_keeps_digest(v: JVal, d: Seq<u8>, sig: Seq<u8>)
    requires
        has_signing_obj(v),
    ensures
        payload_digest(attach_model(v, d, sig)) == payload_digest(v),
{
    let m = v->Obj_0;
    let ms = m[key_signing()]->Obj_0;
    let ms1 = ms.insert(key_payload_hash(), JVal::Str(hash_text(d))).insert(
        key_signature(),
        JVal::Str(sig_text(sig)),
    ).insert(key_scheme(), JVal::Str(scheme_tag()));
    let v1 = attach_model(v, d, sig);
    let m1 = v1->Obj_0;
    assert(m1[key_signing()] == JVal::Obj(ms1));
    assert(ms1.remove_keys(managed_keys()) =~= ms.remove_keys(managed_keys()));
    let inner = JVal::Obj(ms.remove_keys(managed_keys()));
    assert(JVal::Obj(ms1.remove_keys(managed_keys())) == inner);
    assert(strip_signing(v1) == JVal::Obj(m1.insert(key_signing(), inner)));
    assert(strip_signing(v) == JVal::Obj(m.insert(key_signing(), inner)));
    assert(m1.insert(key_signing(), inner) =~= m.insert(key_signing(), inner));
}

/// Round trip: after signing — computing the snapshot's digest, obtaining a
/// signature that recovers to the signer's address, and attaching both —
/// verification against that same address succeeds.
pub proof fn lemma_sign_then_verify(v: JVal, d: Seq<u8>, sig: Seq<u8>, addr: Seq<u8>)
    requires
        has_signing_obj(v),
        d == payload_digest(v),
        d.len() == 32,
        sig.len() == 65,
        recovered_of(d, sig) == Some(addr),
    ensures
        verify_spec(attach_model(v, d, sig), addr) == Ok::<(), VerifyError>(()),
{
    let v1 = attach_model(v, d, sig);
    let m = v->Obj_0;
    let ms = m[key_signing()]->Obj_0;
    let ms1 = ms.insert(key_payload_hash(), JVal::Str(hash_text(d))).insert(
        key_signature(),
        JVal::Str(sig_text(sig)),
    ).insert(key_scheme(), JVal::Str(scheme_tag()));
    assert(v1->Obj_0 == m.insert(key_signing(), JVal::Obj(ms1)));
    assert(has_signing_obj(v1));
    assert(key_scheme() != key_payload_hash() && key_signature() != key_payload_hash()
        && key_scheme() != key_signature());
    assert(ms1[key_payload_hash()] == JVal::Str(hash_text(d)));
    assert(ms1[key_signature()] == JVal::Str(sig_text(sig)));
    lemma_hash_text_parses(d);
    lemma_sig_text_parses(sig);
    lemma_attach_keeps_digest(v, d, sig);
}

/// Tamper detection: well-formed stored fields, a signature that recovers to
/// the expected address, but content whose digest no longer matches the
/// stored one — verification reports exactly `PayloadTampered`.
pub proof fn lemma_tamper_detected(v: JVal, expected: Seq<u8>, d: Seq<u8>, sb: Seq<u8>)
    requires
        fields_present(v),
        parse_hash_text(stored_hash_field(v)) == Ok::<Seq<u8>, EncodingFault>(d),
        parse_sig_text(stored_sig_field(v)) == Ok::<Seq<u8>, EncodingFault>(sb),
        recovered_of(d, sb) == Some(expected),
        payload_digest(v) != d,
    ensures
        verify_spec(v, expected) == Err::<(), VerifyError>(VerifyError::PayloadTampered),
{
}

/// Wrong-identity detection: a self-consistent signature checked against a
/// different address yields exactly `AddressMismatch`, before any content
/// comparison.
pub proof fn lemma_wrong_identity(v: JVal, expected: Seq<u8>, d: Seq<u8>, sb: Seq<u8>, a: Seq<u8>)
    requires
        fields_present(v),
        parse_hash_text(stored_hash_field(v)) == Ok::<Seq<u8>, EncodingFault>(d),
        parse_sig_text(stored_sig_field(v)) == Ok::<Seq<u8>, EncodingFault>(sb),
        recovered_of(d, sb) == Some(a),
        a != expected,
    ensures
        verify_spec(v, expected) == Err::<(), VerifyError>(VerifyError::AddressMismatch),
{
}

/// Encoding enforcement for the stored digest: a bad prefix, bad hex, or a
/// decoded length other than 32 bytes is rejected as `BadEncoding` naming the
/// `payload_hash` field and the fault.
pub proof fn lemma_bad_hash_encoding(v: JVal, expected: Seq<u8>, f: EncodingFault)
    requires
        has_signing_obj(v),
        ((v->Obj_0)[key_signing()]->Obj_0).contains_key(key_payload_hash()),
        ((v->Obj_0)[key_signing()]->Obj_0)[key_payload_hash()] is Str,
        parse_hash_text(stored_hash_field(v)) == Err::<Seq<u8>, EncodingFault>(f),
    ensures
        verify_spec(v, expected) == Err::<(), VerifyError>(
            (VerifyError::BadEncoding { field: FieldKind::PayloadHash, fault: f }),
        ),
{
}

/// Encoding enforcement for the stored signature: a bad prefix, bad hex, or a
/// decoded length other than 65 bytes is rejected as `BadEncoding` naming the
/// `signature` field and the fault.
pub proof fn lemma_bad_sig_encoding(v: JVal, expected: Seq<u8>, d: Seq<u8>, f: EncodingFault)
    requires
        fields_present(v),
        parse_hash_text(stored_hash_field(v)) == Ok::<Seq<u8>, EncodingFault>(d),
        parse_sig_text(stored_sig_field(v)) == Err::<Seq<u8>, EncodingFault>(f),
    ensures
        verify_spec(v, expected) == Err::<(), VerifyError>(
            (VerifyError::BadEncoding { field: FieldKind::Signature, fault: f }),
        ),
{
}

} // verus!
