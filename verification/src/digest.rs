//! The digest rule: what bytes of a snapshot are hashed, and the textual form
//! of a digest.
//!
//! At hash time a working copy of the snapshot loses the managed fields of its
//! `signing` object — `signature`, and the stale `payload_hash` and `scheme`
//! that attaching rewrites — so a snapshot hashes the same before signing and
//! after, and the signature can never feed into its own digest. Caller
//! metadata inside `signing` is kept and hashed.

use vstd::prelude::*;

use crate::canon::{canon, canonical_json_bytes};
use crate::hexs::{hex_encode, hex_of, is_hex_digit, lemma_hex_of_all_hex, lemma_hex_of_len};
use crate::json::{
    copy_bytes, keys_distinct, lemma_obj_view_get, lemma_obj_view_pointwise, lemma_obj_view_update,
    obj_index_of, obj_view, JVal, Json,
};

verus! {

/// The bytes of the key `signing`.
pub open spec fn key_signing() -> Seq<u8> {
    seq![115u8, 105u8, 103u8, 110u8, 105u8, 110u8, 103u8]
}

/// The bytes of the key `payload_hash`.
pub open spec fn key_payload_hash() -> Seq<u8> {
    seq![112u8, 97u8, 121u8, 108u8, 111u8, 97u8, 100u8, 95u8, 104u8, 97u8, 115u8, 104u8]
}

/// The bytes of the key `signature`.
pub open spec fn key_signature() -> Seq<u8> {
    seq![115u8, 105u8, 103u8, 110u8, 97u8, 116u8, 117u8, 114u8, 101u8]
}

/// The bytes of the key `scheme`.
pub open spec fn key_scheme() -> Seq<u8> {
    seq![115u8, 99u8, 104u8, 101u8, 109u8, 101u8]
}

/// The bytes of the digest prefix `keccak256:`.
pub open spec fn prefix_keccak() -> Seq<u8> {
    seq![107u8, 101u8, 99u8, 99u8, 97u8, 107u8, 50u8, 53u8, 54u8, 58u8]
}

/// The signing fields this library manages, excluded from the digest input.
pub open spec fn managed_keys() -> Set<Seq<u8>> {
    set![key_payload_hash(), key_signature(), key_scheme()]
}

/// The key `signing` as a byte string value.
pub fn key_signing_vec() -> (r: Vec<u8>)
    ensures
        r@ == key_signing(),
{
    let mut v: Vec<u8> = Vec::new();
    v.push(115);
    v.push(105);
    v.push(103);
    v.push(110);
    v.push(105);
    v.push(110);
    v.push(103);
    proof {
        assert(v@ =~= key_signing());
    }
    v
}

/// The key `payload_hash` as a byte string value.
pub fn key_payload_hash_vec() -> (r: Vec<u8>)
    ensures
        r@ == key_payload_hash(),
{
    let mut v: Vec<u8> = Vec::new();
    v.push(112);
    v.push(97);
    v.push(121);
    v.push(108);
    v.push(111);
    v.push(97);
    v.push(100);
    v.push(95);
    v.push(104);
    v.push(97);
    v.push(115);
    v.push(104);
    proof {
        assert(v@ =~= key_payload_hash());
    }
    v
}

/// The key `signature` as a byte string value.
pub fn key_signature_vec() -> (r: Vec<u8>)
    ensures
        r@ == key_signature(),
{
    let mut v: Vec<u8> = Vec::new();
    v.push(115);
    v.push(105);
    v.push(103);
    v.push(110);
    v.push(97);
    v.push(116);
    v.push(117);
    v.push(114);
    v.push(101);
    proof {
        assert(v@ =~= key_signature());
    }
    v
}

/// The key `scheme` as a byte string value.
pub fn key_scheme_vec() -> (r: Vec<u8>)
    ensures
        r@ == key_scheme(),
{
    let mut v: Vec<u8> = Vec::new();
    v.push(115);
    v.push(99);
    v.push(104);
    v.push(101);
    v.push(109);
    v.push(101);
    proof {
        assert(v@ =~= key_scheme());
    }
    v
}

/// The keccak-256 digest of a byte string, as the outside hashing code
/// computes it: a function of the bytes alone.
pub uninterp spec fn keccak_of(bytes: Seq<u8>) -> Seq<u8>;

/// Relies on ethers_core::utils::keccak256: the 32-byte keccak-256 digest of
/// the input bytes, depending on them alone.
#[verifier::external_body]
fn keccak256_raw(bytes: &Vec<u8>) -> (r: Vec<u8>)
    ensures
        r@ == keccak_of(bytes@),
        r@.len() == 32,
{
    ethers_core::utils::keccak256(bytes.as_slice()).to_vec()
}

/// The snapshot as it is hashed: the signing object, when present, loses its
/// managed fields; everything else stands unchanged.
pub open spec fn strip_signing(v: JVal) -> JVal {
    match v {
        JVal::Obj(m) => {
            if m.contains_key(key_signing()) && m[key_signing()] is Obj {
                JVal::Obj(
                    m.insert(
                        key_signing(),
                        JVal::Obj((m[key_signing()]->Obj_0).remove_keys(managed_keys())),
                    ),
                )
            } else {
                v
            }
        },
        _ => v,
    }
}

/// A snapshot's digest: keccak-256 of the canonical bytes of the stripped
/// snapshot.
pub open spec fn payload_digest(v: JVal) -> Seq<u8> {
    keccak_of(canon(strip_signing(v)))
}

/// A copy of the snapshot with the signing object's managed fields removed.
#[verifier::loop_isolation(false)]
#[verifier::rlimit(60)]
fn stripped_copy(snapshot: &Json) -> (r: Json)
    requires
        snapshot.wf(),
    ensures
        r@ == strip_signing(snapshot@),
        r.wf(),
{
    let k_signing = key_signing_vec();
    match snapshot {
        Json::Obj(es) => {
            proof {
                assert(*snapshot == Json::Obj(*es));
                crate::json::lemma_obj_view_dom(es@);
            }
            match obj_index_of(es, &k_signing) {
                Some(i) => {
                    proof {
                        lemma_obj_view_get(es@, i as int);
                    }
                    match &es[i].1 {
                        Json::Obj(sig_es) => {
                            proof {
                                assert(es@[i as int].1.wf());
                                assert(es@[i as int].1 == Json::Obj(*sig_es));
                            }
                            let filtered = strip_managed_entries(sig_es);
                            let replacement = Json::Obj(filtered);
                            let ghost p = (es@[i as int].0, replacement);
                            let mut out: Vec<(Vec<u8>, Json)> = Vec::new();
                            let mut t: usize = 0;
                            while t < es.len()
                                invariant
                                    0 <= t <= es@.len(),
                                    out@.len() == t,
                                    forall|a: int|
                                        0 <= a < t ==> (#[trigger] out@[a]).0@ == es@[a].0@
                                            && out@[a].1@ == (if a == i as int {
                                            p.1@
                                        } else {
                                            es@[a].1@
                                        }) && out@[a].1.wf(),
                                decreases es@.len() - t,
                            {
                                if t == i {
                                    out.push((copy_bytes(&es[t].0), replacement.clone()));
                                } else {
                                    out.push((copy_bytes(&es[t].0), es[t].1.clone()));
                                }
                                t = t + 1;
                            }
                            proof {
                                let esu = es@.update(i as int, p);
                                assert forall|a: int| 0 <= a < out@.len() implies (
                                #[trigger] out@[a]).0@ == esu[a].0@ && out@[a].1@ == esu[a].1@ by {
                                    if a == i as int {
                                        assert(esu[a] == p);
                                    } else {
                                        assert(esu[a] == es@[a]);
                                    }
                                }
                                lemma_obj_view_pointwise(out@, esu);
                                lemma_obj_view_update(es@, i as int, p);
                                assert(keys_distinct(out@)) by {
                                    assert forall|a: int, b: int| 0 <= a < b < out@.len() implies (
                                    #[trigger] out@[a]).0@ != (#[trigger] out@[b]).0@ by {
                                        assert(es@[a].0@ != es@[b].0@);
                                    }
                                }
                                assert(obj_view(out@) =~= obj_view(es@).insert(
                                    key_signing(),
                                    replacement@,
                                ));
                                assert(Json::Obj(out).wf());
                                assert(Json::Obj(out)@ =~= strip_signing(snapshot@));
                            }
                            Json::Obj(out)
                        },
                        _ => {
                            let r = snapshot.clone();
                            proof {
                                assert(r@ == strip_signing(snapshot@));
                            }
                            r
                        },
                    }
                },
                None => {
                    let r = snapshot.clone();
                    proof {
                        assert(!obj_view(es@).contains_key(key_signing()));
                        assert(r@ == strip_signing(snapshot@));
                    }
                    r
                },
            }
        },
        _ => {
            snapshot.clone()
        },
    }
}

/// A copy of an object's entries without the managed signing fields.
#[verifier::loop_isolation(false)]
fn strip_managed_entries(sig_es: &Vec<(Vec<u8>, Json)>) -> (out: Vec<(Vec<u8>, Json)>)
    requires
        keys_distinct(sig_es@),
        forall|a: int| 0 <= a < sig_es@.len() ==> (#[trigger] sig_es@[a]).1.wf(),
    ensures
        obj_view(out@) == obj_view(sig_es@).remove_keys(managed_keys()),
        keys_distinct(out@),
        forall|a: int| 0 <= a < out@.len() ==> (#[trigger] out@[a]).1.wf(),
{
    let k_ph = key_payload_hash_vec();
    let k_sig = key_signature_vec();
    let k_scheme = key_scheme_vec();
    let mut out: Vec<(Vec<u8>, Json)> = Vec::new();
    let mut t: usize = 0;
    while t < sig_es.len()
        invariant
            0 <= t <= sig_es@.len(),
            obj_view(out@) == obj_view(sig_es@.take(t as int)).remove_keys(managed_keys()),
            keys_distinct(out@),
            forall|a: int| 0 <= a < out@.len() ==> (#[trigger] out@[a]).1.wf(),
            forall|a: int|
                0 <= a < out@.len() ==> exists|b: int|
                    0 <= b < t && (#[trigger] out@[a]).0@ == sig_es@[b].0@,
        decreases sig_es@.len() - t,
    {
        let ghost pre = sig_es@.take(t as int);
        let ghost post = sig_es@.take(t + 1);
        proof {
            assert(post.drop_last() =~= pre);
            assert(post.last() == sig_es@[t as int]);
            assert(obj_view(post) == obj_view(pre).insert(
                sig_es@[t as int].0@,
                sig_es@[t as int].1@,
            ));
        }
        let keep = !(crate::json::bytes_eq(&sig_es[t].0, &k_ph) || crate::json::bytes_eq(
            &sig_es[t].0,
            &k_sig,
        ) || crate::json::bytes_eq(&sig_es[t].0, &k_scheme));
        if keep {
            let ghost out0 = out@;
            out.push((copy_bytes(&sig_es[t].0), sig_es[t].1.clone()));
            proof {
                assert(out@.drop_last() =~= out0);
                assert(obj_view(out@) == obj_view(out0).insert(
                    sig_es@[t as int].0@,
                    sig_es@[t as int].1@,
                ));
                assert(obj_view(out@) =~= obj_view(post).remove_keys(managed_keys()));
                assert(keys_distinct(out@)) by {
                    assert forall|a: int, b: int| 0 <= a < b < out@.len() implies (
                    #[trigger] out@[a]).0@ != (#[trigger] out@[b]).0@ by {
                        if b == out@.len() - 1 {
                            let c = choose|c: int|
                                0 <= c < t && (#[trigger] out0[a]).0@ == sig_es@[c].0@;
                            assert(sig_es@[c].0@ != sig_es@[t as int].0@);
                        } else {
                            assert(out0[a].0@ != out0[b].0@);
                        }
                    }
                }
                assert forall|a: int| 0 <= a < out@.len() implies exists|b: int|
                    0 <= b < t + 1 && (#[trigger] out@[a]).0@ == sig_es@[b].0@ by {
                    if a < out@.len() - 1 {
                        let c = choose|c: int| 0 <= c < t && (#[trigger] out0[a]).0@ == sig_es@[c].0@;
                        assert(out@[a].0@ == sig_es@[c].0@);
                    } else {
                        assert(out@[a].0@ == sig_es@[t as int].0@);
                    }
                }
            }
        } else {
            proof {
                assert(managed_keys().contains(sig_es@[t as int].0@));
                assert(obj_view(out@) =~= obj_view(post).remove_keys(managed_keys()));
            }
        }
        t = t + 1;
    }
    proof {
        assert(sig_es@.take(sig_es@.len() as int) =~= sig_es@);
    }
    out
}

/// The digest of a snapshot: keccak-256 over the canonical bytes of the
/// snapshot with the signing block's managed fields removed. Identical
/// payload content gives an identical digest, whatever sits in those fields.
pub fn payload_hash_keccak(snapshot: &Json) -> (r: Vec<u8>)
    requires
        snapshot.wf(),
    ensures
        r@ == payload_digest(snapshot@),
        r@.len() == 32,
{
    let s = stripped_copy(snapshot);
    let bytes = canonical_json_bytes(&s);
    keccak256_raw(&bytes)
}

/// The textual form of a digest: `keccak256:` then lowercase hex.
pub open spec fn hash_text(d: Seq<u8>) -> Seq<u8> {
    prefix_keccak() + hex_of(d)
}

/// The textual form of a digest, as bytes.
#[verifier::loop_isolation(false)]
pub fn hash_text_bytes(hash: &Vec<u8>) -> (r: Vec<u8>)
    ensures
        r@ == hash_text(hash@),
{
    let mut out: Vec<u8> = Vec::new();
    out.push(107);
    out.push(101);
    out.push(99);
    out.push(99);
    out.push(97);
    out.push(107);
    out.push(50);
    out.push(53);
    out.push(54);
    out.push(58);
    proof {
        assert(out@ =~= prefix_keccak());
    }
    let hx = hex_encode(hash);
    let mut i: usize = 0;
    while i < hx.len()
        invariant
            0 <= i <= hx@.len(),
            out@ == prefix_keccak() + hx@.take(i as int),
        decreases hx@.len() - i,
    {
        out.push(hx[i]);
        proof {
            assert(out@ =~= prefix_keccak() + hx@.take(i + 1));
        }
        i = i + 1;
    }
    proof {
        assert(hx@.take(hx@.len() as int) =~= hx@);
    }
    out
}

/// Relies on String::from_utf8: bytes below 128 become the string of exactly
/// those characters.
#[verifier::external_body]
fn string_from_ascii(bytes: Vec<u8>) -> (r: String)
    requires
        forall|i: int| 0 <= i < bytes@.len() ==> bytes@[i] < 128,
    ensures
        r@ == bytes@.map_values(|b: u8| b as char),
{
    match String::from_utf8(bytes) {
        Ok(s) => s,
        Err(_) => String::new(),
    }
}

/// The textual form of a digest, as a string: `keccak256:` then 64 lowercase
/// hex characters.
pub fn hash_str(hash: &Vec<u8>) -> (r: String)
    ensures
        r@ == hash_text(hash@).map_values(|b: u8| b as char),
{
    let bytes = hash_text_bytes(hash);
    proof {
        lemma_hex_of_all_hex(hash@);
        lemma_hex_of_len(hash@);
        assert forall|i: int| 0 <= i < bytes@.len() implies bytes@[i] < 128 by {
            if i >= 10 {
                assert(bytes@[i] == hex_of(hash@)[i - 10]);
                assert(is_hex_digit(hex_of(hash@)[i - 10]));
            }
        }
    }
    string_from_ascii(bytes)
}

/// The digest never depends on a managed signing field: writing any value
/// into `signature` (or `payload_hash` or `scheme`) inside the signing object
/// leaves the digest unchanged.
pub proof fn lemma_digest_ignores_managed_field(v: JVal, field: Seq<u8>, x: JVal)
    requires
        v is Obj,
        (v->Obj_0).contains_key(key_signing()),
        (v->Obj_0)[key_signing()] is Obj,
        managed_keys().contains(field),
    ensures
        payload_digest(with_signing_field(v, field, x)) == payload_digest(v),
{
    let m = v->Obj_0;
    let ms = m[key_signing()]->Obj_0;
    let v1 = with_signing_field(v, field, x);
    let m1 = v1->Obj_0;
    assert(m1[key_signing()] == JVal::Obj(ms.insert(field, x)));
    assert(ms.insert(field, x).remove_keys(managed_keys()) =~= ms.remove_keys(managed_keys()));
    let inner = JVal::Obj(ms.remove_keys(managed_keys()));
    assert(JVal::Obj(ms.insert(field, x).remove_keys(managed_keys())) == inner);
    assert(strip_signing(v1) == JVal::Obj(m1.insert(key_signing(), inner)));
    assert(strip_signing(v) == JVal::Obj(m.insert(key_signing(), inner)));
    assert(m1.insert(key_signing(), inner) =~= m.insert(key_signing(), inner));
}

/// The snapshot with one field of its signing object set.
pub open spec fn with_signing_field(v: JVal, field: Seq<u8>, x: JVal) -> JVal {
    let m = v->Obj_0;
    let ms = m[key_signing()]->Obj_0;
    JVal::Obj(m.insert(key_signing(), JVal::Obj(ms.insert(field, x))))
}

} // verus!
