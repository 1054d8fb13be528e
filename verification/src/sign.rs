//! Key loading, EIP-191 signing and attaching the result to a snapshot.

use vstd::prelude::*;

use ethers_signers::Signer;

use crate::digest::{
    hash_text, hash_text_bytes, key_payload_hash, key_payload_hash_vec, key_scheme,
    key_scheme_vec, key_signature, key_signature_vec, key_signing, key_signing_vec,
};
use crate::errors::{AttachError, KeyError, SignError};
use crate::hexs::{all_hex, hex_encode, hex_of, hex_parse, is_hex_digit};
use crate::json::{
    copy_bytes, keys_distinct, lemma_obj_view_dom, lemma_obj_view_get, lemma_obj_view_pointwise,
    lemma_obj_view_update, obj_index_of, obj_view, JVal, Json,
};

verus! {

/// ASCII whitespace, as trimming understands it.
pub open spec fn is_ws(b: u8) -> bool {
    b == 32 || (9 <= b && b <= 13)
}

/// The text without leading whitespace.
pub open spec fn trim_front(s: Seq<u8>) -> Seq<u8>
    decreases s.len(),
{
    if s.len() > 0 && is_ws(s.first()) {
        trim_front(s.drop_first())
    } else {
        s
    }
}

/// The text without trailing whitespace.
pub open spec fn trim_back(s: Seq<u8>) -> Seq<u8>
    decreases s.len(),
{
    if s.len() > 0 && is_ws(s.last()) {
        trim_back(s.drop_last())
    } else {
        s
    }
}

/// The text without surrounding whitespace.
pub open spec fn trim_ws(s: Seq<u8>) -> Seq<u8> {
    trim_back(trim_front(s))
}

/// The text without an optional leading `0x`.
pub open spec fn strip0x(s: Seq<u8>) -> Seq<u8> {
    if s.len() >= 2 && s[0] == 48 && s[1] == 120 {
        s.skip(2)
    } else {
        s
    }
}

/// The hex digits a private key text carries.
pub open spec fn key_text_bytes(s: Seq<u8>) -> Seq<u8> {
    strip0x(trim_ws(s))
}

/// What loading a private key from hex text yields: the 32 key bytes, or the
/// first applicable error — bad hex, wrong decoded length, invalid scalar.
pub open spec fn load_key_spec(s: Seq<u8>) -> Result<Seq<u8>, KeyError> {
    let h = key_text_bytes(s);
    if !(h.len() % 2 == 0 && all_hex(h)) {
        Err(KeyError::InvalidHex)
    } else if hex_parse(h).len() != 32 {
        Err(KeyError::InvalidKeyLength { found: hex_parse(h).len() as usize })
    } else if !key_valid(hex_parse(h)) {
        Err(KeyError::InvalidKey)
    } else {
        Ok(hex_parse(h))
    }
}

/// Whether 32 bytes are a valid secp256k1 private key scalar, as the outside
/// key constructor decides it: a function of the bytes alone.
pub uninterp spec fn key_valid(key: Seq<u8>) -> bool;

/// The address the outside wallet derives from a valid private key: a
/// function of the key alone.
pub uninterp spec fn addr_of_key(key: Seq<u8>) -> Seq<u8>;

/// The address EIP-191 recovery yields from a 32-byte digest and a 65-byte
/// signature, if any: a function of those bytes alone.
pub uninterp spec fn recovered_of(digest: Seq<u8>, sig: Seq<u8>) -> Option<Seq<u8>>;

/// Relies on k256's SigningKey::from_slice: it accepts exactly the valid
/// 32-byte scalars.
#[verifier::external_body]
fn key_is_valid(key: &Vec<u8>) -> (r: bool)
    requires
        key@.len() == 32,
    ensures
        r == key_valid(key@),
{
    ethers_core::k256::ecdsa::SigningKey::from_slice(key.as_slice()).is_ok()
}

/// Relies on ethers-signers' Wallet (From<SigningKey> and address): the
/// 20-byte address derived from a valid key, a function of the key alone.
#[verifier::external_body]
fn derive_address_raw(key: &Vec<u8>) -> (r: Vec<u8>)
    requires
        key@.len() == 32,
        key_valid(key@),
    ensures
        r@ == addr_of_key(key@),
        r@.len() == 20,
{
    let sk = match ethers_core::k256::ecdsa::SigningKey::from_slice(key.as_slice()) {
        Ok(k) => k,
        Err(_) => {
            return Vec::new();
        },
    };
    let w = ethers_signers::LocalWallet::from(sk);
    w.address().as_bytes().to_vec()
}

/// Relies on ethers-signers' Wallet::sign_hash over
/// ethers-core's hash_message: an EIP-191 personal-message signature over the
/// digest, 65 bytes (r, s, recovery id), or the wallet's failure.
#[verifier::external_body]
fn sign_digest_raw(key: &Vec<u8>, digest: &Vec<u8>) -> (r: Option<Vec<u8>>)
    requires
        key@.len() == 32,
        key_valid(key@),
        digest@.len() == 32,
    ensures
        match r {
            Some(sig) => sig@.len() == 65,
            None => true,
        },
{
    let sk = match ethers_core::k256::ecdsa::SigningKey::from_slice(key.as_slice()) {
        Ok(k) => k,
        Err(_) => {
            return None;
        },
    };
    let w = ethers_signers::LocalWallet::from(sk);
    let h = ethers_core::utils::hash_message(digest.as_slice());
    match w.sign_hash(h) {
        Ok(sig) => Some(sig.to_vec()),
        Err(_) => None,
    }
}

/// What one EIP-191 recovery attempt reported.
pub enum RecoverOutcome {
    /// The address the signature recovers to over this digest.
    Recovered(Vec<u8>),
    /// The 65 bytes did not parse into signature components.
    ParseFailed,
    /// The cryptographic recovery operation failed.
    RecoverFailed,
}

/// Relies on ethers-core's Signature::try_from and Signature::recover over
/// message data (which hashes the EIP-191 prefix plus digest): recovery is a
/// function of the digest and signature bytes alone and yields a 20-byte
/// address. try_from rejects only lengths other than 65, which the caller has
/// excluded.
#[verifier::external_body]
pub(crate) fn recover_eip191_raw(digest: &Vec<u8>, sig: &Vec<u8>) -> (r: RecoverOutcome)
    requires
        digest@.len() == 32,
        sig@.len() == 65,
    ensures
        match r {
            RecoverOutcome::Recovered(a) => recovered_of(digest@, sig@) == Some(a@) && a@.len()
                == 20,
            RecoverOutcome::ParseFailed => false,
            RecoverOutcome::RecoverFailed => recovered_of(digest@, sig@) is None,
        },
{
    let parsed = match ethers_core::types::Signature::try_from(sig.as_slice()) {
        Ok(p) => p,
        Err(_) => {
            return RecoverOutcome::ParseFailed;
        },
    };
    match parsed.recover(digest.as_slice()) {
        Ok(addr) => RecoverOutcome::Recovered(addr.as_bytes().to_vec()),
        Err(_) => RecoverOutcome::RecoverFailed,
    }
}

/// A local signing capability: a validated private key with its address.
pub struct LocalSigner {
    key: Vec<u8>,
    addr: Vec<u8>,
}

impl LocalSigner {
    /// The private key bytes.
    pub closed spec fn key_view(self) -> Seq<u8> {
        self.key@
    }

    /// The signer's address bytes.
    pub closed spec fn addr_view(self) -> Seq<u8> {
        self.addr@
    }

    /// A signer always holds a valid 32-byte key and the address derived from
    /// it.
    pub open spec fn wf(self) -> bool {
        self.key_view().len() == 32 && key_valid(self.key_view()) && self.addr_view() == addr_of_key(
            self.key_view(),
        ) && self.addr_view().len() == 20
    }

    /// The signer's 20-byte address.
    pub fn address(&self) -> (r: &Vec<u8>)
        ensures
            r@ == self.addr_view(),
    {
        &self.addr
    }
}

/// Skipping a whitespace prefix does not change the trimmed text.
proof fn lemma_trim_front_skip(s: Seq<u8>, a: int)
    requires
        0 <= a <= s.len(),
        forall|j: int| 0 <= j < a ==> is_ws(#[trigger] s[j]),
    ensures
        trim_front(s) == trim_front(s.skip(a)),
    decreases a,
{
    if a > 0 {
        assert(is_ws(s.first()));
        assert forall|j: int| 0 <= j < a - 1 implies is_ws(#[trigger] s.drop_first()[j]) by {
            assert(s.drop_first()[j] == s[j + 1]);
        }
        lemma_trim_front_skip(s.drop_first(), a - 1);
        assert(s.drop_first().skip(a - 1) =~= s.skip(a));
    } else {
        assert(s.skip(0) =~= s);
    }
}

/// Dropping a whitespace suffix does not change the trimmed text.
proof fn lemma_trim_back_take(s: Seq<u8>, b: int)
    requires
        0 <= b <= s.len(),
        forall|j: int| b <= j < s.len() ==> is_ws(#[trigger] s[j]),
    ensures
        trim_back(s) == trim_back(s.take(b)),
    decreases s.len() - b,
{
    if b < s.len() {
        assert(is_ws(s.last()));
        assert forall|j: int| b <= j < s.drop_last().len() implies is_ws(
            #[trigger] s.drop_last()[j],
        ) by {
            assert(s.drop_last()[j] == s[j]);
        }
        lemma_trim_back_take(s.drop_last(), b);
        assert(s.drop_last().take(b) =~= s.take(b));
    } else {
        assert(s.take(s.len() as int) =~= s);
    }
}

/// The text without surrounding ASCII whitespace.
#[verifier::loop_isolation(false)]
fn trim_bytes(s: &Vec<u8>) -> (r: Vec<u8>)
    ensures
        r@ == trim_ws(s@),
{
    let mut a: usize = 0;
    let mut stop = false;
    while a < s.len() && !stop
        invariant
            0 <= a <= s@.len(),
            forall|j: int| 0 <= j < a ==> is_ws(#[trigger] s@[j]),
            stop ==> a < s@.len() && !is_ws(s@[a as int]),
        decreases s@.len() - a + (if stop {
            0int
        } else {
            1int
        }),
    {
        let c = s[a];
        if c == 32 || (9 <= c && c <= 13) {
            a = a + 1;
        } else {
            stop = true;
        }
    }
    proof {
        lemma_trim_front_skip(s@, a as int);
        if a < s@.len() {
            assert(!is_ws(s@.skip(a as int).first()));
        }
        assert(trim_front(s@) == s@.skip(a as int));
    }
    let mut b: usize = s.len();
    let mut stop2 = false;
    while b > a && !stop2
        invariant
            a <= b <= s@.len(),
            forall|j: int| b <= j < s@.len() ==> is_ws(#[trigger] s@[j]),
            stop2 ==> b > a && !is_ws(s@[b - 1]),
        decreases b - a + (if stop2 {
            0int
        } else {
            1int
        }),
    {
        let c = s[b - 1];
        if c == 32 || (9 <= c && c <= 13) {
            b = b - 1;
        } else {
            stop2 = true;
        }
    }
    let ghost tf = s@.skip(a as int);
    proof {
        assert forall|j: int| b - a <= j < tf.len() implies is_ws(#[trigger] tf[j]) by {
            assert(tf[j] == s@[j + a]);
        }
        lemma_trim_back_take(tf, b - a);
        if b > a {
            assert(tf.take(b - a).last() == s@[b - 1]);
            assert(!is_ws(tf.take(b - a).last()));
        }
        assert(trim_back(tf) == tf.take(b - a));
        assert(tf.take(b - a) =~= s@.subrange(a as int, b as int));
    }
    let mut out: Vec<u8> = Vec::new();
    let mut i: usize = a;
    while i < b
        invariant
            a <= i <= b,
            out@ == s@.subrange(a as int, i as int),
        decreases b - i,
    {
        out.push(s[i]);
        proof {
            assert(out@ =~= s@.subrange(a as int, i + 1));
        }
        i = i + 1;
    }
    out
}

/// Loads a signing capability from a hex private key text: surrounding
/// whitespace and an optional `0x` are tolerated; the key must decode to
/// exactly 32 bytes and be a valid scalar.
pub fn wallet_from_private_key_hex(pk_hex: &Vec<u8>) -> (r: Result<LocalSigner, KeyError>)
    ensures
        match r {
            Ok(s) => load_key_spec(pk_hex@) == Ok::<Seq<u8>, KeyError>(s.key_view()) && s.wf(),
            Err(e) => load_key_spec(pk_hex@) == Err::<Seq<u8>, KeyError>(e),
        },
{
    let trimmed = trim_bytes(pk_hex);
    let stripped: Vec<u8> = if trimmed.len() >= 2 && trimmed[0] == 48 && trimmed[1] == 120 {
        let mut t: Vec<u8> = Vec::new();
        let mut i: usize = 2;
        while i < trimmed.len()
            invariant
                2 <= i <= trimmed@.len(),
                trimmed@.len() >= 2,
                t@ == trimmed@.subrange(2, i as int),
            decreases trimmed@.len() - i,
        {
            t.push(trimmed[i]);
            proof {
                assert(t@ =~= trimmed@.subrange(2, i + 1));
            }
            i = i + 1;
        }
        proof {
            assert(t@ =~= trimmed@.skip(2));
        }
        t
    } else {
        trimmed
    };
    proof {
        assert(stripped@ == key_text_bytes(pk_hex@));
    }
    let bytes = match crate::hexs::hex_decode(&stripped) {
        Some(bs) => bs,
        None => {
            return Err(KeyError::InvalidHex);
        },
    };
    if bytes.len() != 32 {
        return Err(KeyError::InvalidKeyLength { found: bytes.len() });
    }
    if !key_is_valid(&bytes) {
        return Err(KeyError::InvalidKey);
    }
    let addr = derive_address_raw(&bytes);
    Ok(LocalSigner { key: bytes, addr })
}

/// Loading ignores the `0x` prefix: the prefixed and the bare hex text of the
/// same key load the same way.
pub proof fn lemma_key_prefix_insensitive(h: Seq<u8>)
    requires
        all_hex(h),
    ensures
        load_key_spec(seq![48u8, 120u8] + h) == load_key_spec(h),
{
    let p = seq![48u8, 120u8] + h;
    assert(p.first() == 48);
    assert(!is_ws(p.first()));
    assert(trim_front(p) == p);
    if h.len() > 0 {
        assert(p.last() == h.last());
        assert(is_hex_digit(h[h.len() - 1]));
        assert(!is_ws(p.last()));
    } else {
        assert(p.last() == 120);
    }
    assert(trim_back(p) == p);
    assert(p[0] == 48 && p[1] == 120);
    assert(strip0x(p) =~= h);
    assert(trim_front(h) == h) by {
        if h.len() > 0 {
            assert(is_hex_digit(h[0]));
        }
    }
    assert(trim_back(h) == h) by {
        if h.len() > 0 {
            assert(is_hex_digit(h[h.len() - 1]));
        }
    }
    assert(strip0x(h) == h) by {
        if h.len() >= 2 {
            assert(is_hex_digit(h[1]));
        }
    }
    assert(key_text_bytes(p) == key_text_bytes(h));
}

/// The bytes of the signature prefix `eip191:0x`.
pub open spec fn prefix_sig() -> Seq<u8> {
    seq![101u8, 105u8, 112u8, 49u8, 57u8, 49u8, 58u8, 48u8, 120u8]
}

/// The bytes of the scheme tag `eip191`.
pub open spec fn scheme_tag() -> Seq<u8> {
    seq![101u8, 105u8, 112u8, 49u8, 57u8, 49u8]
}

/// The textual form of a signature: `eip191:0x` then lowercase hex.
pub open spec fn sig_text(sig: Seq<u8>) -> Seq<u8> {
    prefix_sig() + hex_of(sig)
}

/// The textual form of a signature, as bytes.
#[verifier::loop_isolation(false)]
pub fn sig_text_bytes(sig: &Vec<u8>) -> (r: Vec<u8>)
    ensures
        r@ == sig_text(sig@),
{
    let mut out: Vec<u8> = Vec::new();
    out.push(101);
    out.push(105);
    out.push(112);
    out.push(49);
    out.push(57);
    out.push(49);
    out.push(58);
    out.push(48);
    out.push(120);
    proof {
        assert(out@ =~= prefix_sig());
    }
    let hx = hex_encode(sig);
    let mut i: usize = 0;
    while i < hx.len()
        invariant
            0 <= i <= hx@.len(),
            out@ == prefix_sig() + hx@.take(i as int),
        decreases hx@.len() - i,
    {
        out.push(hx[i]);
        proof {
            assert(out@ =~= prefix_sig() + hx@.take(i + 1));
        }
        i = i + 1;
    }
    proof {
        assert(hx@.take(hx@.len() as int) =~= hx@);
    }
    out
}

/// The scheme tag `eip191` as a byte string value.
pub fn scheme_tag_vec() -> (r: Vec<u8>)
    ensures
        r@ == scheme_tag(),
{
    let mut v: Vec<u8> = Vec::new();
    v.push(101);
    v.push(105);
    v.push(112);
    v.push(49);
    v.push(57);
    v.push(49);
    proof {
        assert(v@ =~= scheme_tag());
    }
    v
}

/// Signs a 32-byte digest under the EIP-191 personal-message convention and
/// self-checks the result: the fresh signature must recover to the signer's
/// own address, else the call fails rather than hand out a bad signature.
pub fn sign_eip191_hash(signer: &LocalSigner, hash: &Vec<u8>) -> (r: Result<
    (Vec<u8>, Vec<u8>),
    SignError,
>)
    requires
        signer.wf(),
        hash@.len() == 32,
    ensures
        match r {
            Ok(p) => p.0@.len() == 65 && p.1@ == signer.addr_view() && recovered_of(hash@, p.0@)
                == Some(p.1@),
            Err(_) => true,
        },
{
    let sig = match sign_digest_raw(&signer.key, hash) {
        Some(s) => s,
        None => {
            return Err(SignError::SigningFailed);
        },
    };
    match recover_eip191_raw(hash, &sig) {
        RecoverOutcome::Recovered(a) => {
            if crate::json::bytes_eq(&a, &signer.addr) {
                let addr = copy_bytes(&signer.addr);
                Ok((sig, addr))
            } else {
                Err(SignError::SelfCheckFailed)
            }
        },
        RecoverOutcome::ParseFailed => {
            proof {
                assert(false);
            }
            Err(SignError::SelfCheckFailed)
        },
        RecoverOutcome::RecoverFailed => Err(SignError::SelfCheckFailed),
    }
}

/// Whether a snapshot carries a `signing` object to write into.
pub open spec fn has_signing_obj(v: JVal) -> bool {
    v is Obj && (v->Obj_0).contains_key(key_signing()) && (v->Obj_0)[key_signing()] is Obj
}

/// The snapshot after attaching: the signing object gains the digest text,
/// the signature text and the scheme tag; nothing else moves.
pub open spec fn attach_model(v: JVal, d: Seq<u8>, sig: Seq<u8>) -> JVal {
    let m = v->Obj_0;
    let ms = m[key_signing()]->Obj_0;
    JVal::Obj(
        m.insert(
            key_signing(),
            JVal::Obj(
                ms.insert(key_payload_hash(), JVal::Str(hash_text(d))).insert(
                    key_signature(),
                    JVal::Str(sig_text(sig)),
                ).insert(key_scheme(), JVal::Str(scheme_tag())),
            ),
        ),
    )
}

/// Sets one key of an object's entries: replaces the entry that holds it, or
/// appends a new one.
#[verifier::loop_isolation(false)]
fn obj_put(es: &mut Vec<(Vec<u8>, Json)>, key: Vec<u8>, val: Json)
    requires
        keys_distinct(old(es)@),
        forall|a: int| 0 <= a < old(es)@.len() ==> (#[trigger] old(es)@[a]).1.wf(),
        val.wf(),
    ensures
        obj_view(final(es)@) == obj_view(old(es)@).insert(key@, val@),
        keys_distinct(final(es)@),
        forall|a: int| 0 <= a < final(es)@.len() ==> (#[trigger] final(es)@[a]).1.wf(),
{
    match obj_index_of(es, &key) {
        Some(i) => {
            let ghost p = (key, val);
            let ghost es0 = es@;
            let (k0, _) = es.remove(i);
            es.insert(i, (k0, val));
            proof {
                assert(es@ =~= es0.update(i as int, (es0[i as int].0, p.1)));
                lemma_obj_view_update(es0, i as int, (es0[i as int].0, p.1));
                assert(es0[i as int].0@ == key@);
                assert(obj_view(es@) =~= obj_view(es0).insert(key@, val@));
                assert(keys_distinct(es@)) by {
                    assert forall|a: int, b: int| 0 <= a < b < es@.len() implies (
                    #[trigger] es@[a]).0@ != (#[trigger] es@[b]).0@ by {
                        assert(es@[a].0@ == es0[a].0@);
                        assert(es@[b].0@ == es0[b].0@);
                        assert(es0[a].0@ != es0[b].0@);
                    }
                }
            }
        },
        None => {
            let ghost es0 = es@;
            es.push((key, val));
            proof {
                assert(es@.drop_last() =~= es0);
                assert(obj_view(es@) == obj_view(es0).insert(key@, val@));
                assert(keys_distinct(es@)) by {
                    assert forall|a: int, b: int| 0 <= a < b < es@.len() implies (
                    #[trigger] es@[a]).0@ != (#[trigger] es@[b]).0@ by {
                        if b == es@.len() - 1 {
                            assert(es0[a].0@ != key@);
                        } else {
                            assert(es0[a].0@ != es0[b].0@);
                        }
                    }
                }
            }
        },
    }
}

/// Writes the three managed fields into the snapshot's existing `signing`
/// object: `payload_hash` as digest text, `signature` as `eip191:0x` hex,
/// `scheme` as the literal tag. Fails, leaving the snapshot unchanged, when
/// no signing object exists.
#[verifier::loop_isolation(false)]
#[verifier::rlimit(60)]
pub fn attach_signature(snapshot: &mut Json, payload_hash: &Vec<u8>, sig: &Vec<u8>) -> (r: Result<
    (),
    AttachError,
>)
    requires
        old(snapshot).wf(),
        payload_hash@.len() == 32,
        sig@.len() == 65,
    ensures
        match r {
            Ok(()) => has_signing_obj(old(snapshot)@) && final(snapshot)@ == attach_model(
                old(snapshot)@,
                payload_hash@,
                sig@,
            ) && final(snapshot).wf(),
            Err(AttachError::MissingSigningBlock) => !has_signing_obj(old(snapshot)@)
                && *final(snapshot) == *old(snapshot),
        },
{
    let k_signing = key_signing_vec();
    let replacement: Json = match &*snapshot {
        Json::Obj(es) => {
            proof {
                assert(*snapshot == Json::Obj(*es));
                lemma_obj_view_dom(es@);
            }
            match obj_index_of(es, &k_signing) {
                Some(i) => {
                    proof {
                        lemma_obj_view_get(es@, i as int);
                    }
                    match &es[i].1 {
                        Json::Obj(_) => {},
                        _ => {
                            return Err(AttachError::MissingSigningBlock);
                        },
                    }
                    let signing_clone = es[i].1.clone();
                    let new_signing: Json = match signing_clone {
                        Json::Obj(mut sig_vec) => {
                            proof {
                                assert(es@[i as int].1.wf());
                            }
                            obj_put(
                                &mut sig_vec,
                                key_payload_hash_vec(),
                                Json::Str(hash_text_bytes(payload_hash)),
                            );
                            obj_put(&mut sig_vec, key_signature_vec(), Json::Str(sig_text_bytes(sig)));
                            obj_put(&mut sig_vec, key_scheme_vec(), Json::Str(scheme_tag_vec()));
                            Json::Obj(sig_vec)
                        },
                        _ => {
                            proof {
                                assert(false);
                            }
                            Json::Null
                        },
                    };
                    let ghost p = (es@[i as int].0, new_signing);
                    let mut out: Vec<(Vec<u8>, Json)> = Vec::new();
                    let mut t: usize = 0;
                    while t < es.len()
                        invariant
                            0 <= t <= es@.len(),
                            out@.len() == t,
                            forall|a: int|
                                0 <= a < t ==> (#[trigger] out@[a]).0@ == es@[a].0@ && out@[a].1@
                                    == (if a == i as int {
                                    p.1@
                                } else {
                                    es@[a].1@
                                }) && out@[a].1.wf(),
                        decreases es@.len() - t,
                    {
                        if t == i {
                            out.push((copy_bytes(&es[t].0), new_signing.clone()));
                        } else {
                            out.push((copy_bytes(&es[t].0), es[t].1.clone()));
                        }
                        t = t + 1;
                    }
                    proof {
                        let esu = es@.update(i as int, p);
                        assert forall|a: int| 0 <= a < out@.len() implies (#[trigger] out@[a]).0@
                            == esu[a].0@ && out@[a].1@ == esu[a].1@ by {
                            if a == i as int {
                                assert(esu[a] == p);
                            } else {
                                assert(esu[a] == es@[a]);
                            }
                        }
                        lemma_obj_view_pointwise(out@, esu);
                        lemma_obj_view_update(es@, i as int, p);
                        assert(keys_distinct(out@)) by {
                            assert forall|a: int, b: int| 0 <= a < b < out@.len() implies (
                            #[trigger] out@[a]).0@ != (#[trigger] out@[b]).0@ by {
                                assert(es@[a].0@ != es@[b].0@);
                            }
                        }
                        assert(Json::Obj(out).wf());
                        assert(Json::Obj(out)@ =~= attach_model(
                            snapshot@,
                            payload_hash@,
                            sig@,
                        ));
                    }
                    Json::Obj(out)
                },
                None => {
                    proof {
                        assert(!obj_view(es@).contains_key(key_signing()));
                    }
                    return Err(AttachError::MissingSigningBlock);
                },
            }
        },
        _ => {
            return Err(AttachError::MissingSigningBlock);
        },
    };
    *snapshot = replacement;
    Ok(())
}

} // verus!
