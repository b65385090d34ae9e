//! Ed25519 signing keys, detached signatures, and signed graph updates.

use vstd::prelude::*;
use crate::primitives::{ed25519_accepts, ed25519_decode, ed25519_generate, ed25519_key_decodes, ed25519_public, ed25519_public_of, ed25519_sign, ed25519_signature, ed25519_verify};
use crate::render::{float_display_chars, float_shown, int_decimal};
use crate::text::{chars_of, string_of_chars};

verus! {

/// An Ed25519 signing key, held by its 32-byte secret seed.
pub struct SigningKey {
    seed: [u8; 32],
}

/// An Ed25519 public key, held by its 32-byte compressed form, which
/// always decodes to a curve point.
pub struct VerifyingKey {
    bytes: [u8; 32],
}

impl SigningKey {
    /// The secret seed.
    pub closed spec fn seed(&self) -> Seq<u8> {
        self.seed@
    }

    /// The signing key with the given seed.
    pub fn from_bytes(seed: &[u8; 32]) -> (r: SigningKey)
        ensures
            r.seed() == seed@,
    {
        SigningKey { seed: *seed }
    }

    /// A new signing key from a random seed.
    pub fn generate() -> (r: SigningKey) {
        SigningKey { seed: ed25519_generate() }
    }

    /// The secret seed.
    pub fn to_bytes(&self) -> (r: [u8; 32])
        ensures
            r@ == self.seed(),
    {
        self.seed
    }

    /// The matching public key.
    pub fn verifying_key(&self) -> (r: VerifyingKey)
        ensures
            r.bytes() == ed25519_public(self.seed()),
            r.wf(),
            ed25519_key_decodes(ed25519_public(self.seed())),
    {
        VerifyingKey { bytes: ed25519_public_of(&self.seed) }
    }
}

impl Clone for SigningKey {
    fn clone(&self) -> (r: Self)
        ensures
            r.seed() == self.seed(),
    {
        SigningKey { seed: self.seed }
    }
}

impl VerifyingKey {
    /// The compressed public key.
    pub closed spec fn bytes(&self) -> Seq<u8> {
        self.bytes@
    }

    /// The public key's bytes decode to a curve point.
    pub closed spec fn wf(&self) -> bool {
        ed25519_key_decodes(self.bytes@)
    }

    pub proof fn lemma_wf(&self)
        ensures
            self.wf() == ed25519_key_decodes(self.bytes()),
    {
    }

    /// The public key with the given compressed form, where it decodes to a
    /// curve point.
    pub fn from_bytes(bytes: &[u8; 32]) -> (r: Result<VerifyingKey, SignError>)
        ensures
            match r {
                Ok(k) => ed25519_key_decodes(bytes@) && k.bytes() == bytes@ && k.wf(),
                Err(e) => !ed25519_key_decodes(bytes@) && e is VerificationFailed,
            },
    {
        if ed25519_decode(bytes) {
            Ok(VerifyingKey { bytes: *bytes })
        } else {
            Err(SignError::VerificationFailed)
        }
    }

    /// The compressed public key.
    pub fn to_bytes(&self) -> (r: [u8; 32])
        ensures
            r@ == self.bytes(),
    {
        self.bytes
    }

    pub fn as_bytes(&self) -> (r: &[u8; 32])
        ensures
            r@ == self.bytes(),
    {
        &self.bytes
    }
}

/// Errors of signing and verification.
#[derive(Debug, PartialEq, Eq)]
pub enum SignError {
    SigningFailed(String),
    VerificationFailed,
    InvalidFormat,
}

/// Sign data with an Ed25519 signing key: a 64-byte detached signature.
pub fn sign(data: &[u8], signing_key: &SigningKey) -> (r: Vec<u8>)
    ensures
        r@ == ed25519_signature(signing_key.seed(), data@),
        r@.len() == 64,
        ed25519_accepts(ed25519_public(signing_key.seed()), data@, r@),
{
    let sig = ed25519_sign(&signing_key.seed, data);
    let mut out: Vec<u8> = Vec::new();
    let mut i: usize = 0;
    while i < 64
        invariant
            i <= 64,
            out@ == sig@.take(i as int),
        decreases 64 - i,
    {
        out.push(sig[i]);
        proof {
            assert(sig@.take(i + 1) =~= sig@.take(i as int).push(sig@[i as int]));
        }
        i = i + 1;
    }
    proof {
        assert(sig@.take(64) =~= sig@);
    }
    out
}

/// Verify a detached Ed25519 signature: a signature that is not 64 bytes
/// long is malformed, and otherwise it is checked against the data.
pub fn verify(data: &[u8], signature_bytes: &[u8], verifying_key: &VerifyingKey) -> (r: Result<(), SignError>)
    requires
        verifying_key.wf(),
    ensures
        signature_bytes@.len() != 64 ==> r matches Err(SignError::InvalidFormat),
        signature_bytes@.len() == 64 ==> (r is Ok <==> ed25519_accepts(verifying_key.bytes(), data@, signature_bytes@)),
        signature_bytes@.len() == 64 && r is Err ==> r matches Err(SignError::VerificationFailed),
{
    if signature_bytes.len() != 64 {
        return Err(SignError::InvalidFormat);
    }
    let mut sig = [0u8; 64];
    let mut i: usize = 0;
    while i < 64
        invariant
            i <= 64,
            signature_bytes@.len() == 64,
            forall|j: int| 0 <= j < i ==> sig@[j] == signature_bytes@[j],
        decreases 64 - i,
    {
        sig[i] = signature_bytes[i];
        i = i + 1;
    }
    proof {
        assert(sig@ =~= signature_bytes@);
    }
    if ed25519_verify(&verifying_key.bytes, data, &sig) {
        Ok(())
    } else {
        Err(SignError::VerificationFailed)
    }
}

/// The text that a signed graph update covers: soul, key, the value's
/// JSON and the state, one per line.
pub open spec fn update_text(soul: Seq<char>, key: Seq<char>, value_json: Seq<char>, state: i64) -> Seq<char> {
    soul + seq!['\n'] + key + seq!['\n'] + value_json + seq!['\n'] + int_decimal(float_shown(state as int))
}

fn update_canonical(soul: &str, key: &str, value_json: &str, state: i64) -> (r: String)
    ensures
        r@ == update_text(soul@, key@, value_json@, state),
{
    let mut cs = chars_of(soul);
    cs.push('\n');
    let mut k = chars_of(key);
    cs.append(&mut k);
    cs.push('\n');
    let mut v = chars_of(value_json);
    cs.append(&mut v);
    cs.push('\n');
    let mut d = float_display_chars(state);
    cs.append(&mut d);
    proof {
        assert(cs@ =~= update_text(soul@, key@, value_json@, state));
    }
    string_of_chars(&cs)
}

/// Sign a graph update (soul, key, value, state) for authenticated writes:
/// the signature of the UTF-8 bytes of its canonical text.
pub fn sign_update(soul: &str, key: &str, value_json: &str, state: i64, signing_key: &SigningKey) -> (r: Vec<u8>)
    ensures
        r@ == ed25519_signature(signing_key.seed(), vstd::utf8::encode_utf8(update_text(soul@, key@, value_json@, state))),
{
    let canonical = update_canonical(soul, key, value_json, state);
    sign(canonical.as_str().as_bytes(), signing_key)
}

/// Verify a signed graph update.
pub fn verify_update(
    soul: &str,
    key: &str,
    value_json: &str,
    state: i64,
    signature_bytes: &[u8],
    verifying_key: &VerifyingKey,
) -> (r: Result<(), SignError>)
    requires
        verifying_key.wf(),
    ensures
        signature_bytes@.len() != 64 ==> r matches Err(SignError::InvalidFormat),
        signature_bytes@.len() == 64 ==> (r is Ok <==> ed25519_accepts(
            verifying_key.bytes(),
            vstd::utf8::encode_utf8(update_text(soul@, key@, value_json@, state)),
            signature_bytes@,
        )),
        signature_bytes@.len() == 64 && r is Err ==> r matches Err(SignError::VerificationFailed),
{
    let canonical = update_canonical(soul, key, value_json, state);
    verify(canonical.as_str().as_bytes(), signature_bytes, verifying_key)
}

} // verus!
