//! Calls into the cryptography crates: hashing, Ed25519, X25519,
//! ChaCha20-Poly1305, randomness and wiping.

use vstd::prelude::*;
use rand::RngCore;
use sha2::Digest;
use ed25519_dalek::{Signer, Verifier};
use chacha20poly1305::aead::{Aead, KeyInit};

verus! {

/// SHA-512 of `data` (as `sha2::Sha512` computes it).
pub uninterp spec fn sha512_digest(data: Seq<u8>) -> Seq<u8>;

/// SHA-256 of `data` (as `sha2::Sha256` computes it).
pub uninterp spec fn sha256_digest(data: Seq<u8>) -> Seq<u8>;

/// The Ed25519 public key of a 32-byte secret seed, compressed.
pub uninterp spec fn ed25519_public(seed: Seq<u8>) -> Seq<u8>;

/// The Ed25519 signature of `msg` under the secret seed `seed`.
pub uninterp spec fn ed25519_signature(seed: Seq<u8>, msg: Seq<u8>) -> Seq<u8>;

/// Whether 32 bytes are the compressed form of a curve point, that is,
/// whether `ed25519_dalek::VerifyingKey::from_bytes` accepts them.
pub uninterp spec fn ed25519_key_decodes(public: Seq<u8>) -> bool;

/// Whether `ed25519_dalek::VerifyingKey::verify` accepts the signature `sig`
/// of `msg` under the public key `public`.
pub uninterp spec fn ed25519_accepts(public: Seq<u8>, msg: Seq<u8>, sig: Seq<u8>) -> bool;

/// The X25519 public key of a 32-byte secret.
pub uninterp spec fn x25519_public(secret: Seq<u8>) -> Seq<u8>;

/// The X25519 shared secret of a secret and the other side's public key.
pub uninterp spec fn x25519_shared(secret: Seq<u8>, public: Seq<u8>) -> Seq<u8>;

/// ChaCha20-Poly1305 encryption (ciphertext followed by the tag) of `plaintext`
/// under `key` and `nonce`, with no associated data.
pub uninterp spec fn chacha_seal(key: Seq<u8>, nonce: Seq<u8>, plaintext: Seq<u8>) -> Option<Seq<u8>>;

/// ChaCha20-Poly1305 decryption of `ciphertext` under `key` and `nonce`;
/// none when the tag does not authenticate it.
pub uninterp spec fn chacha_open(key: Seq<u8>, nonce: Seq<u8>, ciphertext: Seq<u8>) -> Option<Seq<u8>>;

/// Calls `sha2::Sha512::digest`: the result is the digest of `data`.
#[verifier::external_body]
pub(crate) fn sha512(data: &[u8]) -> (r: [u8; 64])
    ensures
        r@ == sha512_digest(data@),
{
    sha2::Sha512::digest(data).into()
}

/// Calls `sha2::Sha256::digest`: the result is the digest of `data`.
#[verifier::external_body]
pub(crate) fn sha256(data: &[u8]) -> (r: [u8; 32])
    ensures
        r@ == sha256_digest(data@),
{
    sha2::Sha256::digest(data).into()
}

/// Calls `ed25519_dalek::SigningKey::from_bytes(seed).verifying_key().to_bytes()`:
/// the public key of the seed, which decodes again as a point (it is the
/// compression of one).
#[verifier::external_body]
pub(crate) fn ed25519_public_of(seed: &[u8; 32]) -> (r: [u8; 32])
    ensures
        r@ == ed25519_public(seed@),
        ed25519_key_decodes(r@),
{
    ed25519_dalek::SigningKey::from_bytes(seed).verifying_key().to_bytes()
}

/// Calls `ed25519_dalek::SigningKey::from_bytes(seed).sign(msg).to_bytes()`:
/// the signature of `msg` under the seed, which verification under the
/// seed's public key accepts.
#[verifier::external_body]
pub(crate) fn ed25519_sign(seed: &[u8; 32], msg: &[u8]) -> (r: [u8; 64])
    ensures
        r@ == ed25519_signature(seed@, msg@),
        ed25519_accepts(ed25519_public(seed@), msg@, r@),
{
    ed25519_dalek::SigningKey::from_bytes(seed).sign(msg).to_bytes()
}

/// Calls `ed25519_dalek::VerifyingKey::from_bytes(public)` and tells whether
/// it succeeded.
#[verifier::external_body]
pub(crate) fn ed25519_decode(public: &[u8; 32]) -> (r: bool)
    ensures
        r == ed25519_key_decodes(public@),
{
    ed25519_dalek::VerifyingKey::from_bytes(public).is_ok()
}

/// Calls `ed25519_dalek::VerifyingKey::verify` with the key decoded from
/// `public` and the signature made from the 64 bytes `sig`, and tells
/// whether it succeeded.
#[verifier::external_body]
pub(crate) fn ed25519_verify(public: &[u8; 32], msg: &[u8], sig: &[u8; 64]) -> (r: bool)
    requires
        ed25519_key_decodes(public@),
    ensures
        r == ed25519_accepts(public@, msg@, sig@),
{
    match ed25519_dalek::VerifyingKey::from_bytes(public) {
        Ok(key) => key.verify(msg, &ed25519_dalek::Signature::from_bytes(sig)).is_ok(),
        Err(_) => false,
    }
}

/// Calls `ed25519_dalek::SigningKey::generate` with the thread's random
/// number generator and returns the new key's seed. The seed is random.
#[verifier::external_body]
pub(crate) fn ed25519_generate() -> [u8; 32] {
    ed25519_dalek::SigningKey::generate(&mut rand::thread_rng()).to_bytes()
}

/// Calls `rand::Rng::gen` on the thread's random number generator for 32
/// bytes. They are random.
#[verifier::external_body]
pub(crate) fn random_32() -> [u8; 32] {
    rand::Rng::gen(&mut rand::thread_rng())
}

/// Fills 12 bytes from the operating system's random source
/// (`aead::OsRng::fill_bytes`). They are random.
#[verifier::external_body]
pub(crate) fn random_nonce() -> [u8; 12] {
    let mut nonce = [0u8; 12];
    chacha20poly1305::aead::OsRng.fill_bytes(&mut nonce);
    nonce
}

/// Calls `x25519_dalek::PublicKey::from(&StaticSecret::from(secret)).to_bytes()`:
/// the public key of the secret.
#[verifier::external_body]
pub(crate) fn x25519_public_of(secret: &[u8; 32]) -> (r: [u8; 32])
    ensures
        r@ == x25519_public(secret@),
{
    x25519_dalek::PublicKey::from(&x25519_dalek::StaticSecret::from(*secret)).to_bytes()
}

/// Calls `x25519_dalek::StaticSecret::diffie_hellman` on the secret and the
/// other side's public key. As for any Diffie-Hellman exchange, where the
/// other side's public key is that of a secret `b`, the result is what `b`
/// and this secret's public key give.
#[verifier::external_body]
pub(crate) fn x25519_diffie_hellman(secret: &[u8; 32], public: &[u8; 32]) -> (r: [u8; 32])
    ensures
        r@ == x25519_shared(secret@, public@),
        forall|b: Seq<u8>|
            b.len() == 32 && public@ == x25519_public(b) ==> r@ == x25519_shared(b, x25519_public(secret@)),
{
    x25519_dalek::StaticSecret::from(*secret)
        .diffie_hellman(&x25519_dalek::PublicKey::from(*public))
        .to_bytes()
}

/// Calls `chacha20poly1305::ChaCha20Poly1305::encrypt` with the key and
/// nonce. It fails only for a plaintext of 2^32 - 1 blocks of 64 bytes or
/// more; the ciphertext is 16 bytes (the tag) longer than the plaintext,
/// and decryption with the same key and nonce gives the plaintext back.
#[verifier::external_body]
pub(crate) fn chacha_encrypt(key: &[u8; 32], nonce: &[u8; 12], plaintext: &[u8]) -> (r: Option<Vec<u8>>)
    ensures
        opt_bytes(r) == chacha_seal(key@, nonce@, plaintext@),
        r is Some <==> plaintext@.len() / 64 < 4294967295,
        r matches Some(c) ==> c@.len() == plaintext@.len() + 16
            && chacha_open(key@, nonce@, c@) == Some(plaintext@),
{
    chacha20poly1305::ChaCha20Poly1305::new(chacha20poly1305::Key::from_slice(key))
        .encrypt(chacha20poly1305::Nonce::from_slice(nonce), plaintext)
        .ok()
}

/// Calls `chacha20poly1305::ChaCha20Poly1305::decrypt` with the key and
/// nonce. A ciphertext that encryption with the same key and nonce made
/// from some plaintext decrypts to that plaintext.
#[verifier::external_body]
pub(crate) fn chacha_decrypt(key: &[u8; 32], nonce: &[u8; 12], ciphertext: &[u8]) -> (r: Option<Vec<u8>>)
    ensures
        opt_bytes(r) == chacha_open(key@, nonce@, ciphertext@),
        forall|m: Seq<u8>| chacha_seal(key@, nonce@, m) == Some(ciphertext@) ==> opt_bytes(r) == Some(m),
{
    chacha20poly1305::ChaCha20Poly1305::new(chacha20poly1305::Key::from_slice(key))
        .decrypt(chacha20poly1305::Nonce::from_slice(nonce), ciphertext)
        .ok()
}

/// Calls `zeroize::Zeroize::zeroize`, which overwrites every byte with zero.
#[verifier::external_body]
pub(crate) fn wipe_32(b: &mut [u8; 32])
    ensures
        final(b)@ == Seq::new(32, |_i: int| 0u8),
{
    zeroize::Zeroize::zeroize(b);
}

/// Calls `zeroize::Zeroize::zeroize`, which overwrites every byte with zero.
#[verifier::external_body]
pub(crate) fn wipe_64(b: &mut [u8; 64])
    ensures
        final(b)@ == Seq::new(64, |_i: int| 0u8),
{
    zeroize::Zeroize::zeroize(b);
}

/// The view of optional bytes.
pub open spec fn opt_bytes(o: Option<Vec<u8>>) -> Option<Seq<u8>> {
    match o {
        Some(v) => Some(v@),
        None => None,
    }
}

} // verus!
