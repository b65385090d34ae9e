//! Public-key encryption: X25519 key agreement, SHA-256 key derivation and
//! ChaCha20-Poly1305.

use vstd::prelude::*;
use vstd::slice::slice_subrange;
use crate::primitives::{chacha_decrypt, chacha_encrypt, chacha_open, chacha_seal, random_32, random_nonce, sha256, sha256_digest, x25519_diffie_hellman, x25519_public, x25519_public_of, x25519_shared};

verus! {

/// An X25519 secret key, held by its 32 bytes.
pub struct X25519Secret {
    bytes: [u8; 32],
}

/// An X25519 public key, held by its 32 bytes.
pub struct X25519PublicKey {
    bytes: [u8; 32],
}

impl X25519Secret {
    pub closed spec fn bytes(&self) -> Seq<u8> {
        self.bytes@
    }

    pub fn from_bytes(bytes: [u8; 32]) -> (r: X25519Secret)
        ensures
            r.bytes() == bytes@,
    {
        X25519Secret { bytes }
    }

    /// A new secret of random bytes.
    pub fn random() -> (r: X25519Secret) {
        X25519Secret { bytes: random_32() }
    }

    pub fn to_bytes(&self) -> (r: [u8; 32])
        ensures
            r@ == self.bytes(),
    {
        self.bytes
    }

    /// The matching public key.
    pub fn public_key(&self) -> (r: X25519PublicKey)
        ensures
            r.bytes() == x25519_public(self.bytes()),
    {
        X25519PublicKey { bytes: x25519_public_of(&self.bytes) }
    }
}

impl Clone for X25519Secret {
    fn clone(&self) -> (r: Self)
        ensures
            r.bytes() == self.bytes(),
    {
        X25519Secret { bytes: self.bytes }
    }
}

impl X25519PublicKey {
    pub closed spec fn bytes(&self) -> Seq<u8> {
        self.bytes@
    }

    pub fn from_bytes(bytes: [u8; 32]) -> (r: X25519PublicKey)
        ensures
            r.bytes() == bytes@,
    {
        X25519PublicKey { bytes }
    }

    pub fn to_bytes(&self) -> (r: [u8; 32])
        ensures
            r@ == self.bytes(),
    {
        self.bytes
    }

    pub fn as_bytes(&self) -> (r: &[u8; 32])
        ensures
            r@ == self.bytes(),
    {
        &self.bytes
    }
}

impl Clone for X25519PublicKey {
    fn clone(&self) -> (r: Self)
        ensures
            r.bytes() == self.bytes(),
    {
        X25519PublicKey { bytes: self.bytes }
    }
}

/// Errors of encryption and decryption.
#[derive(Debug, Clone, Copy, PartialEq, Eq, Structural)]
pub enum CryptoError {
    EncryptionFailed,
    DecryptionFailed,
    InvalidFormat,
}

/// The symmetric key of a pair: SHA-256 of the X25519 shared secret.
pub open spec fn box_key(secret: Seq<u8>, public: Seq<u8>) -> Seq<u8> {
    sha256_digest(x25519_shared(secret, public))
}

/// The length of the nonce that starts every ciphertext.
pub const NONCE_LEN: usize = 12;

/// The length of the authentication tag that ends every ciphertext.
pub const TAG_LEN: usize = 16;

/// Encrypt a message for a recipient: X25519 key exchange between the
/// sender's secret and the recipient's public key, SHA-256 of the shared
/// secret as key, and ChaCha20-Poly1305 under a random nonce.
///
/// Output: the nonce (12 bytes), then the ciphertext with its 16-byte tag.
pub fn encrypt(plaintext: &[u8], recipient_public: &X25519PublicKey, sender_secret: &X25519Secret) -> (r: Result<Vec<u8>, CryptoError>)
    ensures
        r is Ok <==> plaintext@.len() / 64 < 4294967295,
        r is Err ==> r matches Err(CryptoError::EncryptionFailed),
        r matches Ok(out) ==> {
            &&& out@.len() == plaintext@.len() + NONCE_LEN + TAG_LEN
            &&& chacha_seal(
                box_key(sender_secret.bytes(), recipient_public.bytes()),
                out@.take(NONCE_LEN as int),
                plaintext@,
            ) == Some(out@.skip(NONCE_LEN as int))
        },
{
    let shared = x25519_diffie_hellman(&sender_secret.bytes, &recipient_public.bytes);
    let key = sha256(&shared);
    let nonce = random_nonce();
    match chacha_encrypt(&key, &nonce, plaintext) {
        Some(ciphertext) => {
            let mut output: Vec<u8> = Vec::new();
            let mut i: usize = 0;
            while i < NONCE_LEN
                invariant
                    i <= NONCE_LEN,
                    output@ == nonce@.take(i as int),
                decreases NONCE_LEN - i,
            {
                output.push(nonce[i]);
                proof {
                    assert(nonce@.take(i + 1) =~= nonce@.take(i as int).push(nonce@[i as int]));
                }
                i = i + 1;
            }
            let mut j: usize = 0;
            while j < ciphertext.len()
                invariant
                    j <= ciphertext.len(),
                    output@ == nonce@ + ciphertext@.take(j as int),
                decreases ciphertext.len() - j,
            {
                output.push(ciphertext[j]);
                proof {
                    assert(ciphertext@.take(j + 1) =~= ciphertext@.take(j as int).push(ciphertext@[j as int]));
                }
                j = j + 1;
            }
            proof {
                assert(nonce@.take(NONCE_LEN as int) =~= nonce@);
                assert(ciphertext@.take(j as int) =~= ciphertext@);
                assert(output@.take(NONCE_LEN as int) =~= nonce@);
                assert(output@.skip(NONCE_LEN as int) =~= ciphertext@);
            }
            Ok(output)
        },
        None => Err(CryptoError::EncryptionFailed),
    }
}

/// Decrypt a message from a sender (the same key exchange, from the other
/// side). Input: the nonce (12 bytes), then the ciphertext with its tag.
///
/// What `encrypt` made for this recipient with a secret whose public key
/// is `sender_public` decrypts to the plaintext that was encrypted.
pub fn decrypt(data: &[u8], sender_public: &X25519PublicKey, recipient_secret: &X25519Secret) -> (r: Result<Vec<u8>, CryptoError>)
    ensures
        data@.len() < NONCE_LEN + TAG_LEN ==> r matches Err(CryptoError::InvalidFormat),
        data@.len() >= NONCE_LEN + TAG_LEN ==> match chacha_open(
            box_key(recipient_secret.bytes(), sender_public.bytes()),
            data@.take(NONCE_LEN as int),
            data@.skip(NONCE_LEN as int),
        ) {
            Some(p) => r matches Ok(v) && v@ == p,
            None => r matches Err(CryptoError::DecryptionFailed),
        },
        forall|s: Seq<u8>, m: Seq<u8>|
            s.len() == 32 && sender_public.bytes() == x25519_public(s) && data@.len() >= NONCE_LEN + TAG_LEN
                && chacha_seal(
                    box_key(s, x25519_public(recipient_secret.bytes())),
                    data@.take(NONCE_LEN as int),
                    m,
                ) == Some(data@.skip(NONCE_LEN as int))
                ==> (r matches Ok(v) && v@ == m),
{
    if data.len() < NONCE_LEN + TAG_LEN {
        return Err(CryptoError::InvalidFormat);
    }
    let shared = x25519_diffie_hellman(&recipient_secret.bytes, &sender_public.bytes);
    let key = sha256(&shared);
    let mut nonce = [0u8; 12];
    let mut i: usize = 0;
    while i < NONCE_LEN
        invariant
            i <= NONCE_LEN <= data@.len(),
            forall|j: int| 0 <= j < i ==> nonce@[j] == data@[j],
        decreases NONCE_LEN - i,
    {
        nonce[i] = data[i];
        i = i + 1;
    }
    proof {
        assert(nonce@ =~= data@.take(NONCE_LEN as int));
    }
    let ciphertext = slice_subrange(data, NONCE_LEN, data.len());
    proof {
        assert(ciphertext@ =~= data@.skip(NONCE_LEN as int));
    }
    match chacha_decrypt(&key, &nonce, ciphertext) {
        Some(p) => Ok(p),
        None => Err(CryptoError::DecryptionFailed),
    }
}

} // verus!
