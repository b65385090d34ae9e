//! Identities derived from wallet signatures, or standalone.

use vstd::prelude::*;
use crate::encrypt::{X25519PublicKey, X25519Secret};
use crate::hex::{hex_encode, hex_of_bytes};
use crate::primitives::{ed25519_public, sha512, sha512_digest, wipe_32, wipe_64, x25519_public};
use crate::sign::{SigningKey, VerifyingKey};
use crate::text::{chars_of, string_of_chars};

verus! {

/// The system clock's distance from the Unix epoch in milliseconds: `Ok`
/// after the epoch, `Err` before it.
///
/// Calls `std::time::SystemTime::now().duration_since(UNIX_EPOCH)` and
/// takes the milliseconds of the duration (or of the error's duration);
/// nothing is claimed of the result, which is the clock's reading. A clock
/// before the epoch is no failure. On a target that has no system clock
/// (`wasm32-unknown-unknown`), std's `SystemTime::now` panics; nothing
/// here can rule that target out.
#[verifier::external_body]
fn system_clock_ms() -> Result<u64, u64> {
    match std::time::SystemTime::now().duration_since(std::time::UNIX_EPOCH) {
        Ok(d) => Ok(d.as_millis() as u64),
        Err(e) => Err(e.duration().as_millis() as u64),
    }
}

/// The current time in milliseconds since the Unix epoch (negative before
/// it), saturated at the bounds of `i64`; a reading before the epoch
/// saturates at `-i64::MAX`, so the result is never `i64::MIN`.
pub fn now_ms() -> (r: i64)
    ensures
        r > i64::MIN,
{
    match system_clock_ms() {
        Ok(ms) => {
            if ms > 9223372036854775807u64 {
                9223372036854775807i64
            } else {
                ms as i64
            }
        },
        Err(ms) => {
            if ms > 9223372036854775807u64 {
                -9223372036854775807i64
            } else {
                0 - (ms as i64)
            }
        },
    }
}

/// The chain whose wallet signature an identity was derived from.
#[derive(Debug, Clone, Copy, PartialEq, Eq, Structural)]
pub enum ChainType {
    Chia,
    Evm,
    Solana,
    Bitcoin,
    Standalone,
}

/// An identity: an Ed25519 signing key and an X25519 encryption key pair,
/// with the wallet address it belongs to.
///
/// Derived from a wallet signature, it is deterministic: SHA-512 of the
/// signature gives 64 bytes, the first 32 the signing key's seed, the last
/// 32 the encryption secret.
pub struct Identity {
    /// The wallet address this identity was derived from.
    pub address: String,
    /// Which blockchain the wallet belongs to.
    pub chain: ChainType,
    /// Ed25519 signing key.
    pub signing_key: SigningKey,
    /// X25519 encryption secret.
    pub encryption_secret: X25519Secret,
    /// Public encryption key (safe to share).
    pub encryption_public: X25519PublicKey,
}

/// The public portion of an identity, safe to publish to peers.
#[derive(Debug, Clone, PartialEq, Eq)]
pub struct PublicIdentity {
    pub address: String,
    pub chain: ChainType,
    pub signing_key: [u8; 32],
    pub encryption_key: [u8; 32],
}

/// The address of a standalone identity: "rawkit:" and the hexadecimal
/// public signing key.
pub open spec fn standalone_address(public: Seq<u8>) -> Seq<char> {
    seq!['r', 'a', 'w', 'k', 'i', 't', ':'] + hex_of_bytes(public)
}

fn copy_32(src: &[u8; 64], from: usize) -> (r: [u8; 32])
    requires
        from == 0 || from == 32,
    ensures
        r@ == src@.subrange(from as int, from + 32),
{
    let mut out = [0u8; 32];
    let mut i: usize = 0;
    while i < 32
        invariant
            i <= 32,
            from == 0 || from == 32,
            forall|j: int| 0 <= j < i ==> out@[j] == src@[from + j],
        decreases 32 - i,
    {
        out[i] = src[from + i];
        i = i + 1;
    }
    proof {
        assert(out@ =~= src@.subrange(from as int, from + 32));
    }
    out
}

impl Identity {
    /// The challenge message that wallets sign to derive an identity.
    pub const CHALLENGE: &'static str = "Rawkit Identity Derivation - Sign to create your decentralized identity";

    /// Derive an identity from a wallet signature: the same signature always
    /// gives the same keys.
    pub fn from_wallet_signature(address: &str, chain: ChainType, signature: &[u8]) -> (r: Identity)
        ensures
            r.address@ == address@,
            r.chain == chain,
            r.signing_key.seed() == sha512_digest(signature@).subrange(0, 32),
            r.encryption_secret.bytes() == sha512_digest(signature@).subrange(32, 64),
            r.encryption_public.bytes() == x25519_public(sha512_digest(signature@).subrange(32, 64)),
    {
        let mut key_material = sha512(signature);
        let mut signing_seed = copy_32(&key_material, 0);
        let signing_key = SigningKey::from_bytes(&signing_seed);
        let mut encryption_seed = copy_32(&key_material, 32);
        let encryption_secret = X25519Secret::from_bytes(encryption_seed);
        let encryption_public = encryption_secret.public_key();
        wipe_64(&mut key_material);
        wipe_32(&mut signing_seed);
        wipe_32(&mut encryption_seed);
        Identity {
            address: address.to_string(),
            chain,
            signing_key,
            encryption_secret,
            encryption_public,
        }
    }

    /// A standalone identity, with random keys and no wallet.
    pub fn generate_standalone() -> (r: Identity)
        ensures
            r.address@ == standalone_address(ed25519_public(r.signing_key.seed())),
            r.chain == ChainType::Standalone,
            r.encryption_public.bytes() == x25519_public(r.encryption_secret.bytes()),
    {
        let signing_key = SigningKey::generate();
        let encryption_secret = X25519Secret::random();
        let encryption_public = encryption_secret.public_key();
        let public = signing_key.verifying_key().to_bytes();
        let hex = hex_encode(&public);
        let mut cs = vec!['r', 'a', 'w', 'k', 'i', 't', ':'];
        let mut hc = chars_of(hex.as_str());
        cs.append(&mut hc);
        proof {
            assert(cs@ =~= standalone_address(ed25519_public(signing_key.seed())));
        }
        Identity {
            address: string_of_chars(&cs),
            chain: ChainType::Standalone,
            signing_key,
            encryption_secret,
            encryption_public,
        }
    }

    /// The public signing key.
    pub fn verifying_key(&self) -> (r: VerifyingKey)
        ensures
            r.bytes() == ed25519_public(self.signing_key.seed()),
    {
        self.signing_key.verifying_key()
    }

    /// The public identity (safe to share with peers).
    pub fn to_public(&self) -> (r: PublicIdentity)
        ensures
            r.address@ == self.address@,
            r.chain == self.chain,
            r.signing_key@ == ed25519_public(self.signing_key.seed()),
            r.encryption_key@ == self.encryption_public.bytes(),
    {
        PublicIdentity {
            address: self.address.clone(),
            chain: self.chain,
            signing_key: self.verifying_key().to_bytes(),
            encryption_key: self.encryption_public.to_bytes(),
        }
    }
}

impl Clone for Identity {
    fn clone(&self) -> (r: Self)
        ensures
            r.address@ == self.address@,
            r.chain == self.chain,
            r.signing_key.seed() == self.signing_key.seed(),
            r.encryption_secret.bytes() == self.encryption_secret.bytes(),
            r.encryption_public.bytes() == self.encryption_public.bytes(),
    {
        Identity {
            address: self.address.clone(),
            chain: self.chain,
            signing_key: self.signing_key.clone(),
            encryption_secret: self.encryption_secret.clone(),
            encryption_public: self.encryption_public.clone(),
        }
    }
}

} // verus!
