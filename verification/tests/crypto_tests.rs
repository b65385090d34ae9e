use chacha20poly1305::aead::{Aead, KeyInit};
use chacha20poly1305::{ChaCha20Poly1305, Nonce};
use ed25519_dalek::Signer;
use sha2::{Digest, Sha256, Sha512};

use rawkit::certificate::{Certificate, CertificateError, Operation, Permissions};
use rawkit::encrypt::{decrypt, encrypt, CryptoError, X25519PublicKey, X25519Secret};
use rawkit::hex::{hex_decode, hex_encode};
use rawkit::identity::{now_ms, ChainType, Identity};
use rawkit::render::{float_debug_chars, float_decimal_string};
use rawkit::sign::{sign, sign_update, verify, verify_update, SignError, SigningKey, VerifyingKey};

// ----- certificates -----

#[test]
fn test_create_and_verify_certificate() {
    let issuer = SigningKey::generate();
    let grantee = SigningKey::generate();
    let grantee_pub = hex_encode(grantee.verifying_key().as_bytes());

    let cert = Certificate::create(&issuer, &grantee_pub, "users/alice/posts/*", Permissions::read_write(), None);

    assert!(cert.verify(now_ms()).is_ok());
}

#[test]
fn test_expired_certificate() {
    let issuer = SigningKey::generate();
    let cert = Certificate::create(&issuer, "deadbeef", "test/*", Permissions::read_only(), Some(1000));

    assert!(matches!(cert.verify(now_ms()), Err(CertificateError::Expired)));
}

#[test]
fn test_path_matching() {
    let issuer = SigningKey::generate();
    let cert = Certificate::create(&issuer, "grantee", "users/alice/*", Permissions::full(), None);

    assert!(cert.allows("users/alice/posts", Operation::Write));
    assert!(cert.allows("users/alice/profile", Operation::Read));
    assert!(!cert.allows("users/bob/posts", Operation::Write));
}

#[test]
fn test_exact_path_matching() {
    let issuer = SigningKey::generate();
    let cert = Certificate::create(&issuer, "grantee", "users/alice/name", Permissions::read_write(), None);

    assert!(cert.allows("users/alice/name", Operation::Write));
    assert!(!cert.allows("users/alice/age", Operation::Write));
}

#[test]
fn certificate_issuer_is_the_hex_public_key() {
    let issuer = SigningKey::from_bytes(&[7u8; 32]);
    let cert = Certificate::create(&issuer, "g", "p", Permissions::read_only(), None);
    let expected = ed25519_dalek::SigningKey::from_bytes(&[7u8; 32]).verifying_key().to_bytes();
    assert_eq!(cert.issuer, hex::encode(expected));
    assert_eq!(cert.signature.len(), 64);
}

#[test]
fn certificate_valid_until_its_expiry() {
    let issuer = SigningKey::generate();
    let cert = Certificate::create(&issuer, "g", "p/*", Permissions::full(), Some(5_000));
    assert!(cert.verify(5_000).is_ok());
    assert!(cert.verify(0).is_ok());
    assert_eq!(cert.verify(5_001), Err(CertificateError::Expired));
}

#[test]
fn certificate_with_bad_issuer_is_refused() {
    let issuer = SigningKey::generate();
    let mut cert = Certificate::create(&issuer, "g", "p", Permissions::full(), None);
    cert.issuer = "not hex".to_string();
    assert_eq!(cert.verify(now_ms()), Err(CertificateError::InvalidIssuer));
    cert.issuer = "abcd".to_string();
    assert_eq!(cert.verify(now_ms()), Err(CertificateError::InvalidIssuer));
}

#[test]
fn certificate_changed_after_signing_is_refused() {
    let issuer = SigningKey::generate();
    let mut cert = Certificate::create(&issuer, "g", "users/alice/*", Permissions::read_only(), None);
    cert.path = "users/*".to_string();
    assert_eq!(cert.verify(now_ms()), Err(CertificateError::InvalidSignature));

    let mut cert = Certificate::create(&issuer, "g", "users/alice/*", Permissions::read_only(), None);
    cert.permissions = Permissions::full();
    assert_eq!(cert.verify(now_ms()), Err(CertificateError::InvalidSignature));

    let mut cert = Certificate::create(&issuer, "g", "users/alice/*", Permissions::read_only(), None);
    cert.signature.truncate(10);
    assert_eq!(cert.verify(now_ms()), Err(CertificateError::InvalidSignature));
}

#[test]
fn certificate_permissions_decide_operations() {
    let issuer = SigningKey::generate();
    let cert = Certificate::create(&issuer, "g", "docs/*", Permissions::read_only(), None);
    assert!(cert.allows("docs/a", Operation::Read));
    assert!(!cert.allows("docs/a", Operation::Write));
    assert!(!cert.allows("docs/a", Operation::Delete));
    let cert = Certificate::create(&issuer, "g", "*", Permissions::full(), None);
    assert!(cert.allows("anything/at/all", Operation::Delete));
    assert!(cert.allows("", Operation::Read));
}

#[test]
fn certificate_signature_covers_the_documented_body() {
    let seed = [3u8; 32];
    let issuer = SigningKey::from_bytes(&seed);
    let cert = Certificate::create(&issuer, "gg", "a/*", Permissions::read_write(), Some(1000));
    let body = format!(
        "{}\n{}\n{}\n{:?}\n{}\n{:?}",
        cert.issuer,
        cert.grantee,
        cert.path,
        cert.permissions,
        cert.created_at,
        Some(1000.0f64)
    );
    let expected = ed25519_dalek::SigningKey::from_bytes(&seed).sign(body.as_bytes()).to_bytes();
    assert_eq!(cert.signature, expected.to_vec());
}

// ----- encryption -----

#[test]
fn test_encrypt_decrypt_roundtrip() {
    let alice_secret = X25519Secret::random();
    let alice_public = alice_secret.public_key();

    let bob_secret = X25519Secret::random();
    let bob_public = bob_secret.public_key();

    let message = b"Hello, Bob! This is a secret message.";

    let encrypted = encrypt(message, &bob_public, &alice_secret).unwrap();
    assert_ne!(&encrypted[12..], message);

    let decrypted = decrypt(&encrypted, &alice_public, &bob_secret).unwrap();
    assert_eq!(&decrypted, message);
}

#[test]
fn test_wrong_key_fails() {
    let alice_secret = X25519Secret::random();
    let bob_secret = X25519Secret::random();
    let bob_public = bob_secret.public_key();
    let eve_secret = X25519Secret::random();

    let encrypted = encrypt(b"secret", &bob_public, &alice_secret).unwrap();

    let eve_public = eve_secret.public_key();
    let result = decrypt(&encrypted, &eve_public, &bob_secret);
    assert!(result.is_err());
}

#[test]
fn test_tampered_ciphertext_fails() {
    let alice_secret = X25519Secret::random();
    let alice_public = alice_secret.public_key();
    let bob_secret = X25519Secret::random();
    let bob_public = bob_secret.public_key();

    let mut encrypted = encrypt(b"secret", &bob_public, &alice_secret).unwrap();
    let last = encrypted.len() - 1;
    encrypted[last] ^= 0xFF;

    let result = decrypt(&encrypted, &alice_public, &bob_secret);
    assert!(result.is_err());
}

#[test]
fn test_short_input_fails() {
    let secret = X25519Secret::random();
    let public = secret.public_key();
    let result = decrypt(&[0u8; 10], &public, &secret);
    assert!(result.is_err());
}

#[test]
fn decrypt_errors_by_kind() {
    let secret = X25519Secret::from_bytes([9u8; 32]);
    let public = secret.public_key();
    assert!(matches!(decrypt(&[0u8; 27], &public, &secret), Err(CryptoError::InvalidFormat)));
    assert!(matches!(decrypt(&[0u8; 28], &public, &secret), Err(CryptoError::DecryptionFailed)));
}

#[test]
fn ciphertext_layout_and_key_derivation() {
    let alice = X25519Secret::from_bytes([1u8; 32]);
    let bob = X25519Secret::from_bytes([2u8; 32]);
    let message = b"layout check";
    let encrypted = encrypt(message, &bob.public_key(), &alice).unwrap();
    assert_eq!(encrypted.len(), 12 + message.len() + 16);

    let shared = x25519_dalek::StaticSecret::from([2u8; 32])
        .diffie_hellman(&x25519_dalek::PublicKey::from(&x25519_dalek::StaticSecret::from([1u8; 32])));
    let key = Sha256::digest(shared.as_bytes());
    let cipher = ChaCha20Poly1305::new_from_slice(&key).unwrap();
    let plain = cipher.decrypt(Nonce::from_slice(&encrypted[..12]), &encrypted[12..]).unwrap();
    assert_eq!(plain, message.to_vec());
}

#[test]
fn empty_message_roundtrip() {
    let alice = X25519Secret::random();
    let bob = X25519Secret::random();
    let encrypted = encrypt(b"", &bob.public_key(), &alice).unwrap();
    assert_eq!(encrypted.len(), 28);
    assert_eq!(decrypt(&encrypted, &alice.public_key(), &bob).unwrap(), Vec::<u8>::new());
}

#[test]
fn x25519_keys_match_the_curve() {
    let secret = X25519Secret::from_bytes([5u8; 32]);
    let expected = x25519_dalek::PublicKey::from(&x25519_dalek::StaticSecret::from([5u8; 32]));
    assert_eq!(secret.public_key().as_bytes(), expected.as_bytes());
    assert_eq!(secret.to_bytes(), [5u8; 32]);
    let public = X25519PublicKey::from_bytes([8u8; 32]);
    assert_eq!(public.to_bytes(), [8u8; 32]);
}

// ----- identity -----

#[test]
fn test_deterministic_derivation() {
    let sig = b"test-wallet-signature-bytes-here-padding-to-fill";

    let id1 = Identity::from_wallet_signature("0xABCD", ChainType::Evm, sig);
    let id2 = Identity::from_wallet_signature("0xABCD", ChainType::Evm, sig);

    assert_eq!(id1.verifying_key().as_bytes(), id2.verifying_key().as_bytes());
    assert_eq!(id1.encryption_public.as_bytes(), id2.encryption_public.as_bytes());
}

#[test]
fn test_different_sigs_different_keys() {
    let id1 = Identity::from_wallet_signature("addr1", ChainType::Chia, b"signature-one-pad");
    let id2 = Identity::from_wallet_signature("addr2", ChainType::Chia, b"signature-two-pad");

    assert_ne!(id1.verifying_key().as_bytes(), id2.verifying_key().as_bytes());
}

#[test]
fn test_standalone_identity() {
    let id = Identity::generate_standalone();
    assert!(id.address.starts_with("rawkit:"));
    assert_eq!(id.chain, ChainType::Standalone);
}

#[test]
fn derivation_splits_sha512_of_the_signature() {
    let sig = b"some wallet signature";
    let id = Identity::from_wallet_signature("0x1", ChainType::Solana, sig);
    let digest = Sha512::digest(sig);
    assert_eq!(&id.signing_key.to_bytes()[..], &digest[..32]);
    assert_eq!(&id.encryption_secret.to_bytes()[..], &digest[32..]);
    let mut secret = [0u8; 32];
    secret.copy_from_slice(&digest[32..]);
    let expected = x25519_dalek::PublicKey::from(&x25519_dalek::StaticSecret::from(secret));
    assert_eq!(id.encryption_public.as_bytes(), expected.as_bytes());
    assert_eq!(id.address, "0x1");
    assert_eq!(id.chain, ChainType::Solana);
}

#[test]
fn standalone_address_is_the_hex_public_key() {
    let id = Identity::generate_standalone();
    let expected = format!("rawkit:{}", hex::encode(id.verifying_key().as_bytes()));
    assert_eq!(id.address, expected);
    assert_eq!(id.address.len(), 7 + 64);
}

#[test]
fn public_identity_carries_the_public_keys() {
    let id = Identity::from_wallet_signature("addr", ChainType::Bitcoin, b"sig");
    let public = id.to_public();
    assert_eq!(public.address, "addr");
    assert_eq!(public.chain, ChainType::Bitcoin);
    assert_eq!(&public.signing_key, id.verifying_key().as_bytes());
    assert_eq!(&public.encryption_key, id.encryption_public.as_bytes());
}

#[test]
fn now_ms_is_after_2020() {
    assert!(now_ms() > 1_577_836_800_000);
}

// ----- signatures -----

#[test]
fn test_sign_verify_roundtrip() {
    let signing_key = SigningKey::generate();
    let verifying_key = signing_key.verifying_key();

    let data = b"Hello, Rawkit!";
    let sig = sign(data, &signing_key);

    assert!(verify(data, &sig, &verifying_key).is_ok());
}

#[test]
fn test_wrong_key_verification_fails() {
    let key1 = SigningKey::generate();
    let key2 = SigningKey::generate();

    let data = b"test data";
    let sig = sign(data, &key1);

    assert!(verify(data, &sig, &key2.verifying_key()).is_err());
}

#[test]
fn test_tampered_data_fails() {
    let key = SigningKey::generate();

    let sig = sign(b"original", &key);
    assert!(verify(b"tampered", &sig, &key.verifying_key()).is_err());
}

#[test]
fn test_sign_verify_update() {
    let key = SigningKey::generate();

    let sig = sign_update("users/alice", "name", "\"Alice\"", 1000, &key);
    assert!(verify_update("users/alice", "name", "\"Alice\"", 1000, &sig, &key.verifying_key()).is_ok());

    assert!(verify_update("users/bob", "name", "\"Alice\"", 1000, &sig, &key.verifying_key()).is_err());
}

#[test]
fn signatures_match_ed25519() {
    let seed = [42u8; 32];
    let key = SigningKey::from_bytes(&seed);
    let dalek = ed25519_dalek::SigningKey::from_bytes(&seed);
    assert_eq!(key.verifying_key().to_bytes(), dalek.verifying_key().to_bytes());
    assert_eq!(sign(b"data", &key), dalek.sign(b"data").to_bytes().to_vec());
    assert_eq!(key.to_bytes(), seed);
}

#[test]
fn update_signature_covers_canonical_text() {
    let seed = [11u8; 32];
    let key = SigningKey::from_bytes(&seed);
    let sig = sign_update("s", "k", "1", -5, &key);
    let dalek = ed25519_dalek::SigningKey::from_bytes(&seed);
    assert_eq!(sig, dalek.sign(b"s\nk\n1\n-5").to_bytes().to_vec());
    assert!(verify_update("s", "k", "1", -4, &sig, &key.verifying_key()).is_err());
}

#[test]
fn signature_errors_by_kind() {
    let key = SigningKey::generate();
    let sig = sign(b"x", &key);
    assert_eq!(verify(b"x", &sig[..63], &key.verifying_key()), Err(SignError::InvalidFormat));
    assert_eq!(verify(b"y", &sig, &key.verifying_key()), Err(SignError::VerificationFailed));
    assert_eq!(verify_update("a", "b", "c", 1, &[0u8; 3], &key.verifying_key()), Err(SignError::InvalidFormat));
}

#[test]
fn verifying_key_from_bytes() {
    let key = SigningKey::from_bytes(&[1u8; 32]);
    let public = key.verifying_key().to_bytes();
    let parsed = VerifyingKey::from_bytes(&public).unwrap();
    assert_eq!(parsed.to_bytes(), public);
    // Whether an encoding decodes is the curve library's decision.
    let mut not_a_point = [0u8; 32];
    not_a_point[0] = 2;
    assert_eq!(
        ed25519_dalek::VerifyingKey::from_bytes(&not_a_point).is_err(),
        VerifyingKey::from_bytes(&not_a_point).is_err()
    );
}

// ----- hexadecimal and decimal text -----

#[test]
fn hex_encoding_is_lower_case() {
    assert_eq!(hex_encode(&[0xde, 0xad, 0xbe, 0xef, 0x00, 0x0f]), "deadbeef000f");
    assert_eq!(hex_encode(&[]), "");
}

#[test]
fn hex_decoding_accepts_either_case() {
    assert_eq!(hex_decode("DeadBEEF"), Some(vec![0xde, 0xad, 0xbe, 0xef]));
    assert_eq!(hex_decode(""), Some(vec![]));
    assert_eq!(hex_decode("abc"), None);
    assert_eq!(hex_decode("zz"), None);
    let bytes: Vec<u8> = (0..=255u8).collect();
    assert_eq!(hex_decode(&hex_encode(&bytes)), Some(bytes.clone()));
    assert_eq!(hex_encode(&bytes), hex::encode(&bytes));
}

#[test]
fn decimal_rendering() {
    let mut cases = vec![0i64, 1000, -17, i64::MIN, i64::MAX, 9_999_999_999_999_998, 10_000_000_000_000_000, -10_000_000_000_000_000, 123_456_789_012_345_678];
    let mut x: u64 = 12345;
    for i in 0..20000u32 {
        x = x.wrapping_mul(6364136223846793005).wrapping_add(1442695040888963407);
        let n = (x >> (i % 64)) as i64;
        cases.push(if i % 2 == 0 { n } else { n.wrapping_neg() });
    }
    for n in cases {
        assert_eq!(float_decimal_string(n), (n as f64).to_string(), "{}", n);
        assert_eq!(float_debug_chars(n).into_iter().collect::<String>(), format!("{:?}", n as f64), "{}", n);
    }
}
