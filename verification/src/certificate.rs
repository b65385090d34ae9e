//! Certificates: signed grants of access to a path for another identity.

use vstd::prelude::*;
use crate::hex::{hex_decode, hex_decode_chars, hex_encode, hex_of_bytes, law_hex_roundtrip};
use crate::identity::now_ms;
use crate::primitives::{ed25519_accepts, ed25519_key_decodes, ed25519_public, ed25519_signature};
use crate::render::{float_debug_chars, float_debug_text, float_display_chars, float_shown, int_decimal};
use crate::sign::{sign, verify, SigningKey, VerifyingKey};
use crate::text::{chars_eq, chars_of, chars_start_with, string_of_chars};

verus! {

/// What a certificate allows.
#[derive(Debug, Clone, Copy, PartialEq, Eq, Structural)]
pub struct Permissions {
    pub read: bool,
    pub write: bool,
    pub delete: bool,
}

impl Permissions {
    pub fn read_write() -> (r: Permissions)
        ensures
            r == (Permissions { read: true, write: true, delete: false }),
    {
        Permissions { read: true, write: true, delete: false }
    }

    pub fn full() -> (r: Permissions)
        ensures
            r == (Permissions { read: true, write: true, delete: true }),
    {
        Permissions { read: true, write: true, delete: true }
    }

    pub fn read_only() -> (r: Permissions)
        ensures
            r == (Permissions { read: true, write: false, delete: false }),
    {
        Permissions { read: true, write: false, delete: false }
    }
}

/// An operation that a certificate may allow.
#[derive(Debug, Clone, Copy, PartialEq, Eq, Structural)]
pub enum Operation {
    Read,
    Write,
    Delete,
}

/// Why a certificate does not verify.
#[derive(Debug, Clone, Copy, PartialEq, Eq, Structural)]
pub enum CertificateError {
    Expired,
    InvalidIssuer,
    InvalidSignature,
}

/// A certificate grants an identity (the grantee) permission on a path
/// pattern, signed by the data owner (the issuer), optionally until an
/// expiry time.
#[derive(Debug)]
pub struct Certificate {
    /// Who issued this certificate (hex-encoded Ed25519 public key).
    pub issuer: String,
    /// Who is granted permission (hex-encoded Ed25519 public key).
    pub grantee: String,
    /// Path pattern the grantee may use ("users/alice/posts/*").
    pub path: String,
    /// What operations are allowed.
    pub permissions: Permissions,
    /// When the certificate was created (milliseconds since the epoch).
    pub created_at: i64,
    /// When the certificate expires (milliseconds); none for never.
    pub expires_at: Option<i64>,
    /// Detached Ed25519 signature of the issuer over the certificate body.
    pub signature: Vec<u8>,
}

/// `true` or `false`, as `Debug` writes a boolean.
pub open spec fn bool_text(b: bool) -> Seq<char> {
    if b {
        seq!['t', 'r', 'u', 'e']
    } else {
        seq!['f', 'a', 'l', 's', 'e']
    }
}

/// The permissions as `Debug` writes them:
/// "Permissions { read: true, write: true, delete: false }".
pub open spec fn permissions_text(p: Permissions) -> Seq<char> {
    "Permissions { read: "@ + bool_text(p.read) + ", write: "@ + bool_text(p.write) + ", delete: "@
        + bool_text(p.delete) + " }"@
}

/// The expiry as `Debug` writes an optional millisecond count held as a
/// floating-point number: "None", or "Some(1000.0)" (from 1e16 on in
/// exponent form, "Some(1e16)").
pub open spec fn expiry_text(e: Option<i64>) -> Seq<char> {
    match e {
        None => "None"@,
        Some(t) => "Some("@ + float_debug_text(t as int) + ")"@,
    }
}

/// The text that the issuer signs: issuer, grantee, path, permissions,
/// creation time and expiry, one per line.
pub open spec fn certificate_body(
    issuer: Seq<char>,
    grantee: Seq<char>,
    path: Seq<char>,
    permissions: Permissions,
    created_at: i64,
    expires_at: Option<i64>,
) -> Seq<char> {
    issuer + seq!['\n'] + grantee + seq!['\n'] + path + seq!['\n'] + permissions_text(permissions) + seq!['\n']
        + int_decimal(float_shown(created_at as int)) + seq!['\n'] + expiry_text(expires_at)
}

/// Whether a path pattern covers a path: a pattern ending in '*' covers
/// every path that begins with the rest of it, any other only itself.
pub open spec fn path_covers(pattern: Seq<char>, path: Seq<char>) -> bool {
    if pattern.len() > 0 && pattern.last() == '*' {
        pattern.drop_last().is_prefix_of(path)
    } else {
        pattern == path
    }
}

/// Whether the permissions allow an operation.
pub open spec fn permits(p: Permissions, op: Operation) -> bool {
    match op {
        Operation::Read => p.read,
        Operation::Write => p.write,
        Operation::Delete => p.delete,
    }
}

/// The outcome of verifying a certificate at `current_time`: expired past
/// its expiry; otherwise the issuer must be the hexadecimal form of 32
/// bytes that decode as an Ed25519 public key, and the signature must be
/// that key's signature of the UTF-8 body.
pub open spec fn certificate_check(
    issuer: Seq<char>,
    body: Seq<char>,
    expires_at: Option<i64>,
    signature: Seq<u8>,
    current_time: i64,
) -> Result<(), CertificateError> {
    if expires_at is Some && current_time > expires_at->0 {
        Err(CertificateError::Expired)
    } else {
        match hex_decode_chars(issuer) {
            None => Err(CertificateError::InvalidIssuer),
            Some(key) => if key.len() != 32 || !ed25519_key_decodes(key) {
                Err(CertificateError::InvalidIssuer)
            } else if signature.len() == 64 && ed25519_accepts(key, vstd::utf8::encode_utf8(body), signature) {
                Ok(())
            } else {
                Err(CertificateError::InvalidSignature)
            },
        }
    }
}

fn push_str(out: &mut Vec<char>, s: &str)
    ensures
        final(out)@ == old(out)@ + s@,
{
    let mut cs = chars_of(s);
    out.append(&mut cs);
}

fn push_bool(out: &mut Vec<char>, b: bool)
    ensures
        final(out)@ == old(out)@ + bool_text(b),
{
    let ghost before = out@;
    if b {
        out.push('t');
        out.push('r');
        out.push('u');
        out.push('e');
    } else {
        out.push('f');
        out.push('a');
        out.push('l');
        out.push('s');
        out.push('e');
    }
    proof {
        assert(out@ =~= before + bool_text(b));
    }
}

impl Certificate {
    /// The certificate's signed body.
    pub open spec fn body(&self) -> Seq<char> {
        certificate_body(self.issuer@, self.grantee@, self.path@, self.permissions, self.created_at, self.expires_at)
    }

    /// Create and sign a certificate, stamped with the current time.
    ///
    /// It verifies, at any time up to its expiry: its issuer is the
    /// signing key's public key in hexadecimal, and its signature is that
    /// key's signature of its body.
    pub fn create(
        issuer_key: &SigningKey,
        grantee_pub_hex: &str,
        path: &str,
        permissions: Permissions,
        expires_at: Option<i64>,
    ) -> (r: Certificate)
        ensures
            r.issuer@ == hex_of_bytes(ed25519_public(issuer_key.seed())),
            r.grantee@ == grantee_pub_hex@,
            r.path@ == path@,
            r.permissions == permissions,
            r.expires_at == expires_at,
            r.signature@ == ed25519_signature(issuer_key.seed(), vstd::utf8::encode_utf8(r.body())),
            forall|t: i64| (expires_at is None || t <= expires_at->0)
                ==> certificate_check(r.issuer@, r.body(), r.expires_at, r.signature@, t) == Ok::<(), CertificateError>(()),
    {
        let public = issuer_key.verifying_key();
        let public_bytes = public.to_bytes();
        let issuer = hex_encode(&public_bytes);
        let created_at = now_ms();
        let mut cert = Certificate {
            issuer,
            grantee: grantee_pub_hex.to_string(),
            path: path.to_string(),
            permissions,
            created_at,
            expires_at,
            signature: Vec::new(),
        };
        let body = cert.canonical_body();
        cert.signature = sign(body.as_str().as_bytes(), issuer_key);
        proof {
            law_hex_roundtrip(ed25519_public(issuer_key.seed()));
            assert(hex_decode_chars(cert.issuer@) == Some(public_bytes@));
            assert(ed25519_key_decodes(public_bytes@));
        }
        cert
    }

    /// Verify the certificate's expiry and signature at `current_time`.
    pub fn verify(&self, current_time: i64) -> (r: Result<(), CertificateError>)
        ensures
            r == certificate_check(self.issuer@, self.body(), self.expires_at, self.signature@, current_time),
    {
        if let Some(expires) = self.expires_at {
            if current_time > expires {
                return Err(CertificateError::Expired);
            }
        }
        let issuer_bytes = match hex_decode(self.issuer.as_str()) {
            Some(b) => b,
            None => return Err(CertificateError::InvalidIssuer),
        };
        if issuer_bytes.len() != 32 {
            return Err(CertificateError::InvalidIssuer);
        }
        let mut key_bytes = [0u8; 32];
        let mut i: usize = 0;
        while i < 32
            invariant
                i <= 32,
                issuer_bytes@.len() == 32,
                forall|j: int| 0 <= j < i ==> key_bytes@[j] == issuer_bytes@[j],
            decreases 32 - i,
        {
            key_bytes[i] = issuer_bytes[i];
            i = i + 1;
        }
        proof {
            assert(key_bytes@ =~= issuer_bytes@);
        }
        let verifying_key = match VerifyingKey::from_bytes(&key_bytes) {
            Ok(k) => k,
            Err(_) => return Err(CertificateError::InvalidIssuer),
        };
        let body = self.canonical_body();
        match verify(body.as_str().as_bytes(), self.signature.as_slice(), &verifying_key) {
            Ok(()) => Ok(()),
            Err(_) => Err(CertificateError::InvalidSignature),
        }
    }

    /// Whether the certificate allows `operation` on `path`.
    pub fn allows(&self, path: &str, operation: Operation) -> (r: bool)
        ensures
            r == (permits(self.permissions, operation) && path_covers(self.path@, path@)),
    {
        let perm_ok = match operation {
            Operation::Read => self.permissions.read,
            Operation::Write => self.permissions.write,
            Operation::Delete => self.permissions.delete,
        };
        perm_ok && self.path_matches(path)
    }

    fn path_matches(&self, path: &str) -> (r: bool)
        ensures
            r == path_covers(self.path@, path@),
    {
        let pattern = chars_of(self.path.as_str());
        let target = chars_of(path);
        if pattern.len() > 0 && pattern[pattern.len() - 1] == '*' {
            let mut prefix = pattern;
            prefix.pop();
            proof {
                assert(prefix@ =~= self.path@.drop_last());
            }
            chars_start_with(&target, &prefix)
        } else {
            chars_eq(&pattern, &target)
        }
    }

    fn canonical_body(&self) -> (r: String)
        ensures
            r@ == self.body(),
    {
        let mut out = chars_of(self.issuer.as_str());
        out.push('\n');
        push_str(&mut out, self.grantee.as_str());
        out.push('\n');
        push_str(&mut out, self.path.as_str());
        out.push('\n');
        let ghost head = out@;
        proof {
            assert(head =~= self.issuer@ + seq!['\n'] + self.grantee@ + seq!['\n'] + self.path@ + seq!['\n']);
        }
        let perms = permissions_chars(self.permissions);
        let mut p = perms;
        out.append(&mut p);
        out.push('\n');
        let mut created = float_display_chars(self.created_at);
        out.append(&mut created);
        out.push('\n');
        let mut e = expiry_chars(self.expires_at);
        out.append(&mut e);
        proof {
            assert(out@ =~= self.body());
        }
        string_of_chars(&out)
    }
}

fn permissions_chars(p: Permissions) -> (r: Vec<char>)
    ensures
        r@ == permissions_text(p),
{
    let mut out: Vec<char> = Vec::new();
    push_str(&mut out, "Permissions { read: ");
    push_bool(&mut out, p.read);
    push_str(&mut out, ", write: ");
    push_bool(&mut out, p.write);
    push_str(&mut out, ", delete: ");
    push_bool(&mut out, p.delete);
    push_str(&mut out, " }");
    proof {
        assert(out@ =~= permissions_text(p));
    }
    out
}

fn expiry_chars(e: Option<i64>) -> (r: Vec<char>)
    ensures
        r@ == expiry_text(e),
{
    let mut out: Vec<char> = Vec::new();
    match e {
        None => push_str(&mut out, "None"),
        Some(t) => {
            push_str(&mut out, "Some(");
            let mut d = float_debug_chars(t);
            out.append(&mut d);
            push_str(&mut out, ")");
        },
    }
    proof {
        assert(out@ =~= expiry_text(e));
    }
    out
}

} // verus!
