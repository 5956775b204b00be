//! The credential hasher: Argon2id with a random per-call salt and the
//! server-side secret as an additional keyed input. The algorithm itself is
//! an outside call; what this module states about it is only the round trip
//! the hasher's documentation promises — a fresh hash verifies against the
//! password it was made from — plus the shape of the PHC hash string.

use crate::claims::token_safe_bytes;
use crate::errors::ErrorKind;
use argon2::{PasswordHasher, PasswordVerifier};
use vstd::prelude::*;
use vstd::utf8::encode_utf8;

verus! {

/// Whether the stored hash `hash` is the Argon2id hash of `password` under
/// the keyed `secret`, using the salt and parameters embedded in `hash`.
/// Verification recomputes the hash from those inputs alone, so this is a
/// pure function of the three strings; what it is on given values is stated
/// nowhere.
pub uninterp spec fn password_matches(password: Seq<char>, secret: Seq<char>, hash: Seq<char>)
    -> bool;

/// Relies on argon2::Argon2 with password_hash's PasswordHasher: hashing
/// draws a fresh random salt, and the produced PHC string verifies against
/// the same password and secret; a PHC string is `$`-separated ASCII
/// (identifiers, digits, `=`, `,` and base64), so it needs no JSON escaping.
#[verifier::external_body]
fn argon_hash(password: &str, secret: &str) -> (r: Option<String>)
    ensures
        match r {
            Some(h) => password_matches(password@, secret@, h@) && token_safe_bytes(
                encode_utf8(h@),
            ),
            None => true,
        },
{
    let ctx = argon2::Argon2::new_with_secret(
        secret.as_bytes(),
        argon2::Algorithm::Argon2id,
        argon2::Version::V0x13,
        argon2::Params::default(),
    ).ok()?;
    let hash: argon2::PasswordHash = ctx.hash_password(password.as_bytes()).ok()?;
    Some(hash.to_string())
}

/// Relies on argon2::Argon2 with password_hash's PasswordVerifier for `str`:
/// it recomputes the hash of `password` under `secret` with the salt and
/// parameters embedded in `hash` and compares in constant time; a malformed
/// hash string fails the comparison rather than aborting.
#[verifier::external_body]
fn argon_verify(password: &str, hash: &str, secret: &str) -> (r: bool)
    ensures
        r == password_matches(password@, secret@, hash@),
{
    let ctx = match argon2::Argon2::new_with_secret(
        secret.as_bytes(),
        argon2::Algorithm::Argon2id,
        argon2::Version::V0x13,
        argon2::Params::default(),
    ) {
        Ok(c) => c,
        Err(_) => return false,
    };
    ctx.verify_password(password.as_bytes(), hash).is_ok()
}

/// The credential hasher.
pub struct Password;

impl Password {
    /// Hash a password for storage. Fails with `ConfigMissing` exactly when
    /// the hashing secret is empty; a residual failure of the hashing
    /// collaborator surfaces as `StoreUnavailable`.
    pub fn hash(password: &str, secret: &str) -> (r: Result<String, ErrorKind>)
        ensures
            (secret@.len() == 0) ==> r == Err::<String, ErrorKind>(ErrorKind::ConfigMissing),
            match r {
                Ok(h) => {
                    &&& secret@.len() > 0
                    &&& password_matches(password@, secret@, h@)
                    &&& token_safe_bytes(encode_utf8(h@))
                },
                Err(e) => {
                    ||| (e == ErrorKind::ConfigMissing && secret@.len() == 0)
                    ||| (e == ErrorKind::StoreUnavailable && secret@.len() > 0)
                },
            },
    {
        if secret.is_empty() {
            return Err(ErrorKind::ConfigMissing);
        }
        match argon_hash(password, secret) {
            Some(h) => Ok(h),
            None => Err(ErrorKind::StoreUnavailable),
        }
    }

    /// Check a password against a stored hash: true exactly when the hash
    /// was made from this password under this secret. A malformed stored
    /// hash is reported as a mismatch, never a panic.
    pub fn verify(password: &str, hashed_password: &str, secret: &str) -> (r: bool)
        ensures
            r == password_matches(password@, secret@, hashed_password@),
    {
        argon_verify(password, hashed_password, secret)
    }
}

} // verus!
