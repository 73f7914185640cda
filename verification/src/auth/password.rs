//! Username/password credentials, hashed at rest with bcrypt.

use vstd::prelude::*;

verus! {

/// bcrypt work factor used for new hashes.
pub const DEFAULT_COST: u32 = 12;

/// The error of the `bcrypt` crate.
#[verifier::external_type_specification]
#[verifier::external_body]
pub struct ExBcryptError(bcrypt::BcryptError);

/// What `bcrypt::verify` reports for a password and a stored hash: whether they match,
/// or `None` when the hash is malformed (bad prefix, cost, salt or encoding).
pub uninterp spec fn bcrypt_check(password: Seq<u8>, hash: Seq<char>) -> Option<bool>;

/// `bcrypt::hash`: hashes with a random salt. A hash it returns verifies for the same
/// password (the hash records cost and salt, and `verify` recomputes from them); a cost
/// outside 4..=31 is an error.
#[verifier::external_body]
fn bcrypt_hash(password: &[u8], cost: u32) -> (r: Result<String, bcrypt::BcryptError>)
    ensures
        r matches Ok(h) ==> bcrypt_check(password@, h@) == Some(true),
        !(4 <= cost <= 31) ==> r is Err,
{
    bcrypt::hash(password, cost)
}

/// `bcrypt::verify`.
#[verifier::external_body]
fn bcrypt_verify(password: &[u8], hash: &str) -> (r: Result<bool, bcrypt::BcryptError>)
    ensures
        match r {
            Ok(b) => bcrypt_check(password@, hash@) == Some(b),
            Err(_) => bcrypt_check(password@, hash@) is None,
        },
{
    bcrypt::verify(password, hash)
}

/// Why a password could not be hashed or checked.
#[derive(Debug, Clone, Copy, PartialEq, Eq, Structural)]
pub enum PasswordError {
    Hash,
    Verify,
}

/// What checking `password` against the stored `hash` gives.
pub open spec fn password_check(password: Seq<u8>, hash: Seq<char>) -> Result<bool, PasswordError> {
    match bcrypt_check(password, hash) {
        Some(b) => Ok(b),
        None => Err(PasswordError::Verify),
    }
}

/// A bcrypt hash of `password` suitable for storage. A hash it returns checks as a
/// match for the same password.
pub fn hash_password(password: &[u8]) -> (r: Result<String, PasswordError>)
    ensures
        r matches Ok(h) ==> password_check(password@, h@) == Ok::<bool, PasswordError>(true),
        r is Err ==> r == Err::<String, PasswordError>(PasswordError::Hash),
{
    match bcrypt_hash(password, DEFAULT_COST) {
        Ok(h) => Ok(h),
        Err(_) => Err(PasswordError::Hash),
    }
}

/// Checks a plaintext password against a stored bcrypt hash.
pub fn verify_password(password: &[u8], hash: &str) -> (r: Result<bool, PasswordError>)
    ensures
        r == password_check(password@, hash@),
{
    match bcrypt_verify(password, hash) {
        Ok(b) => Ok(b),
        Err(_) => Err(PasswordError::Verify),
    }
}

} // verus!
