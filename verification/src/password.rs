//! Password hashing. Passwords are stored as Argon2 hashes in the PHC string
//! format, and a password is checked by hashing it again with the parameters
//! and the salt that the stored string holds.

use vstd::prelude::*;
use argon2::password_hash::PasswordHasher;
use argon2::password_hash::PasswordVerifier;
use crate::errors::ServerError;

verus! {

#[verifier::external_type_specification]
#[verifier::external_body]
pub struct ExSaltString(argon2::password_hash::SaltString);

#[verifier::external_type_specification]
#[verifier::external_body]
pub struct ExHashError(argon2::password_hash::Error);

/// Whether `hash` is a PHC string that Argon2, with its default settings,
/// accepts for `password`.
pub uninterp spec fn password_verifies(password: Seq<char>, hash: Seq<char>) -> bool;

/// Trusted: `PasswordHash::new`, which reads the stored string, followed by
/// `Argon2::verify_password`. The answer depends on the two strings alone,
/// and is what `password_verifies` names. A string that is no PHC hash
/// verifies no password. The check takes the memory and the time that the
/// stored string asks for.
#[verifier::external_body]
fn verify_password(password: &str, hash: &str) -> (ok: bool)
    ensures
        ok == password_verifies(password@, hash@),
{
    match argon2::PasswordHash::new(hash) {
        Ok(parsed) => argon2::Argon2::default().verify_password(
            password.as_bytes(),
            &parsed,
        ).is_ok(),
        Err(_) => false,
    }
}

/// Trusted: `SaltString::generate` with the random numbers of the operating
/// system. Nothing is known of the salt. The call does not return where the
/// operating system has no random numbers to give.
#[verifier::external_body]
fn fresh_salt() -> (salt: argon2::password_hash::SaltString) {
    argon2::password_hash::SaltString::generate(&mut argon2::password_hash::rand_core::OsRng)
}

/// Trusted: `Argon2::hash_password` with the default settings, and the hash
/// written as a PHC string. The string holds the settings and the salt that
/// the hash was made with, so the password that it was made from verifies
/// against it. Nothing else is claimed of the result.
#[verifier::external_body]
fn hash_with_salt(password: &str, salt: &argon2::password_hash::SaltString) -> (hashed: Result<
    String,
    argon2::password_hash::Error,
>)
    ensures
        hashed matches Ok(hash) ==> password_verifies(password@, hash@),
{
    match argon2::Argon2::default().hash_password(password.as_bytes(), salt) {
        Ok(hash) => Ok(hash.to_string()),
        Err(e) => Err(e),
    }
}

/// Checks a password against a stored hash.
pub fn verify(password: &str, hash: &str) -> (ok: bool)
    ensures
        ok == password_verifies(password@, hash@),
{
    verify_password(password, hash)
}

/// Hashes a password with a fresh random salt. The hash differs from call to
/// call, and the password verifies against each; the only failure is that
/// the hasher refuses the password.
pub fn hash(password: &str) -> (hashed: Result<String, ServerError>)
    ensures
        match hashed {
            Ok(hash) => password_verifies(password@, hash@),
            Err(e) => e == ServerError::UnacceptablePassword,
        },
{
    let salt = fresh_salt();
    match hash_with_salt(password, &salt) {
        Ok(hash) => Ok(hash),
        Err(_) => Err(ServerError::UnacceptablePassword),
    }
}

} // verus!
