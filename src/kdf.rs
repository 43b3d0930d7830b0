//! Deriving the 32-byte key from a password and a salt with Argon2id.
use argon2::{Algorithm, Argon2, Params, Version};
use vstd::prelude::*;

use crate::error::CipherError;

verus! {

/// Length in bytes of the salt the key is derived with.
pub const SALT_LEN: usize = 16;

/// Length in bytes of a derived key.
pub const KEY_LEN: usize = 32;

/// The longest password Argon2 accepts, in bytes.
pub const MAX_PASSWORD_LEN: u64 = 0xFFFF_FFFF;

#[verifier::external_type_specification]
#[verifier::external_body]
pub struct ExArgon2Error(argon2::Error);

/// The 32-byte key that Argon2id (version 0x13, default parameters: 19 MiB,
/// two passes, one lane) derives from a password and a salt.
pub uninterp spec fn argon2id_key(password: Seq<u8>, salt: Seq<u8>) -> Seq<u8>;

/// Relies on argon2's `Argon2::hash_password_into` with Argon2id, version 0x13
/// and `Params::DEFAULT`: with a 16-byte salt and a 32-byte output it fails
/// only on a password longer than `argon2::MAX_PWD_LEN` (0xFFFF_FFFF) bytes.
#[verifier::external_body]
fn argon2id_hash(password: &[u8], salt: &[u8; 16]) -> (r: Result<[u8; 32], argon2::Error>)
    ensures
        r is Ok <==> password@.len() <= MAX_PASSWORD_LEN,
        r matches Ok(key) ==> key@ == argon2id_key(password@, salt@),
{
    let argon2 = Argon2::new(Algorithm::Argon2id, Version::V0x13, Params::DEFAULT);
    let mut out = [0u8; 32];
    match argon2.hash_password_into(password, salt, &mut out) {
        Ok(()) => Ok(out),
        Err(e) => Err(e),
    }
}

/// Derives the 32-byte key for `password` and `salt`.
pub fn hash_password(password: &[u8], salt: &[u8; 16]) -> (r: Result<[u8; 32], CipherError>)
    ensures
        r is Ok <==> password@.len() <= MAX_PASSWORD_LEN,
        r matches Ok(key) ==> key@ == argon2id_key(password@, salt@),
        r matches Err(e) ==> e == CipherError::KeyDerivation,
{
    match argon2id_hash(password, salt) {
        Ok(key) => Ok(key),
        Err(_) => Err(CipherError::KeyDerivation),
    }
}

/// Key derivation is a function of the password and the salt alone: the same
/// password and salt always give the same key.
pub proof fn lemma_derivation_deterministic(
    password1: Seq<u8>,
    salt1: Seq<u8>,
    password2: Seq<u8>,
    salt2: Seq<u8>,
)
    requires
        password1 == password2,
        salt1 == salt2,
    ensures
        argon2id_key(password1, salt1) == argon2id_key(password2, salt2),
{
}

} // verus!
