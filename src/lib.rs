//! Seals a diary into a password-protected container and opens it again.
//!
//! The key is derived from the password with Argon2id, and the payload is
//! encrypted as a STREAM of XChaCha20-Poly1305 chunks whose nonces carry a
//! counter and a last-chunk flag, so that any reordering, truncation or
//! alteration of the chunks is caught.
pub mod cli;
pub mod codec;
pub mod container;
pub mod error;
pub mod kdf;
pub mod stream;
