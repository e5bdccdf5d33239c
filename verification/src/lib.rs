//! Encrypted-storage core of a single-user credential vault: a master
//! password is turned into a symmetric key, the key protects the
//! serialized credential collection at rest, and the password is
//! verified before any decryption is attempted.

pub mod codec;
pub mod crypto;
pub mod errors;
pub mod handlers;
pub mod models;
pub mod storage;
