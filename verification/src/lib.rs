//! A secret-storage core: an encrypted key-value store with at-rest
//! persistence, threshold splitting of the master key into recoverable
//! shares, and a per-identity access gate consulted before decryption.

pub mod access;
pub mod cipher;
pub mod codec;
pub mod splitter;
pub mod store;
