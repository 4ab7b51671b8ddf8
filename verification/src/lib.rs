//! Threshold secret-sharing file splitter: a file is sealed under a fresh key
//! and nonce, the key and nonce are divided into T-of-N shares, and every
//! fragment file carries one share pair in a self-describing header followed
//! by the byte-identical ciphertext body.
pub mod codec;
pub mod crypto;
pub mod header;
pub mod laws;
pub mod recover;
pub mod split;
pub mod utils;
