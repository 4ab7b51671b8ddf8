//! Trusted boundary to the two cryptographic collaborators: the authenticated
//! stream cipher (chacha20poly1305) and the threshold secret-sharing dealer
//! and recoverer (sharks), plus the system randomness used for fresh secrets.
use vstd::prelude::*;

use chacha20poly1305::aead::generic_array::GenericArray;
use chacha20poly1305::aead::stream::{DecryptorBE32, EncryptorBE32};
use chacha20poly1305::{Key, KeyInit, XChaCha20Poly1305};
use rand::RngCore;
use sharks::{Share, Sharks};

verus! {

/// Lengths below this seal successfully: the cipher refuses a message of
/// 64 * (2^32 - 1) bytes or more, and nothing else makes it fail.
pub open spec fn seal_len_limit() -> int {
    0x3F_FFFF_FFC0
}

/// Ciphertext produced by the stream cipher: a function of key, nonce and
/// plaintext alone, named rather than restated.
pub uninterp spec fn cipher_of(key: Seq<u8>, nonce: Seq<u8>, plain: Seq<u8>) -> Seq<u8>;

/// Plaintext recovered by the stream cipher, when the ciphertext
/// authenticates: a function of key, nonce and ciphertext alone.
pub uninterp spec fn plain_of(key: Seq<u8>, nonce: Seq<u8>, cipher: Seq<u8>) -> Option<Seq<u8>>;

/// Secret computed by the threshold recoverer from a list of share byte
/// strings: a function of the threshold and the shares alone.
pub uninterp spec fn recovered_secret(threshold: u8, shares: Seq<Seq<u8>>) -> Option<Seq<u8>>;

/// A qualifying pick of dealt shares: at least `threshold` many, no share
/// twice, all drawn from `all`, in any order.
pub open spec fn share_selection(sel: Seq<Seq<u8>>, all: Seq<Seq<u8>>, threshold: u8) -> bool {
    &&& sel.len() >= threshold
    &&& sel.no_duplicates()
    &&& forall|j: int| 0 <= j < sel.len() ==> all.contains(#[trigger] sel[j])
}

/// Shares dealt for `secret` under `threshold`, `total` many.
pub open spec fn shares_ok(ss: Seq<Seq<u8>>, secret: Seq<u8>, threshold: u8, total: u8) -> bool {
    &&& ss.len() == total as int
    &&& forall|i: int|
        0 <= i < ss.len() ==> (#[trigger] ss[i]).len() == secret.len() + 1 && ss[i][0] == i + 1
    &&& forall|sel: Seq<Seq<u8>>|
        share_selection(sel, ss, threshold) ==> recovered_secret(threshold, sel) == Some(secret)
}

/// Relies on rand's OsRng (the operating system's entropy source) to fill a
/// fresh 32-byte cipher key. Nothing can be said of the drawn value.
#[verifier::external_body]
pub fn fresh_key() -> (r: Vec<u8>)
    ensures
        r@.len() == 32,
{
    let mut buf = [0u8; 32];
    rand::rngs::OsRng.fill_bytes(&mut buf);
    buf.to_vec()
}

/// Relies on rand's OsRng to fill a fresh 19-byte stream nonce.
#[verifier::external_body]
pub fn fresh_nonce() -> (r: Vec<u8>)
    ensures
        r@.len() == 19,
{
    let mut buf = [0u8; 19];
    rand::rngs::OsRng.fill_bytes(&mut buf);
    buf.to_vec()
}

/// Relies on sharks::Sharks::dealer: each drawn share is one x coordinate
/// (1, 2, ... in the order taken) followed by one y byte per secret byte, and
/// the crate documents that any `threshold` or more distinct shares of one
/// dealing reconstruct the secret, whichever subset and order is used.
#[verifier::external_body]
pub fn deal_shares(secret: &Vec<u8>, threshold: u8, count: u8) -> (r: Vec<Vec<u8>>)
    requires
        1 <= threshold <= count,
        secret@.len() >= 1,
    ensures
        shares_ok(r.deep_view(), secret@, threshold, count),
{
    let dealt: Vec<Share> = Sharks(threshold).dealer(secret.as_slice()).take(
        count as usize,
    ).collect();
    dealt.iter().map(Vec::from).collect()
}

/// Relies on sharks::Share::try_from and sharks::Sharks::recover: shares are
/// parsed back from their byte form and handed to the recoverer, whose result
/// is a function of the threshold and the share bytes alone.
#[verifier::external_body]
pub fn recover_secret(threshold: u8, shares: &Vec<Vec<u8>>) -> (r: Option<Vec<u8>>)
    ensures
        match r {
            Some(v) => recovered_secret(threshold, shares.deep_view()) == Some(v@),
            None => recovered_secret(threshold, shares.deep_view()) is None,
        },
{
    let mut parsed: Vec<Share> = Vec::with_capacity(shares.len());
    for s in shares.iter() {
        match Share::try_from(s.as_slice()) {
            Ok(sh) => parsed.push(sh),
            Err(_) => return None,
        }
    }
    Sharks(threshold).recover(parsed.as_slice()).ok()
}

/// Relies on chacha20poly1305's XChaCha20Poly1305 behind
/// aead::stream::EncryptorBE32: sealing is deterministic in key, nonce and
/// plaintext, so the result is exactly the named ciphertext; its only failure
/// is a plaintext at or past the block-count limit.
#[verifier::external_body]
pub fn encrypt_bytes(key: &Vec<u8>, nonce: &Vec<u8>, plain: &Vec<u8>) -> (r: Option<Vec<u8>>)
    requires
        key@.len() == 32,
        nonce@.len() == 19,
    ensures
        r matches Some(c) ==> c@ == cipher_of(key@, nonce@, plain@),
        r is Some <==> plain@.len() < seal_len_limit(),
{
    let aead = XChaCha20Poly1305::new(Key::from_slice(key.as_slice()));
    let enc = EncryptorBE32::from_aead(aead, GenericArray::from_slice(nonce.as_slice()));
    enc.encrypt_last(plain.as_slice()).ok()
}

/// Relies on chacha20poly1305's XChaCha20Poly1305 behind
/// aead::stream::DecryptorBE32: opening names its result, fails exactly when
/// the bytes do not authenticate, and inverts sealing under the same key and
/// nonce, as the AEAD contract documents.
#[verifier::external_body]
pub fn decrypt_bytes(key: &Vec<u8>, nonce: &Vec<u8>, cipher: &Vec<u8>) -> (r: Option<Vec<u8>>)
    requires
        key@.len() == 32,
        nonce@.len() == 19,
    ensures
        match r {
            Some(p) => plain_of(key@, nonce@, cipher@) == Some(p@) && (forall|m: Seq<u8>|
                m.len() < seal_len_limit() && cipher@ == cipher_of(key@, nonce@, m) ==> p@ == m),
            None => plain_of(key@, nonce@, cipher@) is None && (forall|m: Seq<u8>|
                m.len() < seal_len_limit() ==> cipher@ != cipher_of(key@, nonce@, m)),
        },
    {
    let aead = XChaCha20Poly1305::new(Key::from_slice(key.as_slice()));
    let dec = DecryptorBE32::from_aead(aead, GenericArray::from_slice(nonce.as_slice()));
    dec.decrypt_last(cipher.as_slice()).ok()
}

} // verus!
