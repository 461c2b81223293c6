//! Authenticated symmetric encryption of byte buffers under a 256-bit key,
//! with a fresh random 24-byte nonce drawn for every encryption call.

use vstd::prelude::*;

verus! {

/// Authentication failure on decrypt: the bytes were not produced under the
/// given key and nonce, or were altered afterwards.
#[derive(Clone, Copy, PartialEq, Eq, Structural, Debug)]
pub struct IntegrityError;

/// Length in bytes of a key.
pub const KEY_LEN: usize = 32;

/// Length in bytes of a nonce.
pub const NONCE_LEN: usize = 24;

/// Length in bytes of the authentication tag appended to each ciphertext.
pub const TAG_LEN: usize = 16;

/// Longest plaintext the cipher accepts; beyond it the stream counter of the
/// underlying cipher would wrap.
pub const MAX_PLAINTEXT_LEN: u64 = 0x3fffffffc0;

/// The byte string (ciphertext followed by its 16-byte authentication tag)
/// that the XChaCha20-Poly1305 cipher produces for a given key, nonce and
/// plaintext. For a fixed key and nonce it is a function of the plaintext
/// alone; nothing further is assumed about its value.
pub uninterp spec fn cipher_ct(key: Seq<u8>, nonce: Seq<u8>, plaintext: Seq<u8>) -> Seq<u8>;

/// Relies on chacha20poly1305's `XChaCha20Poly1305` (through `aead::Aead`)
/// and rand's `OsRng`: seals `plaintext` under `key` with a fresh random
/// 24-byte nonce. The sealed bytes are the ciphertext plus a 16-byte tag,
/// and are determined by key, nonce and plaintext alone. Encryption fails
/// only on plaintexts longer than `MAX_PLAINTEXT_LEN`, which the callers
/// rule out.
#[verifier::external_body]
fn aead_seal(key: &[u8], plaintext: &[u8]) -> (r: (Vec<u8>, Vec<u8>))
    requires
        key@.len() == KEY_LEN,
        plaintext@.len() < MAX_PLAINTEXT_LEN,
        plaintext@.len() + TAG_LEN <= usize::MAX,
    ensures
        r.0@.len() == NONCE_LEN,
        r.1@ == cipher_ct(key@, r.0@, plaintext@),
        r.1@.len() == plaintext@.len() + TAG_LEN,
{
    let cipher = <chacha20poly1305::XChaCha20Poly1305 as chacha20poly1305::KeyInit>::new(
        chacha20poly1305::Key::from_slice(key),
    );
    let mut iv = [0u8; 24];
    rand::RngCore::fill_bytes(&mut rand::rngs::OsRng, &mut iv);
    let ciphertext = chacha20poly1305::aead::Aead::encrypt(
        &cipher,
        chacha20poly1305::XNonce::from_slice(&iv),
        plaintext,
    )
    .expect("encryption failure!");
    (iv.to_vec(), ciphertext)
}

/// Relies on chacha20poly1305's `XChaCha20Poly1305` (through `aead::Aead`):
/// opens `ciphertext` under `key` and `nonce` after verifying the Poly1305
/// tag. It succeeds exactly on byte strings the cipher produced under the
/// same key and nonce, and then returns the plaintext they were produced
/// from — one tag shorter than the ciphertext, and within the cipher's
/// length bound (longer buffers are refused before the tag check); on
/// anything else it reports the failure and returns no bytes.
#[verifier::external_body]
fn aead_open(key: &[u8], nonce: &[u8], ciphertext: &[u8]) -> (r: Result<Vec<u8>, IntegrityError>)
    requires
        key@.len() == KEY_LEN,
        nonce@.len() == NONCE_LEN,
    ensures
        r is Ok ==> ciphertext@ == cipher_ct(key@, nonce@, r->Ok_0@),
        r is Ok ==> r->Ok_0@.len() + TAG_LEN == ciphertext@.len() && r->Ok_0@.len()
            < MAX_PLAINTEXT_LEN,
        forall|p: Seq<u8>|
            p.len() < MAX_PLAINTEXT_LEN && ciphertext@ == #[trigger] cipher_ct(key@, nonce@, p)
                ==> r is Ok && r->Ok_0@ == p,
{
    let cipher = <chacha20poly1305::XChaCha20Poly1305 as chacha20poly1305::KeyInit>::new(
        chacha20poly1305::Key::from_slice(key),
    );
    match chacha20poly1305::aead::Aead::decrypt(
        &cipher,
        chacha20poly1305::XNonce::from_slice(nonce),
        ciphertext,
    ) {
        Ok(plaintext) => Ok(plaintext),
        Err(_) => Err(IntegrityError),
    }
}

/// Encrypts `plaintext` under the 32-byte `key` with a fresh random nonce
/// and returns `(nonce, ciphertext)`. The ciphertext is one tag longer than
/// the plaintext and is exactly what the cipher yields for this key, nonce
/// and plaintext, so `decrypt_data` under the same key and nonce returns
/// the plaintext again.
pub fn encrypt_data(key: &[u8], plaintext: &[u8]) -> (r: (Vec<u8>, Vec<u8>))
    requires
        key@.len() == KEY_LEN,
        plaintext@.len() < MAX_PLAINTEXT_LEN,
        plaintext@.len() + TAG_LEN <= usize::MAX,
    ensures
        r.0@.len() == NONCE_LEN,
        r.1@ == cipher_ct(key@, r.0@, plaintext@),
        r.1@.len() == plaintext@.len() + TAG_LEN,
{
    aead_seal(key, plaintext)
}

/// Decrypts `ciphertext` under `key` and `iv`. It returns the plaintext
/// exactly when the ciphertext was produced by `encrypt_data` under the same
/// key and nonce (round trip); on a wrong key or altered bytes the tag check
/// fails and no plaintext at all is returned.
pub fn decrypt_data(key: &[u8], iv: &[u8], ciphertext: &[u8]) -> (r: Result<
    Vec<u8>,
    IntegrityError,
>)
    requires
        key@.len() == KEY_LEN,
        iv@.len() == NONCE_LEN,
    ensures
        r is Ok ==> ciphertext@ == cipher_ct(key@, iv@, r->Ok_0@),
        r is Ok ==> r->Ok_0@.len() + TAG_LEN == ciphertext@.len() && r->Ok_0@.len()
            < MAX_PLAINTEXT_LEN,
        forall|p: Seq<u8>|
            p.len() < MAX_PLAINTEXT_LEN && ciphertext@ == #[trigger] cipher_ct(key@, iv@, p)
                ==> r is Ok && r->Ok_0@ == p,
{
    aead_open(key, iv, ciphertext)
}

} // verus!
