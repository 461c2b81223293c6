use secret_silo::cipher::{decrypt_data, encrypt_data};

fn key_of(byte: u8) -> Vec<u8> {
    vec![byte; 32]
}

#[test]
fn encrypt_decrypt_round_trip() {
    let key = key_of(7);
    let plaintext = b"hello".to_vec();
    let (nonce, ciphertext) = encrypt_data(&key, &plaintext);
    assert_eq!(nonce.len(), 24);
    assert_eq!(ciphertext.len(), plaintext.len() + 16);
    let opened = decrypt_data(&key, &nonce, &ciphertext).unwrap();
    assert_eq!(opened, plaintext);
}

#[test]
fn empty_plaintext_round_trip() {
    let key = key_of(1);
    let plaintext: Vec<u8> = Vec::new();
    let (nonce, ciphertext) = encrypt_data(&key, &plaintext);
    assert_eq!(ciphertext.len(), 16);
    let opened = decrypt_data(&key, &nonce, &ciphertext).unwrap();
    assert!(opened.is_empty());
}

#[test]
fn wrong_key_fails() {
    let key = key_of(7);
    let other_key = key_of(8);
    let (nonce, ciphertext) = encrypt_data(&key, b"attack at dawn");
    let r = decrypt_data(&other_key, &nonce, &ciphertext);
    assert!(r.is_err());
}

#[test]
fn flipped_bit_fails() {
    let key = key_of(7);
    let (nonce, mut ciphertext) = encrypt_data(&key, b"attack at dawn");
    ciphertext[3] ^= 0x01;
    let r = decrypt_data(&key, &nonce, &ciphertext);
    assert!(r.is_err());
}

#[test]
fn flipped_nonce_bit_fails() {
    let key = key_of(7);
    let (mut nonce, ciphertext) = encrypt_data(&key, b"attack at dawn");
    nonce[0] ^= 0x80;
    let r = decrypt_data(&key, &nonce, &ciphertext);
    assert!(r.is_err());
}

#[test]
fn nonces_are_pairwise_distinct() {
    let key = key_of(3);
    let mut nonces: Vec<Vec<u8>> = Vec::new();
    for _ in 0..300 {
        let (nonce, _) = encrypt_data(&key, b"same plaintext");
        nonces.push(nonce);
    }
    for i in 0..nonces.len() {
        for j in (i + 1)..nonces.len() {
            assert_ne!(nonces[i], nonces[j]);
        }
    }
}
