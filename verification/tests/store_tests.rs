use secret_silo::cipher::{decrypt_data, encrypt_data};
use secret_silo::store::{KVStore, LoadError};

fn key_of(byte: u8) -> Vec<u8> {
    vec![byte; 32]
}

#[test]
fn set_then_get_decrypts() {
    let key = key_of(9);
    let mut store = KVStore::new();
    let (nonce, ciphertext) = encrypt_data(&key, b"hello");
    store.set_secret("doc".to_string(), nonce, ciphertext);
    let record = store.get_secret("doc").unwrap();
    let opened = decrypt_data(&key, &record.iv, &record.encrypted_value).unwrap();
    assert_eq!(opened, b"hello".to_vec());
    assert!(store.get_secret("missing").is_none());
}

#[test]
fn set_replaces_wholesale() {
    let key = key_of(9);
    let mut store = KVStore::new();
    let (n1, c1) = encrypt_data(&key, b"first");
    store.set_secret("doc".to_string(), n1, c1);
    let (n2, c2) = encrypt_data(&key, b"second");
    store.set_secret("doc".to_string(), n2.clone(), c2.clone());
    let record = store.get_secret("doc").unwrap();
    assert_eq!(record.iv, n2);
    assert_eq!(record.encrypted_value, c2);
    let opened = decrypt_data(&key, &record.iv, &record.encrypted_value).unwrap();
    assert_eq!(opened, b"second".to_vec());
}

#[test]
fn save_then_load_reproduces_mapping() {
    let key = key_of(2);
    let mut store = KVStore::new();
    let names = ["alpha", "beta", "a name with spaces", ""];
    for (i, name) in names.iter().enumerate() {
        let value = format!("value number {}", i);
        let (nonce, ciphertext) = encrypt_data(&key, value.as_bytes());
        store.set_secret(name.to_string(), nonce, ciphertext);
    }
    let image = store.save_encrypted(&key);

    let mut fresh = KVStore::new();
    fresh.load_encrypted(&image, &key).unwrap();
    for (i, name) in names.iter().enumerate() {
        let record = fresh.get_secret(name).unwrap();
        let original = store.get_secret(name).unwrap();
        assert_eq!(record.iv, original.iv);
        assert_eq!(record.encrypted_value, original.encrypted_value);
        let opened = decrypt_data(&key, &record.iv, &record.encrypted_value).unwrap();
        assert_eq!(opened, format!("value number {}", i).into_bytes());
    }
    assert!(fresh.get_secret("gamma").is_none());
}

#[test]
fn load_replaces_whole_map() {
    let key = key_of(2);
    let empty = KVStore::new();
    let image = empty.save_encrypted(&key);

    let mut populated = KVStore::new();
    let (nonce, ciphertext) = encrypt_data(&key, b"soon gone");
    populated.set_secret("old".to_string(), nonce, ciphertext);
    populated.load_encrypted(&image, &key).unwrap();
    assert!(populated.get_secret("old").is_none());
}

#[test]
fn load_with_wrong_key_fails_and_keeps_store() {
    let key = key_of(2);
    let other_key = key_of(3);
    let mut store = KVStore::new();
    let (nonce, ciphertext) = encrypt_data(&key, b"payload");
    store.set_secret("doc".to_string(), nonce, ciphertext);
    let image = store.save_encrypted(&key);

    let mut target = KVStore::new();
    let (n, c) = encrypt_data(&other_key, b"kept");
    target.set_secret("kept".to_string(), n, c);
    let r = target.load_encrypted(&image, &other_key);
    assert!(matches!(r, Err(LoadError::Integrity)));
    assert!(target.get_secret("kept").is_some());
}

#[test]
fn load_truncated_image_fails() {
    let key = key_of(2);
    let store = KVStore::new();
    let image = store.save_encrypted(&key);
    let mut target = KVStore::new();
    let r = target.load_encrypted(&image[..10], &key);
    assert!(matches!(r, Err(LoadError::Malformed)));
}

#[test]
fn load_tampered_image_fails() {
    let key = key_of(2);
    let mut store = KVStore::new();
    let (nonce, ciphertext) = encrypt_data(&key, b"payload");
    store.set_secret("doc".to_string(), nonce, ciphertext);
    let mut image = store.save_encrypted(&key);
    let last = image.len() - 1;
    image[last] ^= 0x40;
    let mut target = KVStore::new();
    let r = target.load_encrypted(&image, &key);
    assert!(matches!(r, Err(LoadError::Integrity)));
}
