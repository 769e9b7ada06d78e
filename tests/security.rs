use llm_workbench::security::{
    decode_master_key, decrypt, encode_master_key, encrypt, encrypt_with_nonce,
    generate_master_key, join_sealed, split_sealed, EncryptionError, KeychainError,
};

#[test]
fn test_encrypt_decrypt_roundtrip() {
    let key = [0u8; 32];
    let plaintext = b"Hello, World! This is a secret message.";

    let encrypted = encrypt(plaintext, &key).ok().expect("Encryption failed");
    let decrypted = decrypt(&encrypted, &key).ok().expect("Decryption failed");

    assert_eq!(plaintext, decrypted.as_slice());
}

#[test]
fn test_different_keys_fail() {
    let key1 = [0u8; 32];
    let key2 = [1u8; 32];
    let plaintext = b"Secret";

    let encrypted = encrypt(plaintext, &key1).ok().expect("Encryption failed");
    let result = decrypt(&encrypted, &key2);

    assert!(result.is_err());
}

#[test]
fn test_invalid_key_length() {
    let short_key = [0u8; 16];
    let plaintext = b"Test";

    let result = encrypt(plaintext, &short_key);
    assert!(result.is_err());
}

#[test]
fn sealed_text_layout() {
    let key = [7u8; 32];
    let nonce = [3u8; 12];
    let sealed = encrypt_with_nonce(b"abc", &key, &nonce).ok().unwrap();
    // 12 + 3 + 16 bytes = 31 bytes -> 44 base64 characters
    assert_eq!(sealed.len(), 44);
    assert!(sealed.starts_with("AwMDAwMDAwMDAwMD"));
    assert_eq!(decrypt(&sealed, &key).ok().unwrap(), b"abc".to_vec());
    // same nonce, same key, same text: same sealed text
    assert_eq!(encrypt_with_nonce(b"abc", &key, &nonce).ok().unwrap(), sealed);
}

#[test]
fn fresh_nonce_each_time() {
    let key = [9u8; 32];
    let a = encrypt(b"same", &key).ok().unwrap();
    let b = encrypt(b"same", &key).ok().unwrap();
    assert_ne!(a, b);
}

#[test]
fn decrypt_errors() {
    let key = [0u8; 32];
    assert!(matches!(decrypt("abc", &[0u8; 5]), Err(EncryptionError::InvalidKeyLength(5))));
    assert!(matches!(decrypt("not base64!!", &key), Err(EncryptionError::Base64Error(_))));
    assert!(matches!(decrypt("AAAA", &key), Err(EncryptionError::InvalidFormat)));
    let sealed = encrypt(b"x", &key).ok().unwrap();
    let mut tampered = sealed.into_bytes();
    let last = tampered.len() - 3;
    tampered[last] = if tampered[last] == b'A' { b'B' } else { b'A' };
    let tampered = String::from_utf8(tampered).unwrap();
    assert!(matches!(decrypt(&tampered, &key), Err(EncryptionError::DecryptionFailed(_))));
}

#[test]
fn encrypt_key_length_error() {
    assert!(matches!(encrypt(b"x", &[0u8; 31]), Err(EncryptionError::InvalidKeyLength(31))));
}

#[test]
fn master_key_forms() {
    let key = generate_master_key().ok().unwrap();
    assert_eq!(key.len(), 32);
    let stored = encode_master_key(&key).ok().unwrap();
    assert_eq!(stored.len(), 44);
    assert_eq!(decode_master_key(&stored).ok().unwrap(), key);
    assert_eq!(encode_master_key(&[0u8; 32]).ok().unwrap(), "A".repeat(43) + "=");
    assert!(matches!(encode_master_key(&[0u8; 16]), Err(KeychainError::InvalidKeyFormat(16))));
    assert!(matches!(decode_master_key("AAAA"), Err(KeychainError::InvalidKeyFormat(3))));
    assert!(matches!(decode_master_key("@@@"), Err(KeychainError::Base64Error(_))));
}

#[test]
fn framing_of_sealed_bytes() {
    let joined = join_sealed(&[1u8; 12], &[9u8, 8, 7]);
    assert_eq!(joined.len(), 15);
    assert_eq!(&joined[12..], &[9u8, 8, 7]);
    match split_sealed(&joined) {
        Ok((n, b)) => {
            assert_eq!(n, vec![1u8; 12]);
            assert_eq!(b, vec![9u8, 8, 7]);
        }
        Err(_) => panic!("expected a split"),
    }
    assert!(matches!(split_sealed(&[0u8; 11]), Err(EncryptionError::InvalidFormat)));
}
