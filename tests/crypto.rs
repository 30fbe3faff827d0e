use stegosaurust::crypto::{decrypt, encrypt, hash_password};
use stegosaurust::CryptoError;

#[test]
fn test_aes_256() {
    let plaintext = b"secret message";
    let key = b"rust";
    let ciphertext = encrypt(plaintext, key).unwrap();
    assert!(decrypt(&ciphertext, key).unwrap().iter().eq(plaintext.iter()));
}

#[test]
fn container_layout() {
    let ciphertext = encrypt(b"secret message", b"rust").unwrap();
    assert_eq!(&ciphertext[0..8], b"Salted__");
    assert!(ciphertext[8..16].iter().all(|b| b.is_ascii_alphanumeric()));
    // one 16-byte block of AES output after the 16-byte header
    assert_eq!(ciphertext.len(), 32);
    assert_ne!(&ciphertext[16..], b"secret message");
}

#[test]
fn decrypt_rejects_short_input() {
    assert_eq!(decrypt(b"Salted__", b"k").unwrap_err(), CryptoError::InvalidContainer);
}

#[test]
fn decrypt_rejects_missing_prefix() {
    let mut ciphertext = encrypt(b"payload", b"key").unwrap();
    ciphertext[0] = b'X';
    assert_eq!(decrypt(&ciphertext, b"key").unwrap_err(), CryptoError::InvalidContainer);
}

#[test]
fn decrypt_with_wrong_key_does_not_return_plaintext() {
    let ciphertext = encrypt(b"a longer secret payload", b"right").unwrap();
    match decrypt(&ciphertext, b"wrong") {
        Ok(p) => assert_ne!(p, b"a longer secret payload".to_vec()),
        Err(e) => assert_eq!(e, CryptoError::Decryption),
    }
}

#[test]
fn decrypt_rejects_bad_salt() {
    let mut data = b"Salted__".to_vec();
    data.extend_from_slice(&[0xff; 8]);
    data.extend_from_slice(&[0u8; 16]);
    assert_eq!(decrypt(&data, b"key").unwrap_err(), CryptoError::PasswordHash);
}

#[test]
fn hash_password_is_deterministic_and_48_bytes() {
    let a = hash_password(b"rust", b"abcdefgh").unwrap();
    let b = hash_password(b"rust", b"abcdefgh").unwrap();
    let c = hash_password(b"rust", b"abcdefgi").unwrap();
    assert_eq!(a.len(), 48);
    assert_eq!(a, b);
    assert_ne!(a, c);
}

#[test]
fn container_length_follows_padding() {
    assert_eq!(encrypt(b"", b"k").unwrap().len(), 32);
    assert_eq!(encrypt(&[0u8; 16], b"k").unwrap().len(), 48);
    assert_eq!(encrypt(&[0u8; 33], b"k").unwrap().len(), 64);
}
