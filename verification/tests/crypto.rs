use sourcemap_backend::crypto::{Crypto, CryptoError};

const ZERO_KEY: &str = "0000000000000000000000000000000000000000000000000000000000000000";

fn zero_crypto() -> Crypto {
    Crypto::new(ZERO_KEY).unwrap_or_else(|_| panic!("the key should be taken"))
}

#[test]
fn an_empty_message_has_a_known_tag() {
    let message = zero_crypto().encrypt_with_nonce(&[0; 12], &[]).unwrap();
    let mut expected = vec![0u8; 12];
    expected.extend_from_slice(&[
        0x53, 0x0f, 0x8a, 0xfb, 0xc7, 0x45, 0x36, 0xb9, 0xa9, 0x63, 0xb4, 0xf1, 0xc4, 0xcb, 0x73,
        0x8b,
    ]);
    assert_eq!(message, expected);
}

#[test]
fn the_tag_goes_before_the_ciphertext() {
    let message = zero_crypto().encrypt_with_nonce(&[0; 12], &[0; 16]).unwrap();
    let mut expected = vec![0u8; 12];
    expected.extend_from_slice(&[
        0xd0, 0xd1, 0xc8, 0xa7, 0x99, 0x99, 0x6b, 0xf0, 0x26, 0x5b, 0x98, 0xb5, 0xd4, 0x8a, 0xb9,
        0x19,
    ]);
    expected.extend_from_slice(&[
        0xce, 0xa7, 0x40, 0x3d, 0x4d, 0x60, 0x6b, 0x6e, 0x07, 0x4e, 0xc5, 0xd3, 0xba, 0xf3, 0x9d,
        0x18,
    ]);
    assert_eq!(message, expected);
}

#[test]
fn messages_decrypt_to_what_was_encrypted() {
    let crypto = zero_crypto();
    let message = crypto.encrypt(b"some text").unwrap();
    assert_eq!(message.len(), 12 + 16 + 9);
    assert_eq!(crypto.decrypt(&message).unwrap(), b"some text");
    let again = crypto.encrypt(b"some text").unwrap();
    assert_ne!(message, again);
    assert_eq!(crypto.clone().decrypt(&again).unwrap(), b"some text");
}

#[test]
fn what_decrypts_was_encrypted_with_its_nonce() {
    let crypto = zero_crypto();
    let nonce = [7u8; 12];
    let message = crypto.encrypt_with_nonce(&nonce, b"abc").unwrap();
    let plaintext = crypto.decrypt(&message).unwrap();
    assert_eq!(&message[..12], &nonce);
    assert_eq!(crypto.encrypt_with_nonce(&nonce, &plaintext).unwrap(), message);
}

#[test]
fn short_messages_are_refused() {
    let crypto = zero_crypto();
    assert_eq!(crypto.decrypt(&[]), Err(CryptoError::TooShort));
    assert_eq!(crypto.decrypt(&[0; 27]), Err(CryptoError::TooShort));
    assert_eq!(crypto.decrypt(&[0; 28]), Err(CryptoError::Aes));
}

#[test]
fn changed_messages_are_refused() {
    let crypto = zero_crypto();
    let mut message = crypto.encrypt(b"some text").unwrap();
    let last = message.len() - 1;
    message[last] ^= 1;
    assert_eq!(crypto.decrypt(&message), Err(CryptoError::Aes));
}

#[test]
fn another_key_does_not_decrypt() {
    let other =
        Crypto::new("00000000000000000000000000000000000000000000000000000000000000aF")
            .unwrap_or_else(|_| panic!("the key should be taken"));
    let message = zero_crypto().encrypt(b"some text").unwrap();
    assert_eq!(other.decrypt(&message), Err(CryptoError::Aes));
}

#[test]
fn keys_are_64_digits_of_either_case() {
    assert!(Crypto::new(&"aF".repeat(32)).is_ok());
    assert!(Crypto::new(&"aF".repeat(31)).is_err());
    assert!(Crypto::new(&"aF".repeat(33)).is_err());
    assert!(Crypto::new(&"a".repeat(63)).is_err());
    assert!(Crypto::new(&"g0".repeat(32)).is_err());
    assert!(Crypto::new("").is_err());
    assert!(matches!(Crypto::new("x"), Err(CryptoError::InvalidKey)));
}

#[test]
fn the_case_of_a_key_does_not_matter() {
    let lower = Crypto::new(&"af".repeat(32)).unwrap_or_else(|_| panic!("lower"));
    let upper = Crypto::new(&"AF".repeat(32)).unwrap_or_else(|_| panic!("upper"));
    let message = lower.encrypt(b"x").unwrap();
    assert_eq!(upper.decrypt(&message).unwrap(), b"x");
}

#[test]
fn crypto_errors_have_their_wording() {
    assert_eq!(
        CryptoError::InvalidKey.to_text(),
        "invalid encryption key (must be 64 hex chars / 32 bytes)"
    );
    assert_eq!(CryptoError::TooShort.to_text(), "ciphertext too short");
    assert_eq!(
        CryptoError::Aes.to_text(),
        format!("AES-GCM error: {}", aes_gcm::Error)
    );
}
