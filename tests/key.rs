use valet::{generate_salt, Error, Key, LotTag, Password, UserTag};

fn password(text: &str) -> Password {
    Password::from(text.to_string())
}

#[test]
fn key_from_password() {
    let salt = generate_salt().expect("error generating salt");
    let key = Key::<()>::from_password(password("user1password"), &salt).expect("error generating key");
    assert_eq!(256 / 8, key.as_bytes().len());
}

#[test]
fn key_encrypt_decrypt_test() {
    let key = Key::<()>::new().expect("error generating key");
    let plaintext = b"this is a secret";
    let encrypted = key.encrypt(plaintext).expect("error encrypting");
    let decrypted = key.decrypt(&encrypted).expect("error dencrypting");
    assert_eq!(plaintext, &decrypted[..]);
}

#[test]
fn key_as_from_bytes_test() {
    let key_a = Key::<()>::new().expect("error generating key");
    let bytes = key_a.as_bytes();
    let key_b = Key::<()>::from_bytes(bytes);
    // The same key still shouldn't produce the same ciphertext.
    assert_ne!(
        key_a.encrypt(b"").expect("error encrypting"),
        key_b.encrypt(b"").expect("error encrypting")
    );
}

#[test]
fn encrypt_encrypt_decrypt_test() {
    let key = Key::<()>::new().expect("error generating key");
    let plaintext = b"this is a secret";
    let encrypted = key.encrypt(plaintext).expect("error encrypting");
    let decrypted = key.decrypt(&encrypted).expect("error dencrypting");
    assert_eq!(plaintext, &decrypted[..]);
}

#[test]
fn encrypt_as_from_bytes_test() {
    let key_a = Key::<()>::new().expect("error generating key");
    let bytes = key_a.as_bytes();
    let key_b = Key::<()>::from_bytes(bytes);
    assert_ne!(
        key_a.encrypt(b"").expect("error encrypting"),
        key_b.encrypt(b"").expect("error encrypting")
    );
}

#[test]
fn round_trip_various_plaintexts() {
    let key = Key::<LotTag>::new().expect("error generating key");
    for plaintext in [&b""[..], &b"a"[..], &[0u8; 1000][..], "héllo wörld".as_bytes()] {
        let encrypted = key.encrypt(plaintext).expect("error encrypting");
        assert_eq!(encrypted.nonce.len(), 12);
        assert_eq!(encrypted.data.len(), plaintext.len() + 16);
        assert_eq!(key.decrypt(&encrypted).expect("error decrypting"), plaintext);
    }
}

#[test]
fn encrypt_twice_gives_different_ciphertexts() {
    let key = Key::<LotTag>::new().expect("error generating key");
    let a = key.encrypt(b"same plaintext").expect("error encrypting");
    let b = key.encrypt(b"same plaintext").expect("error encrypting");
    assert_ne!(a.nonce, b.nonce);
    assert_ne!(a, b);
}

#[test]
fn decrypt_with_wrong_key_fails() {
    let key = Key::<LotTag>::new().expect("error generating key");
    let other = Key::<LotTag>::new().expect("error generating key");
    let encrypted = key.encrypt(b"secret").expect("error encrypting");
    assert_eq!(other.decrypt(&encrypted), Err(Error::DecryptionFailed));
}

#[test]
fn decrypt_tampered_data_fails() {
    let key = Key::<LotTag>::new().expect("error generating key");
    let mut encrypted = key.encrypt(b"secret").expect("error encrypting");
    encrypted.data[0] ^= 1;
    assert_eq!(key.decrypt(&encrypted), Err(Error::DecryptionFailed));
    let mut encrypted = key.encrypt(b"secret").expect("error encrypting");
    encrypted.nonce[3] ^= 0x80;
    assert_eq!(key.decrypt(&encrypted), Err(Error::DecryptionFailed));
    let mut encrypted = key.encrypt(b"secret").expect("error encrypting");
    encrypted.nonce.pop();
    assert_eq!(key.decrypt(&encrypted), Err(Error::DecryptionFailed));
}

#[test]
fn derivation_is_deterministic_per_salt() {
    let salt_a = [7u8; 16];
    let salt_b = [8u8; 16];
    let a1 = Key::<UserTag>::from_password(password("hunter2"), &salt_a).expect("error deriving");
    let a2 = Key::<UserTag>::from_password(password("hunter2"), &salt_a).expect("error deriving");
    let b = Key::<UserTag>::from_password(password("hunter2"), &salt_b).expect("error deriving");
    assert_eq!(a1.as_bytes(), a2.as_bytes());
    assert_ne!(a1.as_bytes(), b.as_bytes());
}

#[test]
fn derived_key_decrypts_what_it_encrypted() {
    let salt = generate_salt().expect("error generating salt");
    assert_eq!(salt.len(), 16);
    let a = Key::<UserTag>::from_password(password("pw"), &salt).expect("error deriving");
    let b = Key::<UserTag>::from_password(password("pw"), &salt).expect("error deriving");
    let sealed = a.encrypt(b"wrapped").expect("error encrypting");
    assert_eq!(b.decrypt(&sealed).expect("error decrypting"), b"wrapped".to_vec());
}

#[test]
fn short_salt_is_a_derivation_error() {
    let result = Key::<UserTag>::from_password(password("pw"), &[1u8, 2, 3]);
    assert!(matches!(result, Err(Error::KeyDerivationFailed)));
}

#[test]
fn sealing_changes_the_bytes() {
    let key = Key::<LotTag>::new().expect("error generating key");
    let plaintext = b"plain bytes that must not show";
    let sealed = key.seal_with_nonce(plaintext, vec![0u8; 12]).expect("error encrypting");
    assert_eq!(sealed.nonce, vec![0u8; 12]);
    assert_ne!(&sealed.data[..plaintext.len()], &plaintext[..]);
    let again = key.seal_with_nonce(plaintext, vec![0u8; 12]).expect("error encrypting");
    assert_eq!(sealed, again);
    assert_eq!(key.decrypt(&sealed).expect("error decrypting"), plaintext.to_vec());
}

#[test]
fn derived_key_is_not_the_password() {
    let key = Key::<UserTag>::from_password(password("0123456789abcdef0123456789abcdef"), &[9u8; 16])
        .expect("error deriving");
    assert_ne!(key.as_bytes(), b"0123456789abcdef0123456789abcdef");
}
