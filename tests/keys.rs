use pkgar::keys::SKey;
use pkgar::{re_encrypt, Error, SecretKeyFile};

#[test]
fn key_file_encrypt_decrypt() {
    let (pkey, mut file) = SecretKeyFile::new();
    assert!(!file.is_encrypted());
    let plain = file.key().unwrap().into_data();
    assert_eq!(file.public_key_file().unwrap().into_data(), pkey.into_data());
    file.encrypt(b"").unwrap();
    assert!(!file.is_encrypted());
    file.encrypt(b"secret").unwrap();
    assert!(file.is_encrypted());
    assert!(file.key().is_none());
    assert!(file.public_key_file().is_none());
    assert_eq!(file.skey_bytes().len(), 80);
    assert!(matches!(file.decrypt(b"wrong"), Err(Error::PassphraseIncorrect)));
    assert!(matches!(file.decrypt(b""), Err(Error::PassphraseIncorrect)));
    file.decrypt(b"secret").unwrap();
    assert_eq!(file.key().unwrap().into_data(), plain);
}

#[test]
fn key_file_parts() {
    let (_, file) = SecretKeyFile::new();
    let bytes = file.skey_bytes();
    assert_eq!(bytes.len(), 64);
    let again = SecretKeyFile::from_parts(file.salt, file.nonce, &bytes).unwrap();
    assert!(matches!(again.skey, SKey::Plain(_)));
    assert!(matches!(SecretKeyFile::from_parts(file.salt, file.nonce, &bytes[..10]), Err(Error::KeyInvalid)));
}

#[test]
fn key_file_re_encrypt() {
    let (_, mut file) = SecretKeyFile::new();
    let plain = file.key().unwrap().into_data();
    file.encrypt(b"old").unwrap();
    assert!(matches!(re_encrypt(&mut file, b"bad", b"new"), Err(Error::PassphraseIncorrect)));
    re_encrypt(&mut file, b"old", b"new").unwrap();
    assert!(file.is_encrypted());
    re_encrypt(&mut file, b"new", b"").unwrap();
    assert_eq!(file.key().unwrap().into_data(), plain);
}
