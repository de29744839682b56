use veil::aes::{pkcs7_pad, AesEncryptor};
use veil::hash_and_reverse::{
    apply_encryption, apply_encryption_generic, BorrowedCryptoService, CryptoService,
    EncryptionError, Encryptor, HashEncryptor, ReverseEncryptor, TransformKind,
};

#[test]
fn hash_is_sha256_hex() {
    let out = HashEncryptor.encrypt("abc", "").unwrap();
    assert_eq!(out, "ba7816bf8f01cfea414140de5dae2223b00361a396177a9cb410ff61f20015ad");
    let out = HashEncryptor.encrypt("hello", "salt").unwrap();
    assert_eq!(out, "87daba3fe263b34c335a0ee3b28ffec4d159aad6542502eaf551dc7b9128c267");
}

#[test]
fn hash_is_deterministic_and_sensitive() {
    let a = HashEncryptor.encrypt("payload", "salt").unwrap();
    let b = HashEncryptor.encrypt("payload", "salt").unwrap();
    assert_eq!(a, b);
    assert_ne!(a, HashEncryptor.encrypt("payloaD", "salt").unwrap());
    assert_ne!(a, HashEncryptor.encrypt("payload", "salT").unwrap());
    assert_eq!(a.len(), 64);
}

#[test]
fn reverse_reverses_characters() {
    assert_eq!(ReverseEncryptor.encrypt("abc123", "xy").unwrap(), "yx321cba");
    assert_eq!(ReverseEncryptor.encrypt("héllo", "").unwrap(), "olléh");
    assert_eq!(ReverseEncryptor.encrypt("", "").unwrap(), "");
}

#[test]
fn reverse_twice_with_empty_salt_is_identity() {
    let once = ReverseEncryptor.encrypt("abc123", "").unwrap();
    let twice = ReverseEncryptor.encrypt(&once, "").unwrap();
    assert_eq!(twice, "abc123");
}

#[test]
fn padding_adds_full_block_when_aligned() {
    let buf = [1u8; 16];
    let padded = pkcs7_pad(&buf);
    assert_eq!(padded.len(), 32);
    assert_eq!(&padded[..16], &buf[..]);
    assert!(padded[16..].iter().all(|&b| b == 16));
    let empty = pkcs7_pad(&[]);
    assert_eq!(empty, vec![16u8; 16]);
}

#[test]
fn padding_fills_partial_block() {
    let buf = [9u8; 21];
    let padded = pkcs7_pad(&buf);
    assert_eq!(padded.len(), 32);
    assert_eq!(&padded[..21], &buf[..]);
    assert!(padded[21..].iter().all(|&b| b == 11));
    let one = pkcs7_pad(&[1u8; 15]);
    assert_eq!(one.len(), 16);
    assert_eq!(one[15], 1);
}

#[test]
fn aes_matches_known_ciphertext() {
    let cipher = AesEncryptor::new(vec![0u8; 32], vec![0u8; 16]).unwrap();
    assert_eq!(cipher.encrypt("secure", "text").unwrap(), "838258d830d4435df8e8d76cf0baf03a");
    assert_eq!(cipher.encrypt("", "").unwrap(), "1f788fe6d86c317549697fbf0c07fa43");
    let key: Vec<u8> = (0u8..32).collect();
    let iv: Vec<u8> = (0u8..16).collect();
    let cipher = AesEncryptor::new(key, iv).unwrap();
    assert_eq!(cipher.encrypt("abc", "def").unwrap(), "e3a3e8fa68c3d56dd71439dd1ea00e28");
}

#[test]
fn aes_rejects_bad_key_material() {
    assert!(matches!(
        AesEncryptor::new(vec![0u8; 16], vec![0u8; 16]),
        Err(EncryptionError::InvalidKeyMaterial)
    ));
    assert!(matches!(
        AesEncryptor::new(vec![0u8; 32], vec![0u8; 8]),
        Err(EncryptionError::InvalidKeyMaterial)
    ));
}

#[test]
fn services_apply_their_transform() {
    let kind = TransformKind::Reverse(ReverseEncryptor);
    assert_eq!(apply_encryption(&kind, "ab", "c").unwrap(), "cba");
    assert_eq!(apply_encryption_generic(&HashEncryptor, "abc", "").unwrap().len(), 64);
    let borrowed = BorrowedCryptoService::new(&kind);
    assert_eq!(borrowed.encrypt("xy", "z").unwrap(), "zyx");
    let owned = CryptoService::new(TransformKind::Hash(HashEncryptor));
    assert_eq!(
        owned.encrypt("abc", "").unwrap(),
        "ba7816bf8f01cfea414140de5dae2223b00361a396177a9cb410ff61f20015ad"
    );
    let cipher = AesEncryptor::new(vec![0u8; 32], vec![0u8; 16]).unwrap();
    let aes = CryptoService::new(TransformKind::BlockCipher(cipher));
    assert_eq!(aes.encrypt("securetext", "").unwrap(), "838258d830d4435df8e8d76cf0baf03a");
}
