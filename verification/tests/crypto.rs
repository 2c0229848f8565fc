//! Sealed blobs.

use memory_plant::crypto::{open, seal, seal_with_nonce, CryptoError};

fn contains(hay: &[u8], needle: &[u8]) -> bool {
    hay.windows(needle.len()).any(|w| w == needle)
}

#[test]
fn seal_open_roundtrip_and_not_plaintext() {
    let key = [7u8; 32];
    let msg = b"secret memory: user lives in Almaty".to_vec();
    let sealed = seal(&msg, &key);
    assert_ne!(sealed.as_slice(), &msg[..]);
    assert!(!contains(&sealed, b"Almaty"), "plaintext leaked into ciphertext");
    assert_eq!(open(&sealed, &key).unwrap(), msg);
}

#[test]
fn wrong_key_fails() {
    let sealed = seal(&b"hi there".to_vec(), &[1u8; 32]);
    assert!(open(&sealed, &[2u8; 32]).is_err());
}

#[test]
fn tamper_fails() {
    let key = [3u8; 32];
    let mut sealed = seal(&b"hello world".to_vec(), &key);
    let n = sealed.len();
    sealed[n - 1] ^= 0xFF;
    assert!(matches!(open(&sealed, &key), Err(CryptoError::Decrypt)));
}

#[test]
fn too_short_fails() {
    assert!(matches!(open(&vec![0u8; 4], &[0u8; 32]), Err(CryptoError::TooShort)));
}

#[test]
fn nonce_randomized_per_seal() {
    let key = [9u8; 32];
    assert_ne!(seal(&b"same".to_vec(), &key), seal(&b"same".to_vec(), &key));
}

#[test]
fn a_sealed_blob_is_nonce_text_and_tag() {
    let nonce = vec![5u8; 12];
    let blob = seal_with_nonce(&b"abc".to_vec(), &[1u8; 32], &nonce);
    assert_eq!(blob.len(), 12 + 3 + 16);
    assert_eq!(blob[..12], nonce[..]);
    assert_eq!(open(&blob, &[1u8; 32]).unwrap(), b"abc".to_vec());
    assert!(matches!(open(&blob[..12].to_vec(), &[1u8; 32]), Err(CryptoError::Decrypt)));
}

#[test]
fn blobs_without_room_for_a_tag_do_not_decrypt() {
    for n in 0..12 {
        assert!(matches!(open(&vec![0u8; n], &[0u8; 32]), Err(CryptoError::TooShort)));
    }
    for n in 12..28 {
        assert!(matches!(open(&vec![0u8; n], &[0u8; 32]), Err(CryptoError::Decrypt)));
    }
    assert_eq!(open(&seal(&Vec::new(), &[4u8; 32]), &[4u8; 32]).unwrap(), Vec::<u8>::new());
}

#[test]
fn messages_of_sealing() {
    assert_eq!(CryptoError::Decrypt.message(), "decrypt failed (wrong key or tampered data)");
    assert_eq!(CryptoError::TooShort.message(), "sealed blob too short");
}
