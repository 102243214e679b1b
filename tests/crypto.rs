use aes_gcm::aead::Aead;
use aes_gcm::{Aes256Gcm, KeyInit, Nonce};
use base64::Engine;
use keks_meet::crypto::{hash, Key};

#[test]
fn round_trip() {
    let key = Key::derive("hunter2");
    for s in ["", "hello", "{\"sender\":1,\"inner\":{\"chat\":{\"text\":\"grüße\"}}}"] {
        let blob = key.encrypt(s);
        assert_ne!(blob, s);
        assert_eq!(key.decrypt(&blob), Some(s.to_string()));
    }
}

#[test]
fn same_secret_decrypts_other_instance() {
    let a = Key::derive("shared");
    let b = Key::derive("shared");
    assert_eq!(b.decrypt(&a.encrypt("hi")), Some("hi".to_string()));
}

#[test]
fn fresh_nonce_per_encryption() {
    let key = Key::derive("k");
    assert_ne!(key.encrypt("same"), key.encrypt("same"));
}

#[test]
fn wrong_secret_fails() {
    let a = Key::derive("right");
    let b = Key::derive("wrong");
    assert_eq!(b.decrypt(&a.encrypt("secret text")), None);
}

#[test]
fn tampered_payload_fails() {
    let key = Key::derive("k");
    let blob = key.encrypt("payload");
    let mut chars: Vec<char> = blob.chars().collect();
    chars[20] = if chars[20] == 'A' { 'B' } else { 'A' };
    let tampered: String = chars.into_iter().collect();
    assert_eq!(key.decrypt(&tampered), None);
}

#[test]
fn malformed_payloads_fail() {
    let key = Key::derive("k");
    assert_eq!(key.decrypt("%%% not base64"), None);
    assert_eq!(key.decrypt("AAAA"), None);
    assert_eq!(key.decrypt(""), None);
}

#[test]
fn room_hash_known_value() {
    assert_eq!(hash("hunter2"), "ad1f3cf791d29e682f2d2c12d6238647d6c6fd431935cb6daff51b7a0dcd7aae");
    assert_eq!(hash(""), "f0ceda056290898a87b07ad8c9ecf073d4579977bc38892c12952844a094067c");
}

#[test]
fn room_hash_determinism() {
    assert_eq!(hash("a secret"), hash("a secret"));
    assert_ne!(hash("a secret"), hash("another secret"));
    assert_eq!(hash("x").len(), 64);
    assert_eq!(hash("a much longer secret than thirty-two bytes, surely").len(), 64);
}

#[test]
fn sealing_with_fixed_nonce_is_deterministic() {
    let key = Key::derive("k");
    let nonce = vec![7u8; 12];
    let a = key.seal_with_nonce(&nonce, "hello");
    assert_eq!(a, key.seal_with_nonce(&nonce, "hello"));
    assert!(a.starts_with("BwcHBwcHBwcHBwcH"));
    assert_eq!(a.len(), 44);
    let bytes = base64::engine::general_purpose::STANDARD.decode(&a).unwrap();
    assert_eq!(bytes.len(), 12 + 5 + 16);
    assert_eq!(&bytes[..12], &nonce[..]);
    assert_eq!(key.decrypt(&a), Some("hello".to_string()));
}

#[test]
fn blob_without_room_for_tag_fails() {
    let key = Key::derive("k");
    assert_eq!(key.decrypt("AAAAAAAAAAAAAAAAAAAA"), None);
}

#[test]
fn non_utf8_plaintext_fails() {
    let secret_key = {
        let salt = base64::engine::general_purpose::STANDARD.decode("keksmeet/cryptosaltAAA==").unwrap();
        let mut out = [0u8; 64];
        fastpbkdf2::pbkdf2_hmac_sha512(b"k", &salt, 250000, &mut out);
        out
    };
    let cipher = Aes256Gcm::new_from_slice(&secret_key[..32]).unwrap();
    let nonce = [1u8; 12];
    let mut blob = nonce.to_vec();
    blob.extend(cipher.encrypt(Nonce::from_slice(&nonce), &[0xffu8, 0xfe][..]).unwrap());
    let text = base64::engine::general_purpose::STANDARD.encode(blob);
    assert_eq!(Key::derive("k").decrypt(&text), None);
}
