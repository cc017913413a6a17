use vault::envelope::{
    decrypt, decrypt_note, derive_key, encrypt, encrypt_note, note_roundtrip_under_password,
    roundtrip_under_password,
};

#[test]
fn derive_key_known_vector() {
    // The SHA-256 digest of "abc", as every test vector table gives it.
    let expected: [u8; 32] = [
        0xba, 0x78, 0x16, 0xbf, 0x8f, 0x01, 0xcf, 0xea, 0x41, 0x41, 0x40, 0xde, 0x5d, 0xae,
        0x22, 0x23, 0xb0, 0x03, 0x61, 0xa3, 0x96, 0x17, 0x7a, 0x9c, 0xb4, 0x10, 0xff, 0x61,
        0xf2, 0x00, 0x15, 0xad,
    ];
    assert_eq!(derive_key(b"abc"), expected.to_vec());
}

#[test]
fn derive_key_is_deterministic() {
    assert_eq!(derive_key(b"hunter2"), derive_key(b"hunter2"));
    assert_ne!(derive_key(b"hunter2"), derive_key(b"hunter3"));
    assert_eq!(derive_key(b"").len(), 32);
}

#[test]
fn encrypt_decrypt_round_trip() {
    let key = derive_key(b"abc123");
    let (ciphertext, nonce) = encrypt(b"milk, eggs", &key);
    assert_eq!(nonce.len(), 12);
    assert_eq!(ciphertext.len(), b"milk, eggs".len() + 16);
    assert_eq!(decrypt(&ciphertext, &nonce, &key), Some(b"milk, eggs".to_vec()));
}

#[test]
fn round_trip_laws_hold_on_values() {
    assert_eq!(roundtrip_under_password(b"secret", b"pw"), Some(b"secret".to_vec()));
    assert_eq!(note_roundtrip_under_password(b"secret", b"pw"), Some(b"secret".to_vec()));
    assert_eq!(roundtrip_under_password(b"", b""), Some(Vec::new()));
}

#[test]
fn wrong_key_fails_to_decrypt() {
    let k1 = derive_key(b"hunter2");
    let k2 = derive_key(b"wrongpass");
    let (ciphertext, nonce) = encrypt(b"secret", &k1);
    assert_eq!(decrypt(&ciphertext, &nonce, &k2), None);
    assert_eq!(decrypt(&ciphertext, &nonce, &k1), Some(b"secret".to_vec()));
}

#[test]
fn nonces_are_fresh_per_encryption() {
    let key = derive_key(b"same");
    let (c1, n1) = encrypt(b"same plaintext", &key);
    let (c2, n2) = encrypt(b"same plaintext", &key);
    assert_ne!(n1, n2);
    assert_ne!(c1, c2);
}

#[test]
fn tampering_any_bit_fails_decryption() {
    let key = derive_key(b"abc123");
    let (ciphertext, nonce) = encrypt(b"attack at dawn", &key);
    for byte in 0..ciphertext.len() {
        for bit in 0..8 {
            let mut tampered = ciphertext.clone();
            tampered[byte] ^= 1 << bit;
            assert_eq!(decrypt(&tampered, &nonce, &key), None);
        }
    }
    for byte in 0..nonce.len() {
        for bit in 0..8 {
            let mut tampered = nonce.clone();
            tampered[byte] ^= 1 << bit;
            assert_eq!(decrypt(&ciphertext, &tampered, &key), None);
        }
    }
}

#[test]
fn note_body_round_trip() {
    let key = derive_key(b"abc123");
    let (content, nonce) = encrypt_note(b"milk, eggs", &key);
    // 12 nonce bytes encode to exactly 16 base64 characters.
    assert_eq!(nonce.len(), 16);
    assert_eq!(
        decrypt_note(&content, &nonce, &key),
        Some(b"milk, eggs".to_vec())
    );
}

#[test]
fn malformed_base64_fails_like_a_wrong_key() {
    let key = derive_key(b"abc123");
    let (content, nonce) = encrypt_note(b"x", &key);
    assert_eq!(decrypt_note("not base64!!", &nonce, &key), None);
    assert_eq!(decrypt_note(&content, "not base64!!", &key), None);
    // A valid encoding of the wrong number of nonce bytes fails too.
    assert_eq!(decrypt_note(&content, "AAAA", &key), None);
    // Flipping a character of the stored text fails as tampering.
    let mut chars: Vec<char> = content.chars().collect();
    chars[0] = if chars[0] == 'A' { 'B' } else { 'A' };
    let tampered: String = chars.into_iter().collect();
    assert_eq!(decrypt_note(&tampered, &nonce, &key), None);
}
