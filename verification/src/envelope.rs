//! The cryptographic envelope: password-based key derivation,
//! authenticated encryption of note bodies, and the text-safe (base64)
//! encoding under which ciphertexts and nonces are stored.
//!
//! The envelope deliberately cannot tell a wrong key from corrupted or
//! truncated data: all three surface as a failed decryption.

use aes_gcm::aead::Aead;
use aes_gcm::{Aes256Gcm, KeyInit};
use base64::Engine;
use rand::RngCore;
use sha2::Digest;
use vstd::prelude::*;

verus! {

/// The SHA-256 digest of a byte sequence, as the `sha2` crate computes it.
pub uninterp spec fn sha256_of(data: Seq<u8>) -> Seq<u8>;

/// The AES-256-GCM sealing of a plaintext under a 32-byte key and a
/// 12-byte nonce: the ciphertext with its 16-byte authentication tag
/// appended, as the `aes-gcm` crate computes it.
pub uninterp spec fn aes_gcm_seal(key: Seq<u8>, nonce: Seq<u8>, plaintext: Seq<u8>) -> Seq<u8>;

/// The canonical padded base64 encoding of a byte sequence, as the
/// `base64` crate's standard engine computes it.
pub uninterp spec fn base64_of(bytes: Seq<u8>) -> Seq<char>;

/// AES-GCM seals plaintexts of at most 2^36 - 32 bytes, the standard's
/// cap; the cipher crate itself refuses only inputs over 2^36, but in
/// the last 32 bytes of that range its 32-bit block counter would wrap,
/// so this library stays under the standard.  The ciphertext, 16 bytes
/// longer, must also still fit in one allocation.
pub open spec fn sealable(plaintext: Seq<u8>) -> bool {
    plaintext.len() <= 0xf_ffff_ffe0 && plaintext.len() + 16 <= usize::MAX
}

/// No sealing of an admissible plaintext is longer than this; a longer
/// ciphertext can open to no plaintext this library ever seals.
pub open spec fn openable(ciphertext: Seq<u8>) -> bool {
    ciphertext.len() <= 0xf_ffff_fff0
}

/// Note bodies are kept comfortably under both the cipher's length cap
/// and the base64 encoder's output-size limit, on either machine word
/// width.
pub open spec fn storable(plaintext: Seq<u8>) -> bool {
    plaintext.len() <= 0x1fff_ffe0
}

/// The ciphertext is the sealing of the plaintext under this key and
/// nonce.  Successful decryption is exactly the existence of such a
/// plaintext.
pub open spec fn opens_to(key: Seq<u8>, nonce: Seq<u8>, ciphertext: Seq<u8>, plaintext: Seq<u8>) -> bool {
    &&& sealable(plaintext)
    &&& plaintext.len() + 16 == ciphertext.len()
    &&& ciphertext == aes_gcm_seal(key, nonce, plaintext)
}

/// Relies on `sha2::Sha256::digest`: the digest is 32 bytes and depends
/// on the input bytes alone.
#[verifier::external_body]
fn sha256_digest(data: &[u8]) -> (r: Vec<u8>)
    ensures
        r@ == sha256_of(data@),
        r@.len() == 32,
{
    sha2::Sha256::digest(data).to_vec()
}

/// Relies on `rand::rngs::OsRng::fill_bytes` for 12 bytes from the
/// operating system's entropy source.  Nothing can be promised of a
/// random value beyond its length.
#[verifier::external_body]
fn fresh_nonce() -> (r: Vec<u8>)
    ensures
        r@.len() == 12,
{
    let mut bytes = [0u8; 12];
    rand::rngs::OsRng.fill_bytes(&mut bytes);
    bytes.to_vec()
}

/// Relies on `aes_gcm::Aes256Gcm::encrypt` (via the `Aead` trait): it
/// returns the ciphertext with the 16-byte tag appended, a deterministic
/// function of key, nonce and plaintext; it refuses only plaintexts over
/// 2^36 bytes, and the slice constructors panic on other lengths, so the
/// preconditions keep both out.  `sealable` stays 32 bytes below the
/// crate's own cap, under the standard's limit, where the counter
/// cannot wrap.
#[verifier::external_body]
fn aes_seal(key: &[u8], nonce: &[u8], plaintext: &[u8]) -> (r: Vec<u8>)
    requires
        key@.len() == 32,
        nonce@.len() == 12,
        sealable(plaintext@),
    ensures
        r@ == aes_gcm_seal(key@, nonce@, plaintext@),
        r@.len() == plaintext@.len() + 16,
{
    let cipher = Aes256Gcm::new(aes_gcm::Key::<Aes256Gcm>::from_slice(key));
    cipher.encrypt(aes_gcm::Nonce::from_slice(nonce), plaintext).unwrap()
}

/// Relies on `aes_gcm::Aes256Gcm::decrypt` (via the `Aead` trait): for
/// a ciphertext no longer than any admissible sealing, it succeeds
/// exactly when the tag verifies, that is, when the ciphertext is the
/// sealing of some plaintext under this key and nonce, and it then
/// returns that plaintext, which is unique because sealing with a fixed
/// key and nonce is injective.  The length bound matters: the crate
/// itself accepts still longer ciphertexts, whose plaintexts would lie
/// beyond `sealable`, so callers screen those out first.
#[verifier::external_body]
fn aes_open(key: &[u8], nonce: &[u8], ciphertext: &[u8]) -> (r: Option<Vec<u8>>)
    requires
        key@.len() == 32,
        nonce@.len() == 12,
        openable(ciphertext@),
    ensures
        match r {
            Some(p) => opens_to(key@, nonce@, ciphertext@, p@)
                && (forall|q: Seq<u8>| opens_to(key@, nonce@, ciphertext@, q) ==> q == p@),
            None => forall|q: Seq<u8>| !opens_to(key@, nonce@, ciphertext@, q),
        },
{
    let cipher = Aes256Gcm::new(aes_gcm::Key::<Aes256Gcm>::from_slice(key));
    cipher.decrypt(aes_gcm::Nonce::from_slice(nonce), ciphertext).ok()
}

/// Relies on `base64::engine::general_purpose::STANDARD.encode`: the
/// canonical padded encoding, four characters for every three bytes
/// begun.  It panics when the encoded length overflows `usize`; the
/// precondition keeps the output under 2^30 characters, safely inside
/// any word width.
#[verifier::external_body]
fn b64_encode(bytes: &[u8]) -> (r: String)
    requires
        bytes@.len() <= 0x2000_0000,
    ensures
        r@ == base64_of(bytes@),
        r@.len() == 4 * ((bytes@.len() + 2) / 3),
{
    base64::engine::general_purpose::STANDARD.encode(bytes)
}

/// Relies on `base64::engine::general_purpose::STANDARD.decode`: the
/// standard engine demands canonical padding and zeroed trailing bits, so
/// it succeeds exactly on the canonical encoding of some byte sequence,
/// and returns that sequence, which is unique because the canonical
/// encoding is injective.
#[verifier::external_body]
fn b64_decode(text: &str) -> (r: Option<Vec<u8>>)
    ensures
        match r {
            Some(b) => text@ == base64_of(b@)
                && (forall|c: Seq<u8>| base64_of(c) == text@ ==> c == b@),
            None => forall|b: Seq<u8>| base64_of(b) != text@,
        },
{
    base64::engine::general_purpose::STANDARD.decode(text).ok()
}

/// Derives the working key from a password: one SHA-256 pass over the
/// password bytes.  Deterministic, unsalted and uniterated by design;
/// the single fast hash is a documented weakness of the scheme, not an
/// accident.
pub fn derive_key(password: &[u8]) -> (r: Vec<u8>)
    ensures
        r@ == sha256_of(password@),
        r@.len() == 32,
{
    sha256_digest(password)
}

/// Encrypts a plaintext under the working key with a freshly drawn
/// nonce.  Returns the ciphertext (tag appended) and the nonce used.
pub fn encrypt(plaintext: &[u8], key: &[u8]) -> (r: (Vec<u8>, Vec<u8>))
    requires
        key@.len() == 32,
        sealable(plaintext@),
    ensures
        r.1@.len() == 12,
        opens_to(key@, r.1@, r.0@, plaintext@),
{
    let nonce = fresh_nonce();
    let ciphertext = aes_seal(key, nonce.as_slice(), plaintext);
    (ciphertext, nonce)
}

/// Decrypts a ciphertext produced by `encrypt`.  Returns the plaintext
/// exactly when the ciphertext is the sealing of one under this key and
/// nonce; a wrong key, a wrong nonce and tampered bytes all come out as
/// `None`.
pub fn decrypt(ciphertext: &[u8], nonce: &[u8], key: &[u8]) -> (r: Option<Vec<u8>>)
    requires
        key@.len() == 32,
        nonce@.len() == 12,
    ensures
        match r {
            Some(p) => opens_to(key@, nonce@, ciphertext@, p@)
                && (forall|q: Seq<u8>| opens_to(key@, nonce@, ciphertext@, q) ==> q == p@),
            None => forall|q: Seq<u8>| !opens_to(key@, nonce@, ciphertext@, q),
        },
{
    if ciphertext.len() as u64 > 0xf_ffff_fff0u64 {
        proof {
            assert forall|q: Seq<u8>| !opens_to(key@, nonce@, ciphertext@, q) by {
                assert(ciphertext@.len() > 0xf_ffff_fff0);
            }
        }
        return None;
    }
    aes_open(key, nonce, ciphertext)
}

/// Round-trip law: decrypting what `encrypt` produced, under the key
/// derived from the same password, always returns the original
/// plaintext.
pub fn roundtrip_under_password(plaintext: &[u8], password: &[u8]) -> (r: Option<Vec<u8>>)
    requires
        sealable(plaintext@),
    ensures
        r matches Some(p) && p@ == plaintext@,
{
    let key = derive_key(password);
    let (ciphertext, nonce) = encrypt(plaintext, key.as_slice());
    decrypt(ciphertext.as_slice(), nonce.as_slice(), key.as_slice())
}

/// A note body opens to a plaintext when its two stored fields are the
/// canonical encodings of a ciphertext and a 12-byte nonce under which
/// the ciphertext seals that plaintext.
pub open spec fn note_opens_to(key: Seq<u8>, content: Seq<char>, nonce_text: Seq<char>, plaintext: Seq<u8>) -> bool {
    exists|ct: Seq<u8>, nb: Seq<u8>|
        content == base64_of(ct) && nonce_text == base64_of(nb) && nb.len() == 12
            && opens_to(key, nb, ct, plaintext)
}

/// A stored note body is decryptable under a key when it opens to some
/// plaintext.
pub open spec fn note_decryptable(key: Seq<u8>, content: Seq<char>, nonce_text: Seq<char>) -> bool {
    exists|p: Seq<u8>| note_opens_to(key, content, nonce_text, p)
}

/// Encrypts a note body for storage: a fresh nonce, the sealed bytes,
/// both base64-encoded.  Returns (content, nonce) as they are persisted.
pub fn encrypt_note(plaintext: &[u8], key: &[u8]) -> (r: (String, String))
    requires
        key@.len() == 32,
        storable(plaintext@),
    ensures
        note_opens_to(key@, r.0@, r.1@, plaintext@),
{
    let (ciphertext, nonce) = encrypt(plaintext, key);
    let content_text = b64_encode(ciphertext.as_slice());
    let nonce_text = b64_encode(nonce.as_slice());
    proof {
        assert(content_text@ == base64_of(ciphertext@) && nonce_text@ == base64_of(nonce@)
            && nonce@.len() == 12 && opens_to(key@, nonce@, ciphertext@, plaintext@));
    }
    (content_text, nonce_text)
}

/// Decrypts a stored note body.  Returns the plaintext exactly when both
/// fields decode and the ciphertext seals one under this key; malformed
/// base64, a nonce of the wrong length, a wrong key and tampered bytes
/// all come out as `None`.
pub fn decrypt_note(content: &str, nonce_text: &str, key: &[u8]) -> (r: Option<Vec<u8>>)
    requires
        key@.len() == 32,
    ensures
        match r {
            Some(p) => note_opens_to(key@, content@, nonce_text@, p@)
                && (forall|q: Seq<u8>| note_opens_to(key@, content@, nonce_text@, q) ==> q == p@),
            None => !note_decryptable(key@, content@, nonce_text@),
        },
{
    let ciphertext = match b64_decode(content) {
        Some(b) => b,
        None => {
            proof {
                assert forall|p: Seq<u8>| !note_opens_to(key@, content@, nonce_text@, p) by {
                    if note_opens_to(key@, content@, nonce_text@, p) {
                        let (ct, nb) = choose|ct: Seq<u8>, nb: Seq<u8>|
                            content@ == base64_of(ct) && nonce_text@ == base64_of(nb)
                                && nb.len() == 12 && opens_to(key@, nb, ct, p);
                        assert(base64_of(ct) != content@);
                    }
                }
            }
            return None;
        },
    };
    let nonce = match b64_decode(nonce_text) {
        Some(b) => b,
        None => {
            proof {
                assert forall|p: Seq<u8>| !note_opens_to(key@, content@, nonce_text@, p) by {
                    if note_opens_to(key@, content@, nonce_text@, p) {
                        let (ct, nb) = choose|ct: Seq<u8>, nb: Seq<u8>|
                            content@ == base64_of(ct) && nonce_text@ == base64_of(nb)
                                && nb.len() == 12 && opens_to(key@, nb, ct, p);
                        assert(base64_of(nb) != nonce_text@);
                    }
                }
            }
            return None;
        },
    };
    if ciphertext.len() as u64 > 0xf_ffff_fff0u64 {
        proof {
            assert forall|p: Seq<u8>| !note_opens_to(key@, content@, nonce_text@, p) by {
                if note_opens_to(key@, content@, nonce_text@, p) {
                    let (ct, nb) = choose|ct: Seq<u8>, nb: Seq<u8>|
                        content@ == base64_of(ct) && nonce_text@ == base64_of(nb)
                            && nb.len() == 12 && opens_to(key@, nb, ct, p);
                    assert(ct == ciphertext@);
                    assert(ct.len() > 0xf_ffff_fff0);
                }
            }
        }
        return None;
    }
    if nonce.len() != 12 {
        proof {
            assert forall|p: Seq<u8>| !note_opens_to(key@, content@, nonce_text@, p) by {
                if note_opens_to(key@, content@, nonce_text@, p) {
                    let (ct, nb) = choose|ct: Seq<u8>, nb: Seq<u8>|
                        content@ == base64_of(ct) && nonce_text@ == base64_of(nb)
                            && nb.len() == 12 && opens_to(key@, nb, ct, p);
                    assert(nb == nonce@);
                }
            }
        }
        return None;
    }
    let r = aes_open(key, nonce.as_slice(), ciphertext.as_slice());
    proof {
        match &r {
            Some(p) => {
                assert(note_opens_to(key@, content@, nonce_text@, p@)) by {
                    assert(content@ == base64_of(ciphertext@) && nonce_text@ == base64_of(nonce@)
                        && nonce@.len() == 12 && opens_to(key@, nonce@, ciphertext@, p@));
                }
                assert forall|q: Seq<u8>| note_opens_to(key@, content@, nonce_text@, q) implies q == p@ by {
                    let (ct, nb) = choose|ct: Seq<u8>, nb: Seq<u8>|
                        content@ == base64_of(ct) && nonce_text@ == base64_of(nb)
                            && nb.len() == 12 && opens_to(key@, nb, ct, q);
                    assert(ct == ciphertext@);
                    assert(nb == nonce@);
                }
            },
            None => {
                assert forall|p: Seq<u8>| !note_opens_to(key@, content@, nonce_text@, p) by {
                    if note_opens_to(key@, content@, nonce_text@, p) {
                        let (ct, nb) = choose|ct: Seq<u8>, nb: Seq<u8>|
                            content@ == base64_of(ct) && nonce_text@ == base64_of(nb)
                                && nb.len() == 12 && opens_to(key@, nb, ct, p);
                        assert(ct == ciphertext@);
                        assert(nb == nonce@);
                        assert(!opens_to(key@, nonce@, ciphertext@, p));
                    }
                }
            },
        }
    }
    r
}

/// Round-trip law at the stored-note level: a body produced by
/// `encrypt_note` decrypts, under the key derived from the same
/// password, back to the original plaintext.
pub fn note_roundtrip_under_password(plaintext: &[u8], password: &[u8]) -> (r: Option<Vec<u8>>)
    requires
        storable(plaintext@),
    ensures
        r matches Some(p) && p@ == plaintext@,
{
    let key = derive_key(password);
    let (content, nonce_text) = encrypt_note(plaintext, key.as_slice());
    decrypt_note(content.as_str(), nonce_text.as_str(), key.as_slice())
}

} // verus!
