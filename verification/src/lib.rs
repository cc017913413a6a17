//! A small encrypted-notes library.
//!
//! Notes are stored as an ordered collection of records, each holding a
//! title, a base64-encoded ciphertext and a base64-encoded nonce.  Note
//! bodies are encrypted with AES-256-GCM under a key derived from a
//! password by a single SHA-256 pass.  The collection is persisted as a
//! compact, JSON-shaped array whose serializer and parser are verified
//! to invert each other.

pub mod envelope;
pub mod store;
pub mod vault;
