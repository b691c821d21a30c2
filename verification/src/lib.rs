//! A local credential store: a mapping from account names to secrets,
//! persisted on disk as a single encrypted blob under a key derived from a
//! master passphrase.
//!
//! `crypto` holds the key derivation and the authenticated cipher, `codec`
//! the canonical encoding of the mapping, and `store` the mapping itself
//! with its load and seal lifecycle.

pub mod codec;
pub mod crypto;
pub mod store;
