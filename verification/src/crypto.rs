//! The cryptographic boundary of the store: key derivation and the
//! authenticated cipher, both provided by `ring` behind trusted wrappers.
//!
//! The on-disk format fixes the AEAD nonce to the all-zero 96-bit value for
//! every seal under a given key. Reusing a nonce this way is a known weakness
//! of the format (it leaks keystream reuse across saves); it is kept here
//! because the format stores no nonce and the key derivation stores no salt.

use vstd::prelude::*;

verus! {

use vstd::string::StrSliceExecFns;
use vstd::utf8::decode_utf8;
use vstd::utf8::encode_utf8;
use vstd::utf8::valid_utf8;

/// What `ring::digest::digest` with SHA-256 returns for the given input
/// bytes: a function of the input alone, named rather than written out.
pub uninterp spec fn sha256_of(data: Seq<u8>) -> Seq<u8>;

/// What AES-256-GCM produces for the given 32-byte key and plaintext under
/// the store's fixed all-zero nonce: the ciphertext with the 16-byte
/// authentication tag appended. A function of key and plaintext alone.
pub uninterp spec fn sealed(key: Seq<u8>, plaintext: Seq<u8>) -> Seq<u8>;

/// The 256-bit master key derived from a passphrase: a single SHA-256 pass
/// over the passphrase's UTF-8 bytes. Deterministic and unsalted, so equal
/// passphrases always derive equal keys (a known weakness of the format:
/// the derivation offers no brute-force resistance).
pub open spec fn key_of(passphrase: Seq<char>) -> Seq<u8> {
    sha256_of(encode_utf8(passphrase))
}

/// Plaintexts at least this long are refused before sealing; AES-GCM itself
/// accepts far longer inputs, so staying under the bound keeps the sealing
/// call free of failure.
pub const MAX_PLAINTEXT_LEN: u64 = 0x1_0000_0000;

/// Relies on `ring::digest::digest` with `SHA256`: a pure function of the
/// input bytes, always returning a 32-byte digest.
#[verifier::external_body]
pub(crate) fn sha256(data: &Vec<u8>) -> (r: Vec<u8>)
    ensures
        r@ == sha256_of(data@),
        r@.len() == 32,
{
    ring::digest::digest(&ring::digest::SHA256, data.as_slice()).as_ref().to_vec()
}

/// Derives the master key for a passphrase.
pub fn derive_key(passphrase: &str) -> (key: Vec<u8>)
    ensures
        key@ == key_of(passphrase@),
        key@.len() == 32,
{
    let bytes = passphrase.as_bytes_vec();
    sha256(&bytes)
}

/// Relies on `ring::aead::LessSafeKey::seal_in_place_append_tag` with
/// `AES_256_GCM`: deterministic in key, nonce and plaintext; returns the
/// ciphertext (as long as the plaintext) with the 16-byte tag appended. The
/// call fails only for plaintexts far beyond the length bound required here,
/// and `UnboundKey::new` only for keys that are not 32 bytes long.
#[verifier::external_body]
pub(crate) fn aead_seal(key: &Vec<u8>, plaintext: &Vec<u8>) -> (r: Vec<u8>)
    requires
        key@.len() == 32,
        plaintext@.len() < MAX_PLAINTEXT_LEN,
    ensures
        r@ == sealed(key@, plaintext@),
        r@.len() == plaintext@.len() + 16,
{
    let unbound = ring::aead::UnboundKey::new(&ring::aead::AES_256_GCM, key.as_slice()).unwrap();
    let k = ring::aead::LessSafeKey::new(unbound);
    let nonce = ring::aead::Nonce::assume_unique_for_key([0u8; 12]);
    let mut buf = plaintext.clone();
    k.seal_in_place_append_tag(nonce, ring::aead::Aad::empty(), &mut buf).unwrap();
    buf
}

/// Relies on `ring::aead::LessSafeKey::open_in_place` with `AES_256_GCM`:
/// it succeeds exactly on blobs that AES-256-GCM seals under this key and
/// the fixed all-zero nonce, and then yields the sealed plaintext. For a
/// fixed key and nonce, GCM encryption is a length-preserving bijection, so
/// a blob that opens to `v` is itself the seal of `v`.
#[verifier::external_body]
pub(crate) fn aead_open(key: &Vec<u8>, blob: &Vec<u8>) -> (r: Option<Vec<u8>>)
    requires
        key@.len() == 32,
    ensures
        r matches Some(v) ==> blob@ == sealed(key@, v@),
        r is None ==> forall|pt: Seq<u8>| blob@ != sealed(key@, pt),
        r matches Some(v) ==> forall|pt: Seq<u8>| blob@ == sealed(key@, pt) ==> pt == v@,
{
    let unbound = ring::aead::UnboundKey::new(&ring::aead::AES_256_GCM, key.as_slice()).unwrap();
    let k = ring::aead::LessSafeKey::new(unbound);
    let nonce = ring::aead::Nonce::assume_unique_for_key([0u8; 12]);
    let mut buf = blob.clone();
    match k.open_in_place(nonce, ring::aead::Aad::empty(), &mut buf) {
        Ok(pt) => Some(pt.to_vec()),
        Err(_) => None,
    }
}

/// Relies on `Iterator::collect` for `String`: the resulting string holds
/// exactly the given characters.
#[verifier::external_body]
pub(crate) fn chars_to_string(cs: &Vec<char>) -> (r: String)
    ensures
        r@ == cs@,
{
    cs.iter().collect()
}

/// Relies on `String::from_utf8`: it succeeds exactly on valid UTF-8 and
/// returns the string those bytes encode.
#[verifier::external_body]
pub(crate) fn bytes_to_string(b: &Vec<u8>) -> (r: Option<String>)
    ensures
        r is Some <==> valid_utf8(b@),
        r matches Some(s) ==> s@ == decode_utf8(b@),
{
    match String::from_utf8(b.clone()) {
        Ok(s) => Some(s),
        Err(_) => None,
    }
}

} // verus!
