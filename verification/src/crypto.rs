//! The crypto engine: authenticated encryption of message payloads with
//! AES-256-GCM, and the layout of the blob that carries a sealed message.
//!
//! A blob is the nonce followed by the ciphertext with its authentication
//! tag: `[nonce: 12 bytes][ciphertext][tag: 16 bytes]`.

use aes_gcm::aead::generic_array::GenericArray;
use aes_gcm::aead::{Aead, KeyInit};
use aes_gcm::Aes256Gcm;
use vstd::prelude::*;

verus! {

/// Bytes in a key.
pub const KEY_LEN: usize = 32;

/// Bytes in a nonce.
pub const NONCE_LEN: usize = 12;

/// Bytes in an authentication tag.
pub const TAG_LEN: usize = 16;

/// The longest plaintext that AES-GCM seals, in bytes.
pub const SEAL_LIMIT: u64 = 0x10_0000_0000;

/// Why the engine turned a request down.
#[derive(Clone, Copy, Debug, PartialEq, Eq, Structural)]
pub enum CryptoError {
    /// The plaintext is longer than `max_plaintext_len()`.
    PlaintextTooLong,
    /// The blob is not what was sealed under this key: it was cut short,
    /// altered, or sealed under another key.
    AuthenticationFailure,
}

/// The error of the crate `aead`, which `aes-gcm` returns: opaque, it says
/// only that sealing or opening failed.
#[verifier::external_type_specification]
#[verifier::external_body]
pub struct ExAeadError(aes_gcm::Error);

/// What AES-256-GCM makes of `plaintext` under `key` and `nonce`, with no
/// associated data: the ciphertext with the tag behind it.
pub uninterp spec fn aes256_gcm_seal(key: Seq<u8>, nonce: Seq<u8>, plaintext: Seq<u8>) -> Seq<u8>;

/// What AES-256-GCM recovers from `ciphertext` (with its tag) under `key`
/// and `nonce`, with no associated data; `None` where it rejects it.
pub uninterp spec fn aes256_gcm_open(key: Seq<u8>, nonce: Seq<u8>, ciphertext: Seq<u8>) -> Option<
    Seq<u8>,
>;

/// `Aes256Gcm::encrypt` of the crate `aes-gcm`, on a cipher made with
/// `Aes256Gcm::new`.
///
/// Taken on trust: the call fails exactly on a plaintext of more than 2^36
/// bytes; what it returns otherwise depends on the three arguments alone, is
/// 16 bytes longer than the plaintext, and is opened again to that plaintext
/// by `Aes256Gcm::decrypt` under the same key and nonce.
#[verifier::external_body]
fn seal(key: &[u8; 32], nonce: &[u8; 12], plaintext: &[u8]) -> (sealed: Result<
    Vec<u8>,
    aes_gcm::Error,
>)
    requires
        plaintext@.len() + TAG_LEN <= isize::MAX,
    ensures
        sealed is Ok <==> plaintext@.len() <= SEAL_LIMIT,
        sealed matches Ok(c) ==> c@ == aes256_gcm_seal(key@, nonce@, plaintext@),
        sealed matches Ok(c) ==> c@.len() == plaintext@.len() + TAG_LEN,
        sealed matches Ok(c) ==> aes256_gcm_open(key@, nonce@, c@) == Some(plaintext@),
{
    let cipher = Aes256Gcm::new(GenericArray::from_slice(key));
    cipher.encrypt(GenericArray::from_slice(nonce), plaintext)
}

/// `Aes256Gcm::decrypt` of the crate `aes-gcm`, on a cipher made with
/// `Aes256Gcm::new`.
///
/// Taken on trust: whether the call succeeds, and with what, depends on the
/// three arguments alone.
#[verifier::external_body]
fn open(key: &[u8; 32], nonce: &[u8; 12], ciphertext: &[u8]) -> (opened: Result<
    Vec<u8>,
    aes_gcm::Error,
>)
    ensures
        match opened {
            Ok(p) => aes256_gcm_open(key@, nonce@, ciphertext@) == Some(p@),
            Err(_) => aes256_gcm_open(key@, nonce@, ciphertext@) is None,
        },
{
    let cipher = Aes256Gcm::new(GenericArray::from_slice(key));
    cipher.decrypt(GenericArray::from_slice(nonce), ciphertext)
}

/// The longest plaintext that `encrypt` accepts: what AES-GCM seals, or
/// less where a blob of that size would not fit in memory.
pub open spec fn max_plaintext_len() -> int {
    if isize::MAX - NONCE_LEN - TAG_LEN < SEAL_LIMIT {
        isize::MAX - NONCE_LEN - TAG_LEN
    } else {
        SEAL_LIMIT as int
    }
}

/// The blob that carries `plaintext` sealed under `key` and `nonce`.
pub open spec fn sealed_blob(key: Seq<u8>, nonce: Seq<u8>, plaintext: Seq<u8>) -> Seq<u8> {
    nonce + aes256_gcm_seal(key, nonce, plaintext)
}

/// What `blob` holds for the owner of `key`: the plaintext, or an
/// authentication failure where the blob is too short to hold a nonce and a
/// tag or where AES-GCM rejects it.
pub open spec fn opened_blob(key: Seq<u8>, blob: Seq<u8>) -> Result<Seq<u8>, CryptoError> {
    if blob.len() < NONCE_LEN + TAG_LEN {
        Err(CryptoError::AuthenticationFailure)
    } else {
        match aes256_gcm_open(key, blob.take(NONCE_LEN as int), blob.skip(NONCE_LEN as int)) {
            Some(plaintext) => Ok(plaintext),
            None => Err(CryptoError::AuthenticationFailure),
        }
    }
}

/// Two blobs sealed under different nonces differ, whatever the key and
/// the plaintexts: a blob starts with its nonce.
pub proof fn lemma_nonces_tell_blobs_apart(
    key: Seq<u8>,
    first_nonce: Seq<u8>,
    second_nonce: Seq<u8>,
    first_plaintext: Seq<u8>,
    second_plaintext: Seq<u8>,
)
    requires
        first_nonce.len() == NONCE_LEN,
        second_nonce.len() == NONCE_LEN,
        first_nonce != second_nonce,
    ensures
        sealed_blob(key, first_nonce, first_plaintext) != sealed_blob(
            key,
            second_nonce,
            second_plaintext,
        ),
{
    let first = sealed_blob(key, first_nonce, first_plaintext);
    let second = sealed_blob(key, second_nonce, second_plaintext);
    assert(first.take(NONCE_LEN as int) =~= first_nonce);
    assert(second.take(NONCE_LEN as int) =~= second_nonce);
}

/// Puts `nonce` in front of a sealed message.
pub fn assemble_blob(nonce: &[u8; 12], sealed: &[u8]) -> (blob: Vec<u8>)
    requires
        NONCE_LEN + sealed@.len() <= isize::MAX,
    ensures
        blob@ == nonce@ + sealed@,
{
    let mut blob: Vec<u8> = Vec::with_capacity(NONCE_LEN + sealed.len());
    let mut i: usize = 0;
    while i < NONCE_LEN
        invariant
            i <= NONCE_LEN,
            blob@ == nonce@.take(i as int),
        decreases NONCE_LEN - i,
    {
        blob.push(nonce[i]);
        assert(blob@ =~= nonce@.take(i + 1));
        i += 1;
    }
    let mut j: usize = 0;
    while j < sealed.len()
        invariant
            j <= sealed@.len(),
            blob@ == nonce@ + sealed@.take(j as int),
        decreases sealed@.len() - j,
    {
        blob.push(sealed[j]);
        assert(blob@ =~= nonce@ + sealed@.take(j + 1));
        j += 1;
    }
    assert(blob@ =~= nonce@ + sealed@);
    blob
}

/// Parts a blob into its nonce and the sealed message behind it; `None`
/// where the blob is too short to hold a nonce and a tag.
pub fn split_blob(blob: &[u8]) -> (parts: Option<([u8; 12], &[u8])>)
    ensures
        parts is Some <==> blob@.len() >= NONCE_LEN + TAG_LEN,
        parts matches Some((nonce, sealed)) ==> nonce@ == blob@.take(NONCE_LEN as int) && sealed@
            == blob@.skip(NONCE_LEN as int),
{
    if blob.len() < NONCE_LEN + TAG_LEN {
        return None;
    }
    let nonce: [u8; 12] = [
        blob[0],
        blob[1],
        blob[2],
        blob[3],
        blob[4],
        blob[5],
        blob[6],
        blob[7],
        blob[8],
        blob[9],
        blob[10],
        blob[11],
    ];
    let sealed = vstd::slice::slice_subrange(blob, NONCE_LEN, blob.len());
    assert(nonce@ =~= blob@.take(NONCE_LEN as int));
    assert(sealed@ =~= blob@.skip(NONCE_LEN as int));
    Some((nonce, sealed))
}

/// The key that `text` spells: 64 hexadecimal digits, lower case.
pub open spec fn key_of(text: Seq<u8>) -> Option<Seq<u8>> {
    match crate::hex::decoded(text) {
        Some(bytes) => if bytes.len() == KEY_LEN {
            Some(bytes)
        } else {
            None
        },
        None => None,
    }
}

/// Reads a key that was handed over as hexadecimal text; `None` where the
/// text is not the text of 32 bytes.
pub fn key_from_hex(text: &[u8]) -> (key: Option<[u8; 32]>)
    ensures
        match key {
            Some(k) => key_of(text@) == Some(k@),
            None => key_of(text@) is None,
        },
{
    let bytes = match crate::hex::decode(text) {
        Some(bytes) => bytes,
        None => {
            return None;
        },
    };
    if bytes.len() != KEY_LEN {
        return None;
    }
    let mut key: [u8; 32] = [0u8; 32];
    let mut i: usize = 0;
    while i < KEY_LEN
        invariant
            i <= KEY_LEN,
            bytes@.len() == KEY_LEN,
            forall|j: int| 0 <= j < i ==> key@[j] == bytes@[j],
        decreases KEY_LEN - i,
    {
        key[i] = bytes[i];
        i += 1;
    }
    assert(key@ =~= bytes@);
    Some(key)
}

/// Seals `data` under `key` and `nonce` and returns the blob: the nonce,
/// then the ciphertext with its tag.
///
/// The nonce must be fresh: no two messages may be sealed under one key
/// with the same nonce. Whatever blob is returned, `decrypt` under the same
/// key gives `data` back.
pub fn encrypt(data: &[u8], key: &[u8; 32], nonce: &[u8; 12]) -> (blob: Result<
    Vec<u8>,
    CryptoError,
>)
    ensures
        data@.len() > max_plaintext_len() ==> blob == Err::<Vec<u8>, CryptoError>(
            CryptoError::PlaintextTooLong,
        ),
        data@.len() <= max_plaintext_len() ==> blob is Ok,
        blob matches Ok(b) ==> b@ == sealed_blob(key@, nonce@, data@),
        blob matches Ok(b) ==> b@.len() == NONCE_LEN + data@.len() + TAG_LEN,
        blob matches Ok(b) ==> opened_blob(key@, b@) == Ok::<Seq<u8>, CryptoError>(data@),
{
    if data.len() > isize::MAX as usize - NONCE_LEN - TAG_LEN || data.len() as u64 > SEAL_LIMIT {
        return Err(CryptoError::PlaintextTooLong);
    }
    match seal(key, nonce, data) {
        Ok(sealed) => {
            let blob = assemble_blob(nonce, sealed.as_slice());
            assert(blob@.take(NONCE_LEN as int) =~= nonce@);
            assert(blob@.skip(NONCE_LEN as int) =~= sealed@);
            Ok(blob)
        },
        Err(_) => Err(CryptoError::PlaintextTooLong),
    }
}

/// Opens a blob under `key`. Total: whatever the bytes, it returns
/// the plaintext or `AuthenticationFailure`.
pub fn decrypt(encrypted: &[u8], key: &[u8; 32]) -> (plaintext: Result<Vec<u8>, CryptoError>)
    ensures
        match plaintext {
            Ok(p) => opened_blob(key@, encrypted@) == Ok::<Seq<u8>, CryptoError>(p@),
            Err(e) => e == CryptoError::AuthenticationFailure && opened_blob(key@, encrypted@)
                == Err::<Seq<u8>, CryptoError>(CryptoError::AuthenticationFailure),
        },
{
    match split_blob(encrypted) {
        Some((nonce, sealed)) => match open(key, &nonce, sealed) {
            Ok(p) => Ok(p),
            Err(_) => Err(CryptoError::AuthenticationFailure),
        },
        None => Err(CryptoError::AuthenticationFailure),
    }
}

} // verus!
