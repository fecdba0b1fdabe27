//! The cryptographic primitives, each behind one declared call, and what the blob format builds
//! from them: sealed frames, wrapped keys, derived keys, the index stream and the index MAC.

use argon2::{Algorithm, Argon2, Params, Version};
use blake2::digest::consts::U32;
use blake2::digest::{KeyInit as MacKeyInit, Mac, Update, VariableOutput};
use blake2::{Blake2bMac, Blake2bVar};
use chacha20::cipher::{KeyIvInit, StreamCipher, StreamCipherSeek};
use chacha20::XChaCha20;
use chacha20poly1305::aead::rand_core::RngCore;
use chacha20poly1305::aead::{Aead, AeadCore, KeyInit, OsRng, Payload};
use chacha20poly1305::{Key, XChaCha20Poly1305, XNonce};
use hkdf::Hkdf;
use sha2::Sha256;
use vstd::bytes::{lemma_auto_spec_u64_to_from_le_bytes, spec_u64_to_le_bytes, u64_to_le_bytes};
use vstd::prelude::*;
use vstd::slice::slice_subrange;
use vstd::string::StringSliceAdditionalSpecFns;

use crate::bytes::{append_bytes, copy_array, copy_bytes};
use crate::error::VaultError;
use crate::types::{BlobId, FileId, VaultId, VaultMasterKey};

verus! {

/// Bytes of the nonce in front of a sealed frame.
pub const NONCE_LEN: usize = 24;

/// Bytes of the authentication tag at the end of a sealed frame.
pub const TAG_LEN: usize = 16;

/// Bytes of a key that is sealed under the master key: 32 for the key, 16 for the tag.
pub const WRAPPED_KEY_LEN: usize = 48;

/// The longest message that the cipher's 32-bit block counter lets it seal: one block goes to the
/// authentication key, and the last counter value is never reached.
pub const AEAD_MESSAGE_LIMIT: u64 = 274_877_906_816;

/// Bytes of keystream that one key and nonce yield.
pub const STREAM_LIMIT: u64 = 274_877_906_880;

/// The longest password that Argon2 takes.
pub const PASSWORD_LIMIT: u64 = 4_294_967_295;

/// The error of `hkdf`: more output was asked for than the hash can expand to.
#[verifier::external_type_specification]
#[verifier::external_body]
pub struct ExHkdfInvalidLength(hkdf::InvalidLength);

/// The error of the AEAD ciphers, which says nothing but that the call failed.
#[verifier::external_type_specification]
#[verifier::external_body]
pub struct ExAeadError(chacha20poly1305::Error);

/// The error of a keyed hash that was given a key of the wrong length.
#[verifier::external_type_specification]
#[verifier::external_body]
pub struct ExMacInvalidLength(blake2::digest::InvalidLength);

/// The error of `argon2`.
#[verifier::external_type_specification]
#[verifier::external_body]
pub struct ExArgon2Error(argon2::Error);

/// HKDF-SHA256 of the input key material `ikm` under `salt`, expanded for `info` to `len` bytes.
pub uninterp spec fn hkdf_sha256(salt: Seq<u8>, ikm: Seq<u8>, info: Seq<u8>, len: nat) -> Seq<u8>;

/// BLAKE2b-256.
pub uninterp spec fn blake2b256_digest(message: Seq<u8>) -> Seq<u8>;

/// Keyed BLAKE2b-256.
pub uninterp spec fn blake2b256_mac(key: Seq<u8>, message: Seq<u8>) -> Seq<u8>;

/// The XChaCha20-Poly1305 ciphertext, tag at the end.
pub uninterp spec fn xchacha20poly1305_seal(
    key: Seq<u8>,
    nonce: Seq<u8>,
    aad: Seq<u8>,
    message: Seq<u8>,
) -> Seq<u8>;

/// What XChaCha20-Poly1305 makes of a ciphertext: the message, or nothing where the tag does not
/// fit.
pub uninterp spec fn xchacha20poly1305_open(
    key: Seq<u8>,
    nonce: Seq<u8>,
    aad: Seq<u8>,
    ciphertext: Seq<u8>,
) -> Option<Seq<u8>>;

/// The byte at `position` of the XChaCha20 keystream.
pub uninterp spec fn xchacha20_keystream(key: Seq<u8>, nonce: Seq<u8>, position: int) -> u8;

/// Argon2id, version 0x13 with the default parameters, expanded to 32 bytes.
pub uninterp spec fn argon2id(password: Seq<u8>, salt: Seq<u8>) -> Seq<u8>;

/// Calls `hkdf::Hkdf::<Sha256>::new` and its `expand`. The claim: the call fails exactly where
/// more than 255 hash lengths are asked for; else it yields `len` bytes that depend on the four
/// arguments alone.
#[verifier::external_body]
fn hkdf_expand(salt: &[u8], ikm: &[u8], info: &[u8], len: usize) -> (r: Result<
    Vec<u8>,
    hkdf::InvalidLength,
>)
    ensures
        r is Ok <==> len <= 8160,
        r is Ok ==> r->Ok_0@ == hkdf_sha256(salt@, ikm@, info@, len as nat),
        r is Ok ==> r->Ok_0@.len() == len,
{
    let mut out = vec![0u8; len];
    Hkdf::<Sha256>::new(Some(salt), ikm).expand(info, &mut out)?;
    Ok(out)
}

/// Calls `blake2::Blake2bVar` with an output of 32 bytes. The claim: the digest is 32 bytes that
/// depend on the message alone.
#[verifier::external_body]
pub(crate) fn blake2b256(message: &[u8]) -> (r: [u8; 32])
    ensures
        r@ == blake2b256_digest(message@),
{
    let mut out = [0u8; 32];
    let mut hasher = Blake2bVar::new(32).expect("32-byte BLAKE2b output is valid");
    hasher.update(message);
    hasher.finalize_variable(&mut out).expect("the buffer has the length that was asked for");
    out
}

/// Calls `blake2::Blake2bMac` with an output of 32 bytes. The claim: a 32-byte key is accepted,
/// and the code is 32 bytes that depend on the key and the message alone.
#[verifier::external_body]
fn keyed_blake2b256(key: &[u8; 32], message: &[u8]) -> (r: Result<
    [u8; 32],
    blake2::digest::InvalidLength,
>)
    ensures
        r is Ok,
        r->Ok_0@ == blake2b256_mac(key@, message@),
{
    let mut mac = <Blake2bMac<U32> as MacKeyInit>::new_from_slice(key)?;
    Mac::update(&mut mac, message);
    Ok(mac.finalize().into_bytes().into())
}

/// Calls `encrypt` of `chacha20poly1305::XChaCha20Poly1305`. The claim: a message within the
/// limit is sealed; the ciphertext depends on the four arguments alone, is one tag longer than
/// the message, and opens under the same key, nonce and associated data to that message.
#[verifier::external_body]
fn aead_encrypt(key: &[u8; 32], nonce: &[u8; 24], message: &[u8], aad: &[u8]) -> (r: Result<
    Vec<u8>,
    chacha20poly1305::Error,
>)
    requires
        message@.len() <= AEAD_MESSAGE_LIMIT,
    ensures
        r is Ok,
        r->Ok_0@ == xchacha20poly1305_seal(key@, nonce@, aad@, message@),
        r->Ok_0@.len() == message@.len() + TAG_LEN,
        xchacha20poly1305_open(key@, nonce@, aad@, r->Ok_0@) == Some(message@),
{
    let cipher = <XChaCha20Poly1305 as KeyInit>::new(Key::from_slice(key));
    cipher.encrypt(XNonce::from_slice(nonce), Payload { msg: message, aad })
}

/// Calls `decrypt` of `chacha20poly1305::XChaCha20Poly1305`. The claim: whether the ciphertext
/// opens, and to what, depends on the four arguments alone; a message that comes out is one tag
/// shorter than the ciphertext. That a ciphertext which was altered, or is opened under another key
/// or other associated data, does not open is not claimed: a forged tag is improbable, not
/// impossible.
#[verifier::external_body]
fn aead_decrypt(key: &[u8; 32], nonce: &[u8; 24], ciphertext: &[u8], aad: &[u8]) -> (r: Result<
    Vec<u8>,
    chacha20poly1305::Error,
>)
    requires
        ciphertext@.len() <= AEAD_MESSAGE_LIMIT + TAG_LEN,
    ensures
        r is Ok <==> xchacha20poly1305_open(key@, nonce@, aad@, ciphertext@) is Some,
        r is Ok ==> Some(r->Ok_0@) == xchacha20poly1305_open(key@, nonce@, aad@, ciphertext@),
        r is Ok ==> r->Ok_0@.len() + TAG_LEN == ciphertext@.len(),
{
    let cipher = <XChaCha20Poly1305 as KeyInit>::new(Key::from_slice(key));
    cipher.decrypt(XNonce::from_slice(nonce), Payload { msg: ciphertext, aad })
}

/// Calls `seek` and `apply_keystream` of `chacha20::XChaCha20`. The claim: byte `i` of the data
/// is combined by exclusive or with the keystream byte at `offset + i`.
#[verifier::external_body]
fn apply_xchacha20(key: &[u8; 32], nonce: &[u8; 24], offset: u64, data: Vec<u8>) -> (r: Vec<u8>)
    requires
        offset + data@.len() <= STREAM_LIMIT,
    ensures
        r@.len() == data@.len(),
        forall|i: int|
            0 <= i < data@.len() ==> #[trigger] r@[i] == data@[i] ^ xchacha20_keystream(
                key@,
                nonce@,
                offset + i,
            ),
{
    let mut data = data;
    let mut cipher = XChaCha20::new(key.into(), nonce.into());
    cipher.seek(offset);
    cipher.apply_keystream(&mut data);
    data
}

/// Calls `generate_nonce` of `chacha20poly1305::XChaCha20Poly1305` on the operating system's
/// generator. Nothing is claimed of the bytes.
#[verifier::external_body]
fn generate_nonce() -> (r: [u8; 24]) {
    <XChaCha20Poly1305 as AeadCore>::generate_nonce(&mut OsRng).into()
}

/// Calls `fill_bytes` of the operating system's generator `OsRng`. The claim: it fills exactly the
/// buffer that it is given; nothing is claimed of the bytes.
#[verifier::external_body]
pub(crate) fn random_bytes(len: usize) -> (r: Vec<u8>)
    ensures
        r@.len() == len,
{
    let mut bytes = vec![0u8; len];
    OsRng.fill_bytes(&mut bytes);
    bytes
}

/// Calls `rand::random` for an array of bytes. Nothing is claimed of them.
#[verifier::external_body]
pub(crate) fn random_array<const N: usize>() -> (r: [u8; N]) {
    rand::random()
}

/// Calls `hash_password_into` of `argon2::Argon2` (Argon2id, version 0x13, default parameters)
/// with an output of 32 bytes. The claim: with a salt of 32 bytes it fails exactly where the
/// password is longer than the algorithm takes, and else depends on password and salt alone.
#[verifier::external_body]
fn hash_password(password: &[u8], salt: &[u8; 32]) -> (r: Result<[u8; 32], argon2::Error>)
    ensures
        r is Ok <==> password@.len() <= PASSWORD_LIMIT,
        r is Ok ==> r->Ok_0@ == argon2id(password@, salt@),
{
    let mut key = [0u8; 32];
    Argon2::new(Algorithm::Argon2id, Version::V0x13, Params::default()).hash_password_into(
        password,
        salt,
        &mut key,
    )?;
    Ok(key)
}

/// `data` with every byte combined by exclusive or with the keystream from `offset` on.
pub open spec fn stream_xor(key: Seq<u8>, nonce: Seq<u8>, offset: int, data: Seq<u8>) -> Seq<u8> {
    Seq::new(data.len(), |i: int| data[i] ^ xchacha20_keystream(key, nonce, offset + i))
}

/// The frame that sealing `message` under a given nonce gives: the nonce, then the ciphertext.
pub open spec fn sealed_frame(
    key: Seq<u8>,
    nonce: Seq<u8>,
    message: Seq<u8>,
    aad: Seq<u8>,
) -> Seq<u8> {
    nonce + xchacha20poly1305_seal(key, nonce, aad, message)
}

/// What a frame opens to: nothing where it is shorter than a nonce and a tag, or longer than any
/// frame that can be sealed.
pub open spec fn open_frame(key: Seq<u8>, frame: Seq<u8>, aad: Seq<u8>) -> Option<Seq<u8>> {
    if frame.len() < NONCE_LEN + TAG_LEN || frame.len() > AEAD_MESSAGE_LIMIT + NONCE_LEN + TAG_LEN {
        None
    } else {
        xchacha20poly1305_open(key, frame.take(NONCE_LEN as int), aad, frame.skip(NONCE_LEN as int))
    }
}

/// Seals `plaintext` under a fresh random nonce.
pub fn encrypt_frame(key: &[u8; 32], plaintext: &[u8], aad: &[u8]) -> (r: Result<
    Vec<u8>,
    VaultError,
>)
    ensures
        plaintext@.len() > AEAD_MESSAGE_LIMIT ==> r == Err::<Vec<u8>, VaultError>(
            VaultError::AeadEncryptFailed,
        ),
        plaintext@.len() <= AEAD_MESSAGE_LIMIT ==> {
            &&& r is Ok
            &&& r->Ok_0@.len() == plaintext@.len() + NONCE_LEN + TAG_LEN
            &&& open_frame(key@, r->Ok_0@, aad@) == Some(plaintext@)
            &&& r->Ok_0@ == sealed_frame(key@, r->Ok_0@.take(NONCE_LEN as int), plaintext@, aad@)
        },
{
    let nonce = generate_nonce();
    encrypt_frame_with_nonce(key, &nonce, plaintext, aad)
}

/// Seals `plaintext` under the given nonce.
pub fn encrypt_frame_with_nonce(
    key: &[u8; 32],
    nonce: &[u8; 24],
    plaintext: &[u8],
    aad: &[u8],
) -> (r: Result<Vec<u8>, VaultError>)
    ensures
        plaintext@.len() > AEAD_MESSAGE_LIMIT ==> r == Err::<Vec<u8>, VaultError>(
            VaultError::AeadEncryptFailed,
        ),
        plaintext@.len() <= AEAD_MESSAGE_LIMIT ==> {
            &&& r is Ok
            &&& r->Ok_0@ == sealed_frame(key@, nonce@, plaintext@, aad@)
            &&& r->Ok_0@.take(NONCE_LEN as int) == nonce@
            &&& r->Ok_0@.len() == plaintext@.len() + NONCE_LEN + TAG_LEN
            &&& open_frame(key@, r->Ok_0@, aad@) == Some(plaintext@)
        },
{
    if plaintext.len() as u64 > AEAD_MESSAGE_LIMIT {
        return Err(VaultError::AeadEncryptFailed);
    }
    match aead_encrypt(key, nonce, plaintext, aad) {
        Ok(ciphertext) => {
            let mut frame: Vec<u8> = copy_bytes(nonce);
            append_bytes(&mut frame, &ciphertext);
            assert(frame@.take(NONCE_LEN as int) =~= nonce@);
            assert(frame@.skip(NONCE_LEN as int) =~= ciphertext@);
            Ok(frame)
        },
        Err(_) => Err(VaultError::AeadEncryptFailed),
    }
}

/// Opens a frame. A frame that is too short to hold a nonce and a tag does not open; whether any
/// other one does is the cipher's to say, of which no more is known than that what was sealed opens.
pub fn decrypt_frame(key: &[u8; 32], frame: &[u8], aad: &[u8]) -> (r: Result<Vec<u8>, VaultError>)
    ensures
        open_frame(key@, frame@, aad@) is None ==> r == Err::<Vec<u8>, VaultError>(
            VaultError::AeadDecryptFailed,
        ),
        open_frame(key@, frame@, aad@) is Some ==> r is Ok && Some(r->Ok_0@) == open_frame(
            key@,
            frame@,
            aad@,
        ),
{
    if frame.len() < NONCE_LEN + TAG_LEN {
        return Err(VaultError::AeadDecryptFailed);
    }
    let nonce: [u8; 24] = copy_array(frame);
    let ciphertext = slice_subrange(frame, NONCE_LEN, frame.len());
    if ciphertext.len() as u64 > AEAD_MESSAGE_LIMIT + TAG_LEN as u64 {
        return Err(VaultError::AeadDecryptFailed);
    }
    assert(frame@.skip(NONCE_LEN as int) =~= ciphertext@);
    match aead_decrypt(key, &nonce, ciphertext, aad) {
        Ok(plaintext) => Ok(plaintext),
        Err(_) => Err(VaultError::AeadDecryptFailed),
    }
}

/// What a key of a blob is sealed for: the associated data and the nonce both bind it.
pub open spec fn wrap_aad(vault_id: Seq<u8>, purpose: Seq<u8>) -> Seq<u8> {
    vault_id + purpose
}

/// The nonce that wraps the key of the given purpose; it is derived, not stored.
pub open spec fn wrap_nonce(master_key: Seq<u8>, vault_id: Seq<u8>, purpose: Seq<u8>) -> Seq<u8> {
    hkdf_sha256(vault_id, master_key, "stable-wrap/".spec_bytes() + purpose, 24)
}

/// `key`, sealed under the master key.
pub open spec fn wrapped_key(
    master_key: Seq<u8>,
    vault_id: Seq<u8>,
    purpose: Seq<u8>,
    key: Seq<u8>,
) -> Seq<u8> {
    xchacha20poly1305_seal(
        master_key,
        wrap_nonce(master_key, vault_id, purpose),
        wrap_aad(vault_id, purpose),
        key,
    )
}

/// What a wrapped key opens to, where it opens to 32 bytes.
pub open spec fn unwrapped_key(
    master_key: Seq<u8>,
    vault_id: Seq<u8>,
    purpose: Seq<u8>,
    wrapped: Seq<u8>,
) -> Option<Seq<u8>> {
    match xchacha20poly1305_open(
        master_key,
        wrap_nonce(master_key, vault_id, purpose),
        wrap_aad(vault_id, purpose),
        wrapped,
    ) {
        Some(key) => if key.len() == 32 {
            Some(key)
        } else {
            None
        },
        None => None,
    }
}

/// The associated data of a wrapped key: the vault and the purpose.
pub fn stable_wrap_aad(vault_id: &VaultId, purpose: &str) -> (r: Vec<u8>)
    ensures
        r@ == wrap_aad(vault_id@, purpose.spec_bytes()),
{
    let mut aad: Vec<u8> = copy_bytes(&vault_id.0);
    append_bytes(&mut aad, purpose.as_bytes());
    aad
}

/// The nonce of a wrapped key, derived from the master key for the purpose.
pub fn stable_wrap_nonce(master_key: &[u8; 32], vault_id: &VaultId, purpose: &str) -> (r: Result<
    [u8; 24],
    VaultError,
>)
    ensures
        r is Ok,
        r->Ok_0@ == wrap_nonce(master_key@, vault_id@, purpose.spec_bytes()),
{
    let mut info: Vec<u8> = copy_bytes("stable-wrap/".as_bytes());
    append_bytes(&mut info, purpose.as_bytes());
    assert(info@ =~= "stable-wrap/".spec_bytes() + purpose.spec_bytes());
    match hkdf_expand(&vault_id.0, master_key, &info, NONCE_LEN) {
        Ok(nonce) => {
            assert(nonce@.take(24) =~= nonce@);
            Ok(copy_array(&nonce))
        },
        Err(_) => Err(VaultError::AeadEncryptFailed),
    }
}

/// Seals a key of a blob under the master key. The wrapped key opens to the same key again.
pub fn wrap_stable_key(
    master_key: &[u8; 32],
    vault_id: &VaultId,
    purpose: &str,
    key: &[u8; 32],
) -> (r: Result<[u8; 48], VaultError>)
    ensures
        r is Ok,
        r->Ok_0@ == wrapped_key(master_key@, vault_id@, purpose.spec_bytes(), key@),
        unwrapped_key(master_key@, vault_id@, purpose.spec_bytes(), r->Ok_0@) == Some(key@),
{
    let nonce = match stable_wrap_nonce(master_key, vault_id, purpose) {
        Ok(nonce) => nonce,
        Err(error) => return Err(error),
    };
    let aad = stable_wrap_aad(vault_id, purpose);
    match aead_encrypt(master_key, &nonce, key, &aad) {
        Ok(wrapped) => {
            assert(wrapped@.take(48) =~= wrapped@);
            Ok(copy_array(&wrapped))
        },
        Err(_) => Err(VaultError::AeadEncryptFailed),
    }
}

/// Opens a wrapped key.
pub fn unwrap_stable_key(
    master_key: &[u8; 32],
    vault_id: &VaultId,
    purpose: &str,
    wrapped: &[u8; 48],
) -> (r: Result<[u8; 32], VaultError>)
    ensures
        match unwrapped_key(master_key@, vault_id@, purpose.spec_bytes(), wrapped@) {
            None => r == Err::<[u8; 32], VaultError>(VaultError::AeadDecryptFailed),
            Some(key) => r is Ok && r->Ok_0@ == key,
        },
{
    let nonce = match stable_wrap_nonce(master_key, vault_id, purpose) {
        Ok(nonce) => nonce,
        Err(error) => return Err(error),
    };
    let aad = stable_wrap_aad(vault_id, purpose);
    match aead_decrypt(master_key, &nonce, wrapped, &aad) {
        Ok(key) => {
            if key.len() != 32 {
                return Err(VaultError::AeadDecryptFailed);
            }
            assert(key@.take(32) =~= key@);
            Ok(copy_array(&key))
        },
        Err(_) => Err(VaultError::AeadDecryptFailed),
    }
}

/// The key of every chunk of one file.
pub open spec fn file_key_of(k_data: Seq<u8>, vault_id: Seq<u8>, file_id: Seq<u8>) -> Seq<u8> {
    hkdf_sha256(vault_id, k_data, "file/".spec_bytes() + file_id, 32)
}

/// The key of the MAC over a blob's index.
pub open spec fn mac_key_of(k_index: Seq<u8>, blob_id: Seq<u8>) -> Seq<u8> {
    hkdf_sha256(blob_id, k_index, "index-mac".spec_bytes(), 32)
}

/// Derives the key of every chunk of one file.
pub fn derive_file_key(k_data: &[u8; 32], vault_id: &VaultId, file_id: &FileId) -> (r: Result<
    [u8; 32],
    VaultError,
>)
    ensures
        r is Ok,
        r->Ok_0@ == file_key_of(k_data@, vault_id@, file_id@),
{
    let mut info: Vec<u8> = copy_bytes("file/".as_bytes());
    append_bytes(&mut info, &file_id.0);
    assert(info@ =~= "file/".spec_bytes() + file_id@);
    match hkdf_expand(&vault_id.0, k_data, &info, 32) {
        Ok(key) => {
            assert(key@.take(32) =~= key@);
            Ok(copy_array(&key))
        },
        Err(_) => Err(VaultError::InvalidMasterKey),
    }
}

/// Derives the key of the MAC over a blob's index.
pub fn derive_index_mac_key(k_index: &[u8; 32], blob_id: &BlobId) -> (r: [u8; 32])
    ensures
        r@ == mac_key_of(k_index@, blob_id@),
{
    match hkdf_expand(&blob_id.0, k_index, "index-mac".as_bytes(), 32) {
        Ok(key) => {
            assert(key@.take(32) =~= key@);
            copy_array(&key)
        },
        Err(_) => {
            assert(false);
            [0u8; 32]
        },
    }
}

/// The message under the MAC of an index. It names the vault, the blob, the generation that
/// authorises the index and the length of the index before the index itself.
pub open spec fn index_mac_message(
    vault_id: Seq<u8>,
    blob_id: Seq<u8>,
    generation: u64,
    index_length: u64,
    ciphertext: Seq<u8>,
) -> Seq<u8> {
    vault_id + blob_id + spec_u64_to_le_bytes(generation) + spec_u64_to_le_bytes(index_length)
        + ciphertext
}

/// The MAC of an index.
pub open spec fn index_mac_of(
    k_mac: Seq<u8>,
    vault_id: Seq<u8>,
    blob_id: Seq<u8>,
    generation: u64,
    index_length: u64,
    ciphertext: Seq<u8>,
) -> Seq<u8> {
    blake2b256_mac(
        k_mac,
        index_mac_message(vault_id, blob_id, generation, index_length, ciphertext),
    )
}

/// Computes the MAC of an index.
pub fn compute_index_mac(
    k_mac: &[u8; 32],
    vault_id: &VaultId,
    blob_id: &BlobId,
    generation: u64,
    index_length: u64,
    ciphertext: &[u8],
) -> (r: Result<[u8; 32], VaultError>)
    ensures
        r is Ok,
        r->Ok_0@ == index_mac_of(
            k_mac@,
            vault_id@,
            blob_id@,
            generation,
            index_length,
            ciphertext@,
        ),
{
    let mut message: Vec<u8> = copy_bytes(&vault_id.0);
    append_bytes(&mut message, &blob_id.0);
    append_bytes(&mut message, &u64_to_le_bytes(generation));
    append_bytes(&mut message, &u64_to_le_bytes(index_length));
    append_bytes(&mut message, ciphertext);
    match keyed_blake2b256(k_mac, &message) {
        Ok(mac) => Ok(mac),
        Err(_) => Err(VaultError::AeadEncryptFailed),
    }
}

/// Compares two MACs without stopping at the first difference. How long that takes is not stated.
pub fn constant_time_eq32(left: &[u8; 32], right: &[u8; 32]) -> (r: bool)
    ensures
        r == (left@ == right@),
{
    let mut diff: u8 = 0;
    let mut i: usize = 0;
    while i < 32
        invariant
            i <= 32,
            diff == 0 <==> forall|j: int| 0 <= j < i ==> left@[j] == right@[j],
        decreases 32 - i,
    {
        let (a, b, d) = (left[i], right[i], diff);
        assert((d | (a ^ b)) == 0 <==> d == 0 && a == b) by (bit_vector);
        diff = diff | (left[i] ^ right[i]);
        i += 1;
    }
    if diff == 0 {
        assert(left@ =~= right@);
    }
    diff == 0
}

/// Encrypts index bytes that start at `stream_offset` of the index.
pub fn index_stream_xor(
    k_index: &[u8; 32],
    index_nonce: &[u8; 24],
    stream_offset: u64,
    plaintext: &[u8],
) -> (r: Result<Vec<u8>, VaultError>)
    ensures
        stream_offset + plaintext@.len() > STREAM_LIMIT ==> r == Err::<Vec<u8>, VaultError>(
            VaultError::IntegerOverflow,
        ),
        stream_offset + plaintext@.len() <= STREAM_LIMIT ==> r is Ok && r->Ok_0@ == stream_xor(
            k_index@,
            index_nonce@,
            stream_offset as int,
            plaintext@,
        ),
{
    if stream_offset > STREAM_LIMIT || plaintext.len() as u64 > STREAM_LIMIT - stream_offset {
        return Err(VaultError::IntegerOverflow);
    }
    let out = apply_xchacha20(k_index, index_nonce, stream_offset, copy_bytes(plaintext));
    assert(out@ =~= stream_xor(k_index@, index_nonce@, stream_offset as int, plaintext@));
    Ok(out)
}

/// Decrypts a whole index in place.
pub fn index_stream_decrypt_in_place(
    k_index: &[u8; 32],
    index_nonce: &[u8; 24],
    ciphertext: &mut Vec<u8>,
) -> (r: Result<(), VaultError>)
    ensures
        old(ciphertext)@.len() > STREAM_LIMIT ==> r == Err::<(), VaultError>(
            VaultError::IntegerOverflow,
        ) && final(ciphertext)@ == old(ciphertext)@,
        old(ciphertext)@.len() <= STREAM_LIMIT ==> r == Ok::<(), VaultError>(())
            && final(ciphertext)@ == stream_xor(k_index@, index_nonce@, 0, old(ciphertext)@),
{
    match index_stream_xor(k_index, index_nonce, 0, ciphertext) {
        Ok(plaintext) => {
            *ciphertext = plaintext;
            Ok(())
        },
        Err(error) => Err(error),
    }
}

/// The master key that a password and a salt stand for.
pub fn derive_master_key(password: &str, salt: &[u8; 32]) -> (r: Result<VaultMasterKey, VaultError>)
    ensures
        password.spec_bytes().len() > PASSWORD_LIMIT ==> r == Err::<VaultMasterKey, VaultError>(
            VaultError::InvalidMasterKey,
        ),
        password.spec_bytes().len() <= PASSWORD_LIMIT ==> r is Ok && r->Ok_0@ == argon2id(
            password.spec_bytes(),
            salt@,
        ),
{
    match hash_password(password.as_bytes(), salt) {
        Ok(key) => Ok(VaultMasterKey(key)),
        Err(_) => Err(VaultError::InvalidMasterKey),
    }
}

/// Two indexes have the same MAC message only where vault, blob, generation, length and bytes are
/// the same: no prefix of an index passes for the whole.
pub proof fn law_mac_message_binds(
    vault_a: Seq<u8>,
    blob_a: Seq<u8>,
    generation_a: u64,
    length_a: u64,
    a: Seq<u8>,
    vault_b: Seq<u8>,
    blob_b: Seq<u8>,
    generation_b: u64,
    length_b: u64,
    b: Seq<u8>,
)
    requires
        vault_a.len() == 16,
        vault_b.len() == 16,
        blob_a.len() == 16,
        blob_b.len() == 16,
        index_mac_message(vault_a, blob_a, generation_a, length_a, a) == index_mac_message(
            vault_b,
            blob_b,
            generation_b,
            length_b,
            b,
        ),
    ensures
        vault_a == vault_b,
        blob_a == blob_b,
        generation_a == generation_b,
        length_a == length_b,
        a == b,
{
    lemma_auto_spec_u64_to_from_le_bytes();
    let left = index_mac_message(vault_a, blob_a, generation_a, length_a, a);
    let right = index_mac_message(vault_b, blob_b, generation_b, length_b, b);
    assert(left.subrange(0, 16) =~= vault_a && right.subrange(0, 16) =~= vault_b);
    assert(left.subrange(16, 32) =~= blob_a && right.subrange(16, 32) =~= blob_b);
    assert(left.subrange(32, 40) =~= spec_u64_to_le_bytes(generation_a));
    assert(right.subrange(32, 40) =~= spec_u64_to_le_bytes(generation_b));
    assert(left.subrange(40, 48) =~= spec_u64_to_le_bytes(length_a));
    assert(right.subrange(40, 48) =~= spec_u64_to_le_bytes(length_b));
    assert(left.skip(48) =~= a && right.skip(48) =~= b);
}

/// Decrypting what was encrypted at the same place of the index stream gives it back.
pub proof fn law_stream_is_its_own_inverse(
    key: Seq<u8>,
    nonce: Seq<u8>,
    offset: int,
    data: Seq<u8>,
)
    ensures
        stream_xor(key, nonce, offset, stream_xor(key, nonce, offset, data)) == data,
{
    assert forall|i: int| 0 <= i < data.len() implies #[trigger] stream_xor(
        key,
        nonce,
        offset,
        stream_xor(key, nonce, offset, data),
    )[i] == data[i] by {
        let d = data[i];
        let k = xchacha20_keystream(key, nonce, offset + i);
        assert((d ^ k) ^ k == d) by (bit_vector);
    }
    assert(stream_xor(key, nonce, offset, stream_xor(key, nonce, offset, data)) =~= data);
}

/// Appending to the index leaves the ciphertext that stands there as it is: the stream goes on
/// at the old length.
pub proof fn law_stream_extends(
    key: Seq<u8>,
    nonce: Seq<u8>,
    offset: int,
    front: Seq<u8>,
    back: Seq<u8>,
)
    ensures
        stream_xor(key, nonce, offset, front + back) == stream_xor(key, nonce, offset, front)
            + stream_xor(key, nonce, offset + front.len(), back),
{
    let joined = front + back;
    let whole = stream_xor(key, nonce, offset, joined);
    let parts = stream_xor(key, nonce, offset, front) + stream_xor(
        key,
        nonce,
        offset + front.len(),
        back,
    );
    assert forall|i: int| 0 <= i < joined.len() implies whole[i] == parts[i] by {
        if i >= front.len() {
            assert(offset + front.len() + (i - front.len()) == offset + i);
        }
    }
    assert(whole =~= parts);
}

} // verus!
