//! The cryptographic constructions against the primitives that they are made of.

use blake2::digest::consts::U32;
use blake2::digest::{KeyInit, Mac};
use blake2::Blake2bMac;
use chacha20::cipher::{KeyIvInit, StreamCipher};
use chacha20poly1305::aead::{Aead, Payload};
use chacha20poly1305::XChaCha20Poly1305;
use vaultblob::crypto::{
    compute_index_mac, constant_time_eq32, decrypt_frame, derive_file_key, derive_index_mac_key,
    derive_master_key, encrypt_frame, encrypt_frame_with_nonce, index_stream_decrypt_in_place,
    index_stream_xor, stable_wrap_aad, stable_wrap_nonce, unwrap_stable_key, wrap_stable_key,
};
use vaultblob::index::{chunk_aad, volatile_aad};
use vaultblob::{BlobId, ChunkEntry, FileId, VaultError, VaultId};

fn vault() -> VaultId {
    VaultId([3; 16])
}

fn expand(salt: &[u8], key: &[u8], info: &[u8], len: usize) -> Vec<u8> {
    let mut out = vec![0; len];
    hkdf::Hkdf::<sha2::Sha256>::new(Some(salt), key).expand(info, &mut out).unwrap();
    out
}

#[test]
fn a_frame_is_a_nonce_and_what_it_seals() {
    let key = [1; 32];
    let nonce = [2; 24];
    let frame = encrypt_frame_with_nonce(&key, &nonce, b"message", b"aad").unwrap();
    let cipher = <XChaCha20Poly1305 as chacha20poly1305::KeyInit>::new(&key.into());
    let sealed = cipher
        .encrypt(&nonce.into(), Payload { msg: b"message", aad: b"aad" })
        .unwrap();
    assert_eq!(frame[..24], nonce);
    assert_eq!(frame[24..], sealed);
    assert_eq!(frame.len(), 7 + 40);
    assert_eq!(decrypt_frame(&key, &frame, b"aad").unwrap(), b"message");
}

#[test]
fn a_frame_opens_only_as_it_was_sealed() {
    let key = [1; 32];
    let frame = encrypt_frame(&key, b"message", b"aad").unwrap();
    assert_eq!(frame.len(), 47);
    assert_eq!(decrypt_frame(&key, &frame, b"aad").unwrap(), b"message");
    assert!(matches!(
        decrypt_frame(&[0; 32], &frame, b"aad"),
        Err(VaultError::AeadDecryptFailed)
    ));
    assert!(matches!(
        decrypt_frame(&key, &frame, b"other"),
        Err(VaultError::AeadDecryptFailed)
    ));
    assert!(matches!(
        decrypt_frame(&key, &frame[..39], b"aad"),
        Err(VaultError::AeadDecryptFailed)
    ));
    let mut damaged = frame.clone();
    damaged[30] ^= 1;
    assert!(matches!(
        decrypt_frame(&key, &damaged, b"aad"),
        Err(VaultError::AeadDecryptFailed)
    ));
}

#[test]
fn frames_of_one_message_differ() {
    let one = encrypt_frame(&[1; 32], b"message", b"").unwrap();
    let two = encrypt_frame(&[1; 32], b"message", b"").unwrap();
    assert_ne!(one[..24], two[..24]);
    assert_ne!(one[24..], two[24..]);
}

#[test]
fn wrapped_keys_are_bound_to_vault_and_purpose() {
    let master = [9; 32];
    assert_eq!(stable_wrap_aad(&vault(), "K_data"), {
        let mut aad = vec![3; 16];
        aad.extend(b"K_data");
        aad
    });
    let nonce = stable_wrap_nonce(&master, &vault(), "K_data").unwrap();
    assert_eq!(nonce[..], expand(&[3; 16], &master, b"stable-wrap/K_data", 24));
    assert_ne!(nonce, stable_wrap_nonce(&master, &vault(), "K_index").unwrap());
    let wrapped = wrap_stable_key(&master, &vault(), "K_data", &[5; 32]).unwrap();
    let frame = {
        let mut frame = nonce.to_vec();
        frame.extend(wrapped);
        frame
    };
    assert_eq!(
        decrypt_frame(&master, &frame, &stable_wrap_aad(&vault(), "K_data")).unwrap(),
        [5; 32]
    );
    assert!(matches!(
        unwrap_stable_key(&master, &vault(), "K_index", &wrapped),
        Err(VaultError::AeadDecryptFailed)
    ));
    assert!(matches!(
        unwrap_stable_key(&master, &VaultId([4; 16]), "K_data", &wrapped),
        Err(VaultError::AeadDecryptFailed)
    ));
}

#[test]
fn the_index_mac_is_keyed_and_covers_everything() {
    let blob_id = BlobId([4; 16]);
    let key = derive_index_mac_key(&[2; 32], &blob_id);
    assert_eq!(key[..], expand(&[4; 16], &[2; 32], b"index-mac", 32));
    let mac = compute_index_mac(&key, &vault(), &blob_id, 7, 3, b"abc").unwrap();
    let mut message = vec![3; 16];
    message.extend([4; 16]);
    message.extend(7_u64.to_le_bytes());
    message.extend(3_u64.to_le_bytes());
    message.extend(b"abc");
    let mut keyed = <Blake2bMac<U32> as KeyInit>::new_from_slice(&key).unwrap();
    keyed.update(&message);
    assert_eq!(mac[..], keyed.finalize().into_bytes()[..]);
    assert_ne!(
        mac,
        compute_index_mac(&key, &vault(), &blob_id, 8, 3, b"abc").unwrap()
    );
    assert_ne!(key, derive_index_mac_key(&[2; 32], &BlobId([5; 16])));
}

#[test]
fn the_index_stream_starts_anywhere() {
    let key = [1; 32];
    let nonce = [2; 24];
    let mut whole = vec![0; 300];
    chacha20::XChaCha20::new(&key.into(), &nonce.into()).apply_keystream(&mut whole);
    assert_eq!(index_stream_xor(&key, &nonce, 0, &[0; 300]).unwrap(), whole);
    for start in [1, 63, 64, 65, 200] {
        assert_eq!(
            index_stream_xor(&key, &nonce, start as u64, &[0; 50]).unwrap(),
            whole[start..start + 50]
        );
    }
    let mut text = index_stream_xor(&key, &nonce, 0, b"some index").unwrap();
    index_stream_decrypt_in_place(&key, &nonce, &mut text).unwrap();
    assert_eq!(text, b"some index");
    assert!(matches!(
        index_stream_xor(&key, &nonce, u64::MAX, b"x"),
        Err(VaultError::IntegerOverflow)
    ));
    assert!(matches!(
        index_stream_xor(&key, &nonce, 274_877_906_880, b"x"),
        Err(VaultError::IntegerOverflow)
    ));
}

#[test]
fn file_keys_are_expanded_from_the_data_key() {
    let one = derive_file_key(&[1; 32], &vault(), &FileId([1; 16])).unwrap();
    let mut info = b"file/".to_vec();
    info.extend([1; 16]);
    assert_eq!(one[..], expand(&[3; 16], &[1; 32], &info, 32));
    assert_ne!(one, derive_file_key(&[1; 32], &vault(), &FileId([2; 16])).unwrap());
    assert_ne!(one, derive_file_key(&[1; 32], &VaultId([4; 16]), &FileId([1; 16])).unwrap());
    assert_ne!(one, derive_file_key(&[2; 32], &vault(), &FileId([1; 16])).unwrap());
    assert_eq!(one, derive_file_key(&[1; 32], &vault(), &FileId([1; 16])).unwrap());
}

#[test]
fn macs_are_equal_only_where_every_byte_is() {
    let left = [7; 32];
    assert!(constant_time_eq32(&left, &[7; 32]));
    for i in 0..32 {
        let mut right = left;
        right[i] ^= 0x80;
        assert!(!constant_time_eq32(&left, &right));
    }
}

#[test]
fn master_keys_come_from_password_and_salt() {
    let salt = [8; 32];
    let key = derive_master_key("password", &salt).unwrap();
    let mut expected = [0; 32];
    argon2::Argon2::default()
        .hash_password_into(b"password", &salt, &mut expected)
        .unwrap();
    assert_eq!(key.0, expected);
    assert_ne!(derive_master_key("passwore", &salt).unwrap().0, key.0);
    assert_ne!(derive_master_key("password", &[9; 32]).unwrap().0, key.0);
}

#[test]
fn associated_data_names_the_place() {
    assert_eq!(volatile_aad(vault(), BlobId([4; 16]), 1), {
        let mut aad = vec![3; 16];
        aad.extend([4; 16]);
        aad.push(1);
        aad
    });
    let entry = ChunkEntry {
        file_id: FileId([5; 16]),
        sequence_number: 1,
        offset_in_blob: 2,
        plaintext_length: 3,
        content_hash: [6; 32],
    };
    assert_eq!(chunk_aad(vault(), BlobId([4; 16]), &entry), {
        let mut aad = vec![3; 16];
        aad.extend([4; 16]);
        aad.extend([5; 16]);
        aad.extend(1_u64.to_le_bytes());
        aad.extend(2_u64.to_le_bytes());
        aad
    });
}
