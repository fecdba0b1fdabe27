//! The answers of the native interface, and the record of a vault directory.

use vaultblob::directory::{
    after_put, blob_config, draw_meta, load_meta, meta_vault_id, random_file_id, random_vault_id,
    AfterPut, META_LEN,
};
use vaultblob::native::{
    blob_id_answer, chunk_answer, chunk_count_answer, file_id_argument, file_size_answer, is_probe,
    parse_file_id_from_str, put_arguments, put_file_answer, read_file_answer, read_file_probe,
    read_range_answer, read_range_probe, refused_chunk, refused_hex, session_config,
    text_argument, vault_error_code, vault_id_answer, TextArgument, VAULTBLOB_ERR_BLOB_NOT_FOUND,
    VAULTBLOB_ERR_BUF_TOO_SMALL, VAULTBLOB_ERR_FILE_NOT_FOUND, VAULTBLOB_ERR_INVALID_ARG,
    VAULTBLOB_OK,
};
use vaultblob::{BlobId, ChunkEntry, FileId, LocatedChunkEntry, VaultError, VaultId};

const TEXT: &[u8; 36] = b"01010101-0101-0101-0101-010101010101";

#[test]
fn every_error_has_its_code() {
    let io = VaultError::from(std::io::Error::from(std::io::ErrorKind::NotFound));
    let errors = [
        io,
        VaultError::AeadDecryptFailed,
        VaultError::AeadEncryptFailed,
        VaultError::IndexChainBroken,
        VaultError::TailHashMismatch,
        VaultError::IndexMacMismatch,
        VaultError::NoValidLocator,
        VaultError::InvalidMasterKey,
        VaultError::InvalidConfig,
        VaultError::InvalidChunkSize,
        VaultError::FileNotFound,
        VaultError::IncompleteFile,
        VaultError::FileAlreadyExists,
        VaultError::FileHashMismatch,
        VaultError::BlobNotFound,
        VaultError::NoWritableBlob,
        VaultError::FileExceedsBlobCapacity,
        VaultError::IntegerOverflow,
        VaultError::UnsupportedPlatform,
        VaultError::RetryBudgetExceeded,
    ];
    for (i, error) in errors.iter().enumerate() {
        assert_eq!(vault_error_code(error), -1 - i as i32);
    }
}

#[test]
fn identities_are_answered_as_text() {
    let stored = put_file_answer(FileId([1; 16]), &Ok(()));
    assert_eq!(stored.code, VAULTBLOB_OK);
    assert_eq!(stored.value[..36], TEXT[..]);
    assert_eq!(stored.value[36], 0);
    let refused = put_file_answer(FileId([1; 16]), &Err(VaultError::NoWritableBlob));
    assert_eq!(refused.code, -16);
    assert_eq!(refused.value, [0; 37]);
    assert_eq!(vault_id_answer(VaultId([1; 16])).value[..36], TEXT[..]);
    let ids = vec![BlobId([2; 16]), BlobId([1; 16])];
    assert_eq!(blob_id_answer(&ids, 1).value[..36], TEXT[..]);
    assert_eq!(blob_id_answer(&ids, 2).code, VAULTBLOB_ERR_BLOB_NOT_FOUND);
    assert_eq!(refused_hex(VAULTBLOB_ERR_INVALID_ARG).code, VAULTBLOB_ERR_INVALID_ARG);
    assert_eq!(
        parse_file_id_from_str("01010101-0101-0101-0101-010101010101").unwrap(),
        FileId([1; 16])
    );
    assert_eq!(parse_file_id_from_str("01"), Err(VAULTBLOB_ERR_FILE_NOT_FOUND));
}

#[test]
fn sizes_and_reads_are_answered() {
    let size = file_size_answer(&Ok(7));
    assert_eq!((size.code, size.value), (VAULTBLOB_OK, 7));
    let missing = file_size_answer(&Err(VaultError::FileNotFound));
    assert_eq!((missing.code, missing.value), (-11, 0));
    let probe = read_file_probe(&Ok(7));
    assert_eq!((probe.code, probe.value), (VAULTBLOB_ERR_BUF_TOO_SMALL, 7));
    let read = read_file_answer(&Ok(vec![1, 2, 3]), 3);
    assert_eq!((read.code, read.value), (VAULTBLOB_OK, 3));
    let short = read_file_answer(&Ok(vec![1, 2, 3]), 2);
    assert_eq!((short.code, short.value), (VAULTBLOB_ERR_BUF_TOO_SMALL, 3));
    let range = read_range_probe(&Ok(10), 4, 0);
    assert_eq!((range.code, range.value), (VAULTBLOB_ERR_BUF_TOO_SMALL, 6));
    assert_eq!(read_range_probe(&Ok(10), 4, 3).value, 3);
    assert_eq!(read_range_probe(&Ok(10), 4, 30).value, 6);
    assert_eq!(read_range_probe(&Ok(10), 40, 3).value, 0);
    let part = read_range_answer(&Ok(vec![1, 2, 3]), 2);
    assert_eq!((part.code, part.value), (VAULTBLOB_OK, 2));
    assert_eq!(read_range_answer(&Err(VaultError::IncompleteFile), 2).code, -12);
}

#[test]
fn chunks_are_described() {
    let chunks = Ok(vec![LocatedChunkEntry {
        blob_id: BlobId([1; 16]),
        entry: ChunkEntry {
            file_id: FileId([5; 16]),
            sequence_number: 6,
            offset_in_blob: 7,
            plaintext_length: 8,
            content_hash: [9; 32],
        },
    }]);
    let count = chunk_count_answer(&chunks);
    assert_eq!((count.code, count.value), (VAULTBLOB_OK, 1));
    let answer = chunk_answer(&chunks, 0);
    assert_eq!(answer.code, VAULTBLOB_OK);
    assert_eq!(answer.value.blob_id_hex[..36], TEXT[..]);
    assert_eq!(answer.value.sequence_number, 6);
    assert_eq!(answer.value.offset_in_blob, 7);
    assert_eq!(answer.value.plaintext_length, 8);
    assert_eq!(answer.value.content_hash, [9; 32]);
    assert_eq!(chunk_answer(&chunks, 1).code, VAULTBLOB_ERR_FILE_NOT_FOUND);
    let none = chunk_answer(&Err(VaultError::Io(std::io::Error::from(
        std::io::ErrorKind::NotFound,
    ))), 0);
    assert_eq!(none.code, -1);
    assert_eq!(none.value.blob_id_hex, [0; 37]);
    assert_eq!(refused_chunk(-21).value.content_hash, [0; 32]);
    assert_eq!(chunk_count_answer(&Err(VaultError::FileNotFound)).code, -11);
}

#[test]
fn a_record_opens_with_its_password() {
    let meta = draw_meta();
    assert_eq!(meta.len(), META_LEN);
    assert_ne!(meta, draw_meta());
    let (vault_id, master_key) = load_meta(&meta, "password").unwrap();
    assert_eq!(vault_id.0, meta[..16]);
    assert_eq!(meta_vault_id(&meta).unwrap(), vault_id);
    let mut expected = [0; 32];
    argon2::Argon2::default()
        .hash_password_into(b"password", &meta[16..], &mut expected)
        .unwrap();
    assert_eq!(master_key.0, expected);
    assert!(matches!(
        load_meta(&meta[..47], "password"),
        Err(VaultError::IndexChainBroken)
    ));
    assert!(matches!(meta_vault_id(&[0; 49]), Err(VaultError::IndexChainBroken)));
}

#[test]
fn drawn_identities_differ() {
    assert_ne!(random_file_id(), random_file_id());
    assert_ne!(random_vault_id(), random_vault_id());
}

#[test]
fn a_full_vault_asks_for_another_blob() {
    assert!(matches!(after_put(Ok(())), AfterPut::Stored));
    assert!(matches!(after_put(Err(VaultError::NoWritableBlob)), AfterPut::AddBlob));
    assert!(matches!(
        after_put(Err(VaultError::FileAlreadyExists)),
        AfterPut::Refused(VaultError::FileAlreadyExists)
    ));
}

#[test]
fn directories_have_their_own_blob_policy() {
    let config = blob_config(true);
    assert_eq!(config.initial_leading_gap, 131072);
    assert_eq!(config.initial_trailing_gap, 131072);
    assert_eq!(config.relocation_leading_padding, 2097152);
    assert_eq!(config.relocation_trailing_padding, 524288);
    assert_eq!(config.reader_retry_budget, 3);
    assert!(config.diagnostics);
    assert!(!blob_config(false).diagnostics);
}

#[test]
fn arguments_are_looked_at_in_order() {
    let text = "01010101-0101-0101-0101-010101010101";
    assert_eq!(text_argument(TextArgument::Text("dir")), Ok("dir"));
    assert_eq!(text_argument(TextArgument::Missing), Err(VAULTBLOB_ERR_INVALID_ARG));
    assert_eq!(text_argument(TextArgument::Invalid), Err(VAULTBLOB_ERR_INVALID_ARG));
    assert_eq!(file_id_argument(TextArgument::Text(text)), Ok(FileId([1; 16])));
    assert_eq!(
        file_id_argument(TextArgument::Text("no id")),
        Err(VAULTBLOB_ERR_FILE_NOT_FOUND)
    );
    assert_eq!(file_id_argument(TextArgument::Missing), Err(VAULTBLOB_ERR_INVALID_ARG));
    let named = put_arguments(TextArgument::Text(text), false, 3).unwrap();
    assert_eq!(named.file_id, Some(FileId([1; 16])));
    assert!(named.has_contents);
    let empty = put_arguments(TextArgument::Missing, true, 0).unwrap();
    assert_eq!(empty.file_id, None);
    assert!(!empty.has_contents);
    assert_eq!(
        put_arguments(TextArgument::Missing, true, 1).map(|_| ()),
        Err(VAULTBLOB_ERR_INVALID_ARG)
    );
    assert_eq!(
        put_arguments(TextArgument::Text("no id"), true, 1).map(|_| ()),
        Err(VAULTBLOB_ERR_FILE_NOT_FOUND)
    );
    assert!(is_probe(true, 5));
    assert!(is_probe(false, 0));
    assert!(!is_probe(false, 1));
    let config = session_config(7, 8, 0, -1);
    assert_eq!((config.max_chunk_size, config.max_blob_size), (7, 8));
    assert!(!config.split_files_across_blobs);
    assert!(config.stripe_chunks_across_blobs);
    assert!(config.cache_indexes_on_open);
}
