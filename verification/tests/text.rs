//! What is said and read in words.

use vaultblob::parse::{
    parse_byte_size, parse_byte_size_usize, parse_master_key, trim, KeyError, SizeError,
};
use vaultblob::text::{
    append_decimal, append_hex, blob_file_name, count_hex_digits, format_blob_id, format_file_id,
    format_locator, format_uuid, format_uuid_hex, format_vault_error, is_blob_file_name,
    parse_file_id,
};
use vaultblob::{BlobId, BlobLayoutStats, FileId, VaultError};

const ID: [u8; 16] = [
    0x01, 0x23, 0x45, 0x67, 0x89, 0xab, 0xcd, 0xef, 0xfe, 0xdc, 0xba, 0x98, 0x76, 0x54, 0x32, 0x10,
];

#[test]
fn numbers_are_written_in_decimal() {
    let mut out = String::from("n=");
    append_decimal(&mut out, 0);
    out.push(' ');
    append_decimal(&mut out, 1234567890);
    out.push(' ');
    append_decimal(&mut out, u64::MAX);
    assert_eq!(out, "n=0 1234567890 18446744073709551615");
}

#[test]
fn bytes_are_written_in_hex() {
    let mut out = String::new();
    append_hex(&mut out, &[0x00, 0x9f, 0xa0, 0xff]);
    assert_eq!(out, "009fa0ff");
}

#[test]
fn identities_have_their_usual_form() {
    assert_eq!(format_uuid(&ID), "01234567-89ab-cdef-fedc-ba9876543210");
    assert_eq!(format_file_id(FileId(ID)), "01234567-89ab-cdef-fedc-ba9876543210");
    assert_eq!(format_blob_id(BlobId(ID)), "01234567\u{2026}");
    let hex = format_uuid_hex(&ID);
    assert_eq!(hex[..36], *b"01234567-89ab-cdef-fedc-ba9876543210");
    assert_eq!(hex[36], 0);
}

#[test]
fn file_ids_are_read_back() {
    assert_eq!(parse_file_id(&format_file_id(FileId(ID))).unwrap(), FileId(ID));
    assert_eq!(parse_file_id("0123456789ABCDEFfedcba9876543210").unwrap(), FileId(ID));
    assert_eq!(
        parse_file_id(" {01234567 89abcdef fedcba98 76543210} ").unwrap(),
        FileId(ID)
    );
    assert!(matches!(
        parse_file_id("0123456789abcdeffedcba987654321"),
        Err(VaultError::FileNotFound)
    ));
    assert!(matches!(
        parse_file_id("0123456789abcdeffedcba98765432100"),
        Err(VaultError::FileNotFound)
    ));
    assert!(matches!(parse_file_id(""), Err(VaultError::FileNotFound)));
    assert_eq!(count_hex_digits("xyz-12\u{e9}-aF"), 4);
}

#[test]
fn locators_are_described() {
    assert_eq!(
        format_locator(1, 12, 4096, 73),
        "slot=1 generation=12 index_offset=4096 index_length=73"
    );
}

#[test]
fn errors_have_names() {
    let io = VaultError::from(std::io::Error::from(std::io::ErrorKind::NotFound));
    assert_eq!(format_vault_error(&io), "Io");
    assert_eq!(format_vault_error(&VaultError::AeadDecryptFailed), "AeadDecryptFailed");
    assert_eq!(format_vault_error(&VaultError::AeadEncryptFailed), "AeadEncryptFailed");
    assert_eq!(format_vault_error(&VaultError::IndexChainBroken), "IndexChainBroken");
    assert_eq!(format_vault_error(&VaultError::TailHashMismatch), "TailHashMismatch");
    assert_eq!(format_vault_error(&VaultError::IndexMacMismatch), "IndexMacMismatch");
    assert_eq!(format_vault_error(&VaultError::NoValidLocator), "NoValidLocator");
    assert_eq!(format_vault_error(&VaultError::InvalidMasterKey), "InvalidMasterKey");
    assert_eq!(format_vault_error(&VaultError::InvalidConfig), "InvalidConfig");
    assert_eq!(format_vault_error(&VaultError::InvalidChunkSize), "InvalidChunkSize");
    assert_eq!(format_vault_error(&VaultError::FileNotFound), "FileNotFound");
    assert_eq!(format_vault_error(&VaultError::IncompleteFile), "IncompleteFile");
    assert_eq!(format_vault_error(&VaultError::FileAlreadyExists), "FileAlreadyExists");
    assert_eq!(format_vault_error(&VaultError::FileHashMismatch), "FileHashMismatch");
    assert_eq!(format_vault_error(&VaultError::BlobNotFound), "BlobNotFound");
    assert_eq!(format_vault_error(&VaultError::NoWritableBlob), "NoWritableBlob");
    assert_eq!(
        format_vault_error(&VaultError::FileExceedsBlobCapacity),
        "FileExceedsBlobCapacity"
    );
    assert_eq!(format_vault_error(&VaultError::IntegerOverflow), "IntegerOverflow");
    assert_eq!(format_vault_error(&VaultError::UnsupportedPlatform), "UnsupportedPlatform");
    assert_eq!(format_vault_error(&VaultError::RetryBudgetExceeded), "RetryBudgetExceeded");
}

#[test]
fn blob_files_are_numbered() {
    assert_eq!(blob_file_name(0), "blob-0000.blob");
    assert_eq!(blob_file_name(7), "blob-0007.blob");
    assert_eq!(blob_file_name(42), "blob-0042.blob");
    assert_eq!(blob_file_name(999), "blob-0999.blob");
    assert_eq!(blob_file_name(12345), "blob-12345.blob");
    assert!(is_blob_file_name(&blob_file_name(3)));
    assert!(is_blob_file_name("blob-.blob"));
    assert!(!is_blob_file_name("blob"));
    assert!(!is_blob_file_name("blob-0001.blo"));
    assert!(!is_blob_file_name("vault.meta"));
    assert!(!is_blob_file_name("Blob-0001.blob"));
}

#[test]
fn master_keys_are_sixty_four_digits() {
    let text = "00112233445566778899aabbccddeeffFFEEDDCCBBAA99887766554433221100";
    let key = parse_master_key(text).unwrap();
    assert_eq!(key.0[..4], [0x00, 0x11, 0x22, 0x33]);
    assert_eq!(key.0[15..17], [0xff, 0xff]);
    assert_eq!(key.0[31], 0x00);
    assert_eq!(parse_master_key(&format!("  {text}\n")).unwrap().0, key.0);
    assert!(matches!(parse_master_key("0011"), Err(KeyError::Length)));
    assert!(matches!(parse_master_key(&"g".repeat(64)), Err(KeyError::Digits)));
}

#[test]
fn white_space_is_cut_off_at_both_ends() {
    assert_eq!(trim(" \t\u{a0}a b\u{2003}\n"), "a b");
    assert_eq!(trim(""), "");
    assert_eq!(trim(" \n "), "");
}

#[test]
fn byte_sizes_have_units() {
    assert_eq!(parse_byte_size("4096").unwrap(), 4096);
    assert_eq!(parse_byte_size("12b").unwrap(), 12);
    assert_eq!(parse_byte_size("512kb").unwrap(), 512 * 1024);
    assert_eq!(parse_byte_size("3k").unwrap(), 3 * 1024);
    assert_eq!(parse_byte_size(" 4 MB ").unwrap(), 4 * 1024 * 1024);
    assert_eq!(parse_byte_size("1gb").unwrap(), 1024 * 1024 * 1024);
    assert_eq!(parse_byte_size("1_000_000").unwrap(), 1_000_000);
    assert_eq!(parse_byte_size("2 TiB").unwrap(), 2 << 40);
    assert_eq!(parse_byte_size("18446744073709551615").unwrap(), u64::MAX);
    assert_eq!(parse_byte_size_usize("4mb").unwrap(), 4 * 1024 * 1024);
}

#[test]
fn byte_sizes_that_make_no_sense_are_refused() {
    assert!(matches!(parse_byte_size("  "), Err(SizeError::Empty)));
    assert!(matches!(parse_byte_size("mb"), Err(SizeError::NoNumber)));
    assert!(matches!(parse_byte_size("-1"), Err(SizeError::NoNumber)));
    let unknown = parse_byte_size("4xb");
    assert!(matches!(&unknown, Err(SizeError::UnknownSuffix(suffix)) if suffix == "xb"));
    let large = parse_byte_size("99999999999999999999");
    assert!(matches!(&large, Err(SizeError::InvalidNumber(_))));
    let product = parse_byte_size("18446744073709551615kb");
    assert!(matches!(&product, Err(SizeError::Overflow(_))));
}

#[test]
fn a_layout_is_reported_line_by_line() {
    let stats = BlobLayoutStats {
        file_size: 5000,
        front_matter_bytes: 4096,
        body_bytes: 904,
        locator_generation: 3,
        chunk_count: 2,
        file_complete_count: 1,
        chunk_plaintext_bytes: 20,
        chunk_frame_bytes: 100,
        chunk_frame_overhead_bytes: 80,
        gap_before_first_chunk_bytes: 1,
        inter_chunk_gap_bytes: 2,
        data_tail: 4199,
        leading_gap_bytes: 10,
        index_offset: 4209,
        index_length: 146,
        index_ciphertext_bytes: 146,
        index_entry_plaintext_bytes: 147,
        trailing_gap_bytes: 645,
        body_unclassified_bytes: 4,
    };
    assert_eq!(
        stats.report(),
        "file_size:              5000\n\
         front_matter:           4096\n\
         body:                   904\n\
         locator:                generation=3\n\
         chunks:                 count=2 plaintext=20 frames=100 (overhead=80)\n\
         gaps (data region):     before_first_chunk=1 inter_chunk=2 leading_before_index=10\n\
         data_tail:              4199\n\
         index:                  offset=4209 length=146 (ciphertext=entries_plaintext=147)\n\
         trailing_gap:           645\n\
         body_unclassified:      4 (stale ciphertext / relocation slack)\n"
    );
    assert_eq!(BlobLayoutStats::default().file_size, 0);
}
