//! Blobs on a file in memory.

use blake2::digest::{Update, VariableOutput};
use vaultblob::blob::{validate_config, STABLE_SLOT_LEN};
use vaultblob::crypto::{
    compute_index_mac, constant_time_eq32, derive_index_mac_key, encrypt_frame,
    index_stream_decrypt_in_place, index_stream_xor, unwrap_stable_key, wrap_stable_key,
    WRAPPED_KEY_LEN,
};
use vaultblob::index::encode_chunk_entry;
use vaultblob::{
    Blob, BlobConfig, BlobId, BlobIndex, BlobLayoutStats, ChunkEntry, FileId, NewChunk,
    NewFileComplete, Reply, Request, Step, VaultError, VaultId, VaultMasterKey, WriteChunksResult,
};

fn perform(image: &mut Vec<u8>, request: Request) -> Reply {
    match request {
        Request::Lock | Request::Sync => Reply::Done,
        Request::Truncate => {
            image.clear();
            Reply::Done
        }
        Request::Length => Reply::Length(image.len() as u64),
        Request::Read { offset, length } => {
            let start = offset as usize;
            match image.get(start..start + length) {
                Some(bytes) => Reply::Bytes(bytes.to_vec()),
                None => Reply::Failed(std::io::Error::from(std::io::ErrorKind::UnexpectedEof)),
            }
        }
        Request::Write { offset, bytes } => {
            if !bytes.is_empty() {
                let start = offset as usize;
                let end = start + bytes.len();
                if image.len() < end {
                    image.resize(end, 0);
                }
                image[start..end].copy_from_slice(&bytes);
            }
            Reply::Done
        }
    }
}

fn run<O, T>(
    image: &mut Vec<u8>,
    mut step: Step<O, T>,
    ask: impl Fn(&O) -> Request,
    tell: impl Fn(O, Reply) -> Step<O, T>,
) -> Result<T, VaultError> {
    loop {
        match step {
            Step::Done(result) => return result,
            Step::Ask(operation) => {
                let reply = perform(image, ask(&operation));
                step = tell(operation, reply);
            }
        }
    }
}

fn open(image: &mut Vec<u8>, existed: bool, config: BlobConfig) -> Result<Blob, VaultError> {
    let length = image.len() as u64;
    run(
        image,
        Blob::open(existed, length, vault_id(), &master_key(), config),
        |operation| operation.request(),
        |operation, reply| operation.reply(reply),
    )
}

fn open_existing(
    image: &mut Vec<u8>,
    vault_id: VaultId,
    master_key: &VaultMasterKey,
    config: BlobConfig,
) -> Result<Blob, VaultError> {
    run(
        image,
        Blob::open_existing(vault_id, master_key, config),
        |operation| operation.request(),
        |operation, reply| operation.reply(reply),
    )
}

fn write_chunks(
    blob: &Blob,
    image: &mut Vec<u8>,
    chunks: Vec<NewChunk>,
    completed_files: Vec<NewFileComplete>,
) -> Result<WriteChunksResult, VaultError> {
    run(
        image,
        Step::Ask(blob.write_chunks(chunks, completed_files)),
        |operation| operation.request(blob),
        |operation, reply| operation.reply(blob, reply),
    )
}

fn read_index(blob: &Blob, image: &mut Vec<u8>) -> Result<BlobIndex, VaultError> {
    run(
        image,
        Step::Ask(blob.read_index()),
        |operation| operation.request(),
        |operation, reply| operation.reply(blob, reply),
    )
}

fn refresh(blob: &Blob, image: &mut Vec<u8>) -> Result<BlobIndex, VaultError> {
    run(
        image,
        Step::Ask(blob.refresh_committed_snapshot()),
        |operation| operation.request(),
        |operation, reply| operation.reply(blob, reply),
    )
}

fn read_chunk(blob: &Blob, image: &mut Vec<u8>, entry: &ChunkEntry) -> Result<Vec<u8>, VaultError> {
    run(
        image,
        blob.read_chunk(entry),
        |operation| operation.request(),
        |operation, reply| operation.reply(blob, reply),
    )
}

fn read_chunk_by_id(
    blob: &Blob,
    image: &mut Vec<u8>,
    file_id: FileId,
    sequence_number: u64,
) -> Result<Vec<u8>, VaultError> {
    run(
        image,
        Step::Ask(blob.read_chunk_by_id(file_id, sequence_number)),
        |operation| operation.request(),
        |operation, reply| operation.reply(blob, reply),
    )
}

fn master_key() -> VaultMasterKey {
    VaultMasterKey([7_u8; 32])
}

fn vault_id() -> VaultId {
    VaultId([3_u8; 16])
}

fn file_id(byte: u8) -> FileId {
    FileId([byte; 16])
}

fn blake2b256(bytes: &[u8]) -> [u8; 32] {
    let mut out = [0_u8; 32];
    let mut hasher = blake2::Blake2bVar::new(32).unwrap();
    hasher.update(bytes);
    hasher.finalize_variable(&mut out).unwrap();
    out
}

#[test]
fn stable_slot_wraps_blob_keys_as_nested_aead_frames() {
    let master_key = [9_u8; 32];
    let vault_id = vault_id();
    let k_data = [1_u8; 32];
    let k_index = [2_u8; 32];

    let wrapped_k_data = wrap_stable_key(&master_key, &vault_id, "K_data", &k_data).unwrap();
    let wrapped_k_index = wrap_stable_key(&master_key, &vault_id, "K_index", &k_index).unwrap();
    assert_eq!(wrapped_k_data.len(), WRAPPED_KEY_LEN);
    assert_eq!(wrapped_k_index.len(), WRAPPED_KEY_LEN);
    assert_ne!(wrapped_k_data, wrapped_k_index);

    assert_eq!(
        unwrap_stable_key(&master_key, &vault_id, "K_data", &wrapped_k_data).unwrap(),
        k_data
    );
    assert_eq!(
        unwrap_stable_key(&master_key, &vault_id, "K_index", &wrapped_k_index).unwrap(),
        k_index
    );
}

#[test]
fn index_mac_and_stream_roundtrip() {
    let k_index = [1_u8; 32];
    let index_nonce = [2_u8; 24];
    let vault_id = vault_id();
    let blob_id = BlobId([4_u8; 16]);
    let k_mac = derive_index_mac_key(&k_index, &blob_id);

    let entries = {
        let mut out = Vec::new();
        encode_chunk_entry(
            &ChunkEntry {
                file_id: file_id(1),
                sequence_number: 0,
                offset_in_blob: 4096,
                plaintext_length: 3,
                content_hash: [0_u8; 32],
            },
            &mut out,
        );
        out
    };

    let ct = index_stream_xor(&k_index, &index_nonce, 0, &entries).unwrap();
    let mac = compute_index_mac(&k_mac, &vault_id, &blob_id, 1, ct.len() as u64, &ct).unwrap();
    let mac2 = compute_index_mac(&k_mac, &vault_id, &blob_id, 1, ct.len() as u64, &ct).unwrap();
    assert!(constant_time_eq32(&mac, &mac2));

    let mut plain = ct.clone();
    index_stream_decrypt_in_place(&k_index, &index_nonce, &mut plain).unwrap();
    assert_eq!(plain, entries);
}

#[test]
fn writes_reads_and_reopens_multiple_chunks() {
    let mut image = Vec::new();
    let config = BlobConfig {
        initial_leading_gap: 256,
        initial_trailing_gap: 256,
        relocation_leading_padding: 512,
        relocation_trailing_padding: 512,
        reader_retry_budget: 2,
        diagnostics: false,
    };

    let blob = open(&mut image, false, config).unwrap();
    let chunks = vec![
        NewChunk {
            file_id: file_id(1),
            sequence_number: 0,
            plaintext: b"hello ".to_vec(),
        },
        NewChunk {
            file_id: file_id(1),
            sequence_number: 1,
            plaintext: b"world".to_vec(),
        },
    ];
    let complete = NewFileComplete {
        file_id: file_id(1),
        total_chunks: 2,
        full_content_hash: blake2b256(b"hello world"),
    };

    let written = write_chunks(&blob, &mut image, chunks, vec![complete]).unwrap();
    assert_eq!(written.entries.len(), 2);
    assert_eq!(read_chunk(&blob, &mut image, &written.entries[0]).unwrap(), b"hello ");
    assert_eq!(read_chunk(&blob, &mut image, &written.entries[1]).unwrap(), b"world");

    drop(blob);
    let reopened = open_existing(&mut image, vault_id(), &master_key(), config).unwrap();
    let index = read_index(&reopened, &mut image).unwrap();
    assert_eq!(index.chunks.len(), 2);
    assert_eq!(index.completed_files.len(), 1);
    assert_eq!(read_chunk_by_id(&reopened, &mut image, file_id(1), 1).unwrap(), b"world");
}

#[test]
fn relocates_index_when_gaps_are_too_small() {
    let mut image = Vec::new();
    let config = BlobConfig {
        initial_leading_gap: 1,
        initial_trailing_gap: 1,
        relocation_leading_padding: 64,
        relocation_trailing_padding: 64,
        reader_retry_budget: 2,
        diagnostics: false,
    };

    let blob = open(&mut image, false, config).unwrap();
    let first = write_chunks(
        &blob,
        &mut image,
        vec![NewChunk {
            file_id: file_id(2),
            sequence_number: 0,
            plaintext: vec![9; 128],
        }],
        vec![],
    )
    .unwrap();
    let second = write_chunks(
        &blob,
        &mut image,
        vec![NewChunk {
            file_id: file_id(2),
            sequence_number: 1,
            plaintext: vec![8; 128],
        }],
        vec![],
    )
    .unwrap();

    assert_eq!(read_chunk(&blob, &mut image, &first.entries[0]).unwrap(), vec![9; 128]);
    assert_eq!(read_chunk(&blob, &mut image, &second.entries[0]).unwrap(), vec![8; 128]);
    assert_eq!(read_index(&blob, &mut image).unwrap().chunks.len(), 2);
}

#[test]
fn refreshing_finds_the_older_index_when_the_newer_one_is_damaged() {
    let mut image = Vec::new();
    let config = BlobConfig {
        initial_leading_gap: 1024,
        initial_trailing_gap: 1024,
        relocation_leading_padding: 512,
        relocation_trailing_padding: 512,
        reader_retry_budget: 2,
        diagnostics: false,
    };
    let blob = open(&mut image, false, config).unwrap();
    let chunk = |n: u64| NewChunk {
        file_id: file_id(1),
        sequence_number: n,
        plaintext: vec![n as u8; 10],
    };
    write_chunks(&blob, &mut image, vec![chunk(0)], vec![]).unwrap();
    write_chunks(&blob, &mut image, vec![chunk(1)], vec![]).unwrap();
    let second_entry = 4096 + 1024 + 73;
    image[second_entry] ^= 1;
    assert!(matches!(
        read_index(&blob, &mut image),
        Err(VaultError::RetryBudgetExceeded)
    ));
    assert_eq!(refresh(&blob, &mut image).unwrap().chunks.len(), 1);
}

fn layout(blob: &Blob, image: &mut Vec<u8>) -> Result<BlobLayoutStats, VaultError> {
    run(
        image,
        Step::Ask(blob.layout_stats()),
        |operation| operation.request(),
        |operation, reply| operation.reply(blob, reply),
    )
}

fn gaps(leading: u64, trailing: u64) -> BlobConfig {
    BlobConfig {
        initial_leading_gap: leading,
        initial_trailing_gap: trailing,
        relocation_leading_padding: 64,
        relocation_trailing_padding: 32,
        reader_retry_budget: 2,
        diagnostics: false,
    }
}

fn chunk(sequence_number: u64, plaintext: &[u8]) -> NewChunk {
    NewChunk {
        file_id: file_id(1),
        sequence_number,
        plaintext: plaintext.to_vec(),
    }
}

#[test]
fn a_new_blob_has_its_gaps_and_an_empty_index() {
    let mut image = vec![1, 2, 3];
    image.clear();
    let blob = open(&mut image, false, gaps(100, 50)).unwrap();
    assert_eq!(image.len(), 4096 + 150);
    let index = read_index(&blob, &mut image).unwrap();
    assert!(index.chunks.is_empty());
    assert!(index.completed_files.is_empty());
    let stats = layout(&blob, &mut image).unwrap();
    assert_eq!(stats.locator_generation, 0);
    assert_eq!(stats.index_offset, 4196);
    assert_eq!(stats.index_length, 0);
    assert_eq!(stats.data_tail, 4096);
    assert_eq!(stats.leading_gap_bytes, 100);
    assert_eq!(stats.trailing_gap_bytes, 50);
}

#[test]
fn an_empty_file_that_exists_becomes_a_blob() {
    let mut image = Vec::new();
    let blob = open(&mut image, true, gaps(10, 10)).unwrap();
    let again = open(&mut image, true, gaps(10, 10)).unwrap();
    assert_eq!(blob.blob_id, again.blob_id);
    assert_eq!(image.len(), 4096 + 20);
}

#[test]
fn two_new_blobs_differ() {
    let mut one = Vec::new();
    let mut two = Vec::new();
    let first = open(&mut one, false, gaps(10, 10)).unwrap();
    let second = open(&mut two, false, gaps(10, 10)).unwrap();
    assert_ne!(first.blob_id, second.blob_id);
    assert_ne!(one, two);
}

#[test]
fn chunks_that_fit_are_appended_in_place() {
    let mut image = Vec::new();
    let blob = open(&mut image, false, gaps(200, 200)).unwrap();
    let before = image.clone();
    let written =
        write_chunks(&blob, &mut image, vec![chunk(0, b"abc"), chunk(1, b"defg")], vec![]).unwrap();
    assert_eq!(written.entries[0].offset_in_blob, 4096);
    assert_eq!(written.entries[0].plaintext_length, 3);
    assert_eq!(written.entries[0].content_hash, blake2b256(b"abc"));
    assert_eq!(written.entries[1].offset_in_blob, 4096 + 43);
    assert_eq!(image.len(), before.len());
    assert_eq!(image[..2048], before[..2048]);
    let stats = layout(&blob, &mut image).unwrap();
    assert_eq!(stats.locator_generation, 1);
    assert_eq!(stats.index_offset, 4096 + 200);
    assert_eq!(stats.index_length, 146);
    assert_eq!(stats.data_tail, 4096 + 87);
    assert_eq!(stats.leading_gap_bytes, 113);
    assert_eq!(stats.trailing_gap_bytes, 54);
    assert_eq!(stats.chunk_plaintext_bytes, 7);
    assert_eq!(stats.chunk_frame_bytes, 87);
    assert_eq!(stats.chunk_frame_overhead_bytes, 80);
    assert_eq!(stats.body_unclassified_bytes, 0);
}

#[test]
fn a_relocated_index_stands_behind_the_old_end() {
    let mut image = Vec::new();
    let blob = open(&mut image, false, gaps(10, 10)).unwrap();
    let end = image.len() as u64;
    write_chunks(&blob, &mut image, vec![chunk(0, b"abc")], vec![]).unwrap();
    let stats = layout(&blob, &mut image).unwrap();
    assert_eq!(stats.index_offset, end.max(4096 + 43 + 64));
    assert_eq!(stats.index_length, 73);
    assert_eq!(image.len() as u64, stats.index_offset + 73 + 32);
    assert_eq!(read_chunk_by_id(&blob, &mut image, file_id(1), 0).unwrap(), b"abc");
}

#[test]
fn a_write_of_nothing_changes_only_the_generation() {
    let mut image = Vec::new();
    let blob = open(&mut image, false, gaps(10, 10)).unwrap();
    let written = write_chunks(&blob, &mut image, vec![], vec![]).unwrap();
    assert!(written.entries.is_empty());
    let stats = layout(&blob, &mut image).unwrap();
    assert_eq!(stats.locator_generation, 1);
    assert_eq!(stats.index_length, 0);
}

#[test]
fn locator_slots_take_turns() {
    let mut image = Vec::new();
    let blob = open(&mut image, false, gaps(4000, 4000)).unwrap();
    for n in 0..4_u64 {
        let before = image.clone();
        write_chunks(&blob, &mut image, vec![chunk(n, b"x")], vec![]).unwrap();
        let first = before[2048..3072] != image[2048..3072];
        let second = before[3072..4096] != image[3072..4096];
        assert!(first != second);
        assert_eq!(first, n % 2 == 1);
    }
    assert_eq!(layout(&blob, &mut image).unwrap().locator_generation, 4);
}

/// Performs the first `steps` requests of a write and reports whether it came to its end.
fn write_up_to(blob: &Blob, image: &mut Vec<u8>, chunks: Vec<NewChunk>, steps: usize) -> bool {
    let mut operation = blob.write_chunks(chunks, vec![]);
    for _ in 0..steps {
        let reply = perform(image, operation.request(blob));
        match operation.reply(blob, reply) {
            Step::Done(result) => {
                result.unwrap();
                return true;
            }
            Step::Ask(next) => operation = next,
        }
    }
    false
}

#[test]
fn an_interrupted_write_leaves_the_old_index_or_the_new_one() {
    for (leading, trailing) in [(400, 400), (60, 10), (10, 10), (0, 0)] {
        let mut start = Vec::new();
        let blob = open(&mut start, false, gaps(leading, trailing)).unwrap();
        let mut steps = 0;
        loop {
            let mut image = start.clone();
            let done = write_up_to(&blob, &mut image, vec![chunk(0, b"first")], steps);
            let index = read_index(&blob, &mut image).unwrap();
            if index.chunks.is_empty() {
                assert!(!done);
            } else {
                assert_eq!(read_chunk(&blob, &mut image, &index.chunks[0]).unwrap(), b"first");
            }
            if done {
                break;
            }
            write_chunks(&blob, &mut image, vec![chunk(1, b"second")], vec![]).unwrap();
            assert_eq!(read_chunk_by_id(&blob, &mut image, file_id(1), 1).unwrap(), b"second");
            steps += 1;
        }
        assert!(steps > 5);
    }
}

#[test]
fn an_interrupted_write_keeps_the_chunks_that_were_there() {
    let mut start = Vec::new();
    let blob = open(&mut start, false, gaps(100, 10)).unwrap();
    let kept = write_chunks(&blob, &mut start, vec![chunk(0, b"kept")], vec![]).unwrap();
    let mut steps = 0;
    loop {
        let mut image = start.clone();
        let done = write_up_to(&blob, &mut image, vec![chunk(1, &[7; 300])], steps);
        assert_eq!(read_chunk(&blob, &mut image, &kept.entries[0]).unwrap(), b"kept");
        if done {
            break;
        }
        steps += 1;
    }
}

#[test]
fn another_key_or_vault_opens_nothing() {
    let mut image = Vec::new();
    open(&mut image, false, gaps(10, 10)).unwrap();
    let stranger = VaultMasterKey([8; 32]);
    assert!(matches!(
        open_existing(&mut image, vault_id(), &stranger, gaps(10, 10)),
        Err(VaultError::AeadDecryptFailed)
    ));
    assert!(matches!(
        open_existing(&mut image, VaultId([4; 16]), &master_key(), gaps(10, 10)),
        Err(VaultError::AeadDecryptFailed)
    ));
}

fn sealed_stable_slot(version: u32, inner_vault_id: VaultId) -> Vec<u8> {
    let mut plaintext = version.to_le_bytes().to_vec();
    plaintext.extend(inner_vault_id.0);
    plaintext.extend([5; 16]);
    for purpose in ["K_data", "K_index"] {
        let wrapped =
            wrap_stable_key(&master_key().0, &inner_vault_id, purpose, &[1; 32]).unwrap();
        plaintext.extend(wrapped);
    }
    plaintext.extend([6; 24]);
    plaintext.resize(STABLE_SLOT_LEN - 40, 0);
    encrypt_frame(&master_key().0, &plaintext, &vault_id().0).unwrap()
}

#[test]
fn a_stable_slot_is_read_field_by_field() {
    let slot = sealed_stable_slot(1, vault_id());
    let blob = Blob::from_existing(&slot, vault_id(), &master_key(), gaps(1, 1)).unwrap();
    assert_eq!(blob.blob_id, BlobId([5; 16]));
    let later = sealed_stable_slot(2, vault_id());
    assert!(matches!(
        Blob::from_existing(&later, vault_id(), &master_key(), gaps(1, 1)),
        Err(VaultError::AeadDecryptFailed)
    ));
    let other = sealed_stable_slot(1, VaultId([4; 16]));
    assert!(matches!(
        Blob::from_existing(&other, vault_id(), &master_key(), gaps(1, 1)),
        Err(VaultError::InvalidMasterKey)
    ));
    let short = encrypt_frame(&master_key().0, &[1, 0, 0, 0], &vault_id().0).unwrap();
    assert!(matches!(
        Blob::from_existing(&short, vault_id(), &master_key(), gaps(1, 1)),
        Err(VaultError::AeadDecryptFailed)
    ));
}

#[test]
fn a_blob_without_a_readable_locator_is_refused() {
    let mut image = Vec::new();
    let blob = open(&mut image, false, gaps(10, 10)).unwrap();
    image[2048] ^= 1;
    image[3072] ^= 1;
    assert!(matches!(read_index(&blob, &mut image), Err(VaultError::NoValidLocator)));
    assert!(matches!(refresh(&blob, &mut image), Err(VaultError::NoValidLocator)));
    assert!(matches!(layout(&blob, &mut image), Err(VaultError::NoValidLocator)));
    assert!(matches!(
        write_chunks(&blob, &mut image, vec![], vec![]),
        Err(VaultError::NoValidLocator)
    ));
}

#[test]
fn nothing_is_written_over_a_damaged_index() {
    let mut image = Vec::new();
    let blob = open(&mut image, false, gaps(200, 200)).unwrap();
    write_chunks(&blob, &mut image, vec![chunk(0, b"abc")], vec![]).unwrap();
    image[4096 + 200] ^= 1;
    let before = image.clone();
    assert!(matches!(
        write_chunks(&blob, &mut image, vec![chunk(1, b"d")], vec![]),
        Err(VaultError::IndexMacMismatch)
    ));
    assert_eq!(image, before);
}

#[test]
fn a_reader_tries_again_while_the_index_is_torn() {
    let mut image = Vec::new();
    let blob = open(&mut image, false, gaps(200, 200)).unwrap();
    write_chunks(&blob, &mut image, vec![chunk(0, b"abc")], vec![]).unwrap();
    let mut torn = image.clone();
    torn[4096 + 200] ^= 1;
    let mut operation = blob.read_index();
    let mut asked = 0;
    let index = loop {
        let source = if asked < 4 { &mut torn } else { &mut image };
        let reply = perform(source, operation.request());
        asked += 1;
        match operation.reply(&blob, reply) {
            Step::Done(result) => break result.unwrap(),
            Step::Ask(next) => operation = next,
        }
    };
    assert_eq!(index.chunks.len(), 1);
    assert!(asked > 4);
}

#[test]
fn a_damaged_or_mismatched_chunk_is_refused() {
    let mut image = Vec::new();
    let blob = open(&mut image, false, gaps(200, 200)).unwrap();
    let entry =
        write_chunks(&blob, &mut image, vec![chunk(0, b"abc")], vec![]).unwrap().entries[0];
    let moved = ChunkEntry {
        sequence_number: 1,
        ..entry
    };
    assert!(matches!(
        read_chunk(&blob, &mut image, &moved),
        Err(VaultError::AeadDecryptFailed)
    ));
    let rehashed = ChunkEntry {
        content_hash: [0; 32],
        ..entry
    };
    assert!(matches!(
        read_chunk(&blob, &mut image, &rehashed),
        Err(VaultError::AeadDecryptFailed)
    ));
    let endless = ChunkEntry {
        plaintext_length: u64::MAX,
        ..entry
    };
    assert!(matches!(
        read_chunk(&blob, &mut image, &endless),
        Err(VaultError::IntegerOverflow)
    ));
    let beyond = ChunkEntry {
        offset_in_blob: 1 << 40,
        ..entry
    };
    assert!(matches!(read_chunk(&blob, &mut image, &beyond), Err(VaultError::Io(_))));
    image[entry.offset_in_blob as usize + 30] ^= 1;
    assert!(matches!(
        read_chunk(&blob, &mut image, &entry),
        Err(VaultError::AeadDecryptFailed)
    ));
    assert!(matches!(
        read_chunk_by_id(&blob, &mut image, file_id(1), 9),
        Err(VaultError::IndexChainBroken)
    ));
}

#[test]
fn gaps_that_no_file_can_hold_are_refused() {
    let config = BlobConfig {
        initial_leading_gap: u64::MAX,
        initial_trailing_gap: 1,
        ..BlobConfig::default()
    };
    assert!(matches!(validate_config(&config), Err(VaultError::IntegerOverflow)));
    let padding = BlobConfig {
        relocation_leading_padding: u64::MAX,
        relocation_trailing_padding: 1,
        ..BlobConfig::default()
    };
    assert!(matches!(validate_config(&padding), Err(VaultError::IntegerOverflow)));
    assert!(validate_config(&BlobConfig::default()).is_ok());
    let mut image = Vec::new();
    assert!(matches!(open(&mut image, false, config), Err(VaultError::IntegerOverflow)));
    assert!(image.is_empty());
}

#[test]
fn a_file_that_cannot_be_read_is_reported() {
    let mut image = vec![0; 100];
    assert!(matches!(
        open_existing(&mut image, vault_id(), &master_key(), gaps(1, 1)),
        Err(VaultError::Io(_))
    ));
}

#[test]
fn the_default_blob_policy() {
    let config = BlobConfig::default();
    assert_eq!(config.initial_leading_gap, 1024 * 1024);
    assert_eq!(config.initial_trailing_gap, 1024 * 1024);
    assert_eq!(config.relocation_leading_padding, 8 * 1024 * 1024);
    assert_eq!(config.relocation_trailing_padding, 1024 * 1024);
    assert_eq!(config.reader_retry_budget, 3);
    assert!(!config.diagnostics);
}

#[test]
fn many_writes_are_all_read_back() {
    let mut image = Vec::new();
    let blob = open(&mut image, false, gaps(10, 10)).unwrap();
    for n in 0..20_u64 {
        let marker = NewFileComplete {
            file_id: file_id(n as u8),
            total_chunks: n,
            full_content_hash: [n as u8; 32],
        };
        write_chunks(&blob, &mut image, vec![chunk(n, &vec![n as u8; n as usize])], vec![marker])
            .unwrap();
    }
    let index = read_index(&blob, &mut image).unwrap();
    assert_eq!(index.chunks.len(), 20);
    assert_eq!(index.completed_files.len(), 20);
    for n in 0..20_usize {
        assert_eq!(read_chunk(&blob, &mut image, &index.chunks[n]).unwrap(), vec![n as u8; n]);
        assert_eq!(index.completed_files[n].total_chunks, n as u64);
        assert_eq!(index.completed_files[n].full_content_hash, [n as u8; 32]);
    }
    let stats = layout(&blob, &mut image).unwrap();
    assert_eq!(stats.gap_before_first_chunk_bytes, 0);
    assert_eq!(stats.inter_chunk_gap_bytes, 0);
    assert_eq!(stats.index_length, 20 * (73 + 57));
}

#[test]
fn a_torn_write_leaves_the_old_index() {
    let mut image = Vec::new();
    let blob = open(&mut image, false, gaps(300, 20)).unwrap();
    let kept = write_chunks(&blob, &mut image, vec![chunk(0, b"kept")], vec![]).unwrap();
    let mut scratch = image.clone();
    let mut writes = Vec::new();
    let mut operation = blob.write_chunks(vec![chunk(1, b"torn")], vec![]);
    loop {
        let request = operation.request(&blob);
        if let Request::Write { offset, bytes } = &request {
            writes.push((*offset, bytes.clone()));
        }
        let reply = perform(&mut scratch, request);
        match operation.reply(&blob, reply) {
            Step::Ask(next) => operation = next,
            Step::Done(result) => {
                result.unwrap();
                break;
            }
        }
    }
    let (slot, body) = writes.split_last().unwrap();
    assert!(slot.0 == 2048 || slot.0 == 3072);
    let mut torn = image.clone();
    for (offset, bytes) in body.iter().rev() {
        let half = bytes[..bytes.len() / 2].to_vec();
        perform(&mut torn, Request::Write { offset: *offset, bytes: half });
    }
    assert_eq!(read_index(&blob, &mut torn).unwrap().chunks.len(), 1);
    assert_eq!(read_chunk(&blob, &mut torn, &kept.entries[0]).unwrap(), b"kept");
    assert_eq!(read_index(&blob, &mut scratch).unwrap().chunks.len(), 2);
}

/// What a list of entries says, in a form that can be compared.
fn said<T: std::fmt::Debug>(entries: &[T]) -> Vec<String> {
    entries.iter().map(|entry| format!("{entry:?}")).collect()
}

#[test]
fn a_write_reports_the_index_that_is_read_back() {
    for config in [gaps(10, 10), gaps(4000, 4000)] {
        let mut image = Vec::new();
        let blob = open(&mut image, false, config.clone()).unwrap();
        let mut before = read_index(&blob, &mut image).unwrap();
        for n in 0..6_u64 {
            let chunks = vec![chunk(2 * n, b"even"), chunk(2 * n + 1, &vec![7; n as usize])];
            let marker = NewFileComplete {
                file_id: file_id(9),
                total_chunks: n,
                full_content_hash: [n as u8; 32],
            };
            let written = write_chunks(&blob, &mut image, chunks, vec![marker]).unwrap();
            assert_eq!(written.entries.len(), 2);
            assert_eq!(written.entries[0].file_id, file_id(1));
            assert_eq!(written.entries[0].sequence_number, 2 * n);
            assert_eq!(written.entries[0].plaintext_length, 4);
            assert_eq!(written.entries[1].sequence_number, 2 * n + 1);
            assert_eq!(written.entries[1].plaintext_length, n);
            let known = before.chunks.len();
            assert_eq!(said(&written.index.chunks[..known]), said(&before.chunks));
            assert_eq!(said(&written.index.chunks[known..]), said(&written.entries));
            let marked = before.completed_files.len();
            assert_eq!(
                said(&written.index.completed_files[..marked]),
                said(&before.completed_files)
            );
            assert_eq!(written.index.completed_files.len(), marked + 1);
            assert_eq!(written.index.completed_files[marked].total_chunks, n);
            let fresh =
                open_existing(&mut image, vault_id(), &master_key(), gaps(1, 1)).unwrap();
            assert_eq!(fresh.blob_id, blob.blob_id);
            for reader in [&blob, &fresh] {
                let index = read_index(reader, &mut image).unwrap();
                assert_eq!(said(&index.chunks), said(&written.index.chunks));
                assert_eq!(
                    said(&index.completed_files),
                    said(&written.index.completed_files)
                );
            }
            before = written.index;
        }
    }
}

#[test]
fn a_write_appends_although_an_older_chunk_is_damaged() {
    for config in [gaps(10, 10), gaps(4000, 4000)] {
        let mut image = Vec::new();
        let blob = open(&mut image, false, config.clone()).unwrap();
        let older = write_chunks(&blob, &mut image, vec![chunk(0, b"older")], vec![]).unwrap();
        image[older.entries[0].offset_in_blob as usize + 30] ^= 1;
        let newer = write_chunks(&blob, &mut image, vec![chunk(1, b"newer")], vec![]).unwrap();
        let index = read_index(&blob, &mut image).unwrap();
        assert_eq!(said(&index.chunks), said(&[older.entries[0], newer.entries[0]]));
        assert_eq!(read_chunk(&blob, &mut image, &newer.entries[0]).unwrap(), b"newer");
        assert!(matches!(
            read_chunk(&blob, &mut image, &older.entries[0]),
            Err(VaultError::AeadDecryptFailed)
        ));
    }
}

#[test]
fn every_byte_of_a_blob_is_accounted_for_all_its_life() {
    for config in [gaps(10, 10), gaps(4000, 4000)] {
        let mut image = Vec::new();
        let blob = open(&mut image, false, config.clone()).unwrap();
        let mut plaintext_bytes = 0;
        for n in 0..8_u64 {
            let stats = layout(&blob, &mut image).unwrap();
            assert_eq!(stats.chunk_count as u64, n);
            assert_eq!(stats.chunk_plaintext_bytes, plaintext_bytes);
            assert_eq!(stats.chunk_frame_bytes, plaintext_bytes + 40 * n);
            assert_eq!(stats.data_tail, 4096 + stats.chunk_frame_bytes);
            assert_eq!(
                stats.index_length,
                73 * n + 57 * stats.file_complete_count as u64
            );
            assert_eq!(stats.file_complete_count as u64, n / 2);
            assert_eq!(stats.gap_before_first_chunk_bytes, 0);
            assert_eq!(stats.inter_chunk_gap_bytes, 0);
            assert_eq!(stats.body_unclassified_bytes, 0);
            assert_eq!(
                4096 + stats.chunk_frame_bytes
                    + stats.leading_gap_bytes
                    + stats.index_length
                    + stats.trailing_gap_bytes,
                image.len() as u64
            );
            let mut markers = Vec::new();
            if n % 2 == 1 {
                markers.push(NewFileComplete {
                    file_id: file_id(1),
                    total_chunks: n,
                    full_content_hash: [0; 32],
                });
            }
            let contents = vec![n as u8; 17 * n as usize];
            write_chunks(&blob, &mut image, vec![chunk(n, &contents)], markers).unwrap();
            plaintext_bytes += 17 * n;
        }
    }
}
