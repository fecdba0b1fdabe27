//! Vaults whose blobs stand on files in memory.

use std::cell::RefCell;
use std::collections::HashMap;
use std::rc::Rc;

use vaultblob::plan::{effective_chunk_size, estimated_write_size};
use vaultblob::session::RefreshBlob;
use vaultblob::transfer::{CursorRead, PutFile, ReadFile, ReadFromFile, ReadRange};
use vaultblob::{
    Blob, BlobConfig, BlobId, BlobIndex, BlobLayoutStats, BlobWatchRegistrar, FileId, NewChunk,
    NewFileComplete, Reply, Request, Step, Vault, VaultConfig, VaultError, VaultFileCursor,
    VaultId, VaultMasterKey,
};

struct RecordingRegistrar {
    blob_ids: Vec<BlobId>,
}

impl BlobWatchRegistrar for RecordingRegistrar {
    fn watch_blob(&mut self, blob_id: BlobId) {
        self.blob_ids.push(blob_id);
    }
}

fn perform(image: &mut Vec<u8>, request: Request) -> Reply {
    match request {
        Request::Lock | Request::Sync => Reply::Done,
        Request::Truncate => {
            image.clear();
            Reply::Done
        }
        Request::Length => Reply::Length(image.len() as u64),
        Request::Read { offset, length } => {
            let start = offset as usize;
            match image.get(start..start + length) {
                Some(bytes) => Reply::Bytes(bytes.to_vec()),
                None => Reply::Failed(std::io::Error::from(std::io::ErrorKind::UnexpectedEof)),
            }
        }
        Request::Write { offset, bytes } => {
            if !bytes.is_empty() {
                let start = offset as usize;
                let end = start + bytes.len();
                if image.len() < end {
                    image.resize(end, 0);
                }
                image[start..end].copy_from_slice(&bytes);
            }
            Reply::Done
        }
    }
}

/// A vault and the files of its blobs.
struct Setup {
    vault: Vault,
    images: Vec<Vec<u8>>,
}

impl Setup {
    fn change<O, T>(
        &mut self,
        mut step: Step<O, T>,
        ask: impl Fn(&O, &Vault) -> (usize, Request),
        tell: impl Fn(O, &mut Vault, Reply) -> Step<O, T>,
    ) -> Result<T, VaultError> {
        loop {
            match step {
                Step::Done(result) => return result,
                Step::Ask(operation) => {
                    let (at, request) = ask(&operation, &self.vault);
                    let reply = perform(&mut self.images[at], request);
                    step = tell(operation, &mut self.vault, reply);
                }
            }
        }
    }

    fn look<O, T>(
        &mut self,
        mut step: Step<O, T>,
        ask: impl Fn(&O, &Vault) -> (usize, Request),
        tell: impl Fn(O, &Vault, Reply) -> Step<O, T>,
    ) -> Result<T, VaultError> {
        loop {
            match step {
                Step::Done(result) => return result,
                Step::Ask(operation) => {
                    let (at, request) = ask(&operation, &self.vault);
                    let reply = perform(&mut self.images[at], request);
                    step = tell(operation, &self.vault, reply);
                }
            }
        }
    }

    fn open(blobs: Vec<(Blob, Vec<u8>)>, config: VaultConfig) -> Result<Setup, VaultError> {
        let (blobs, images): (Vec<Blob>, Vec<Vec<u8>>) = blobs.into_iter().unzip();
        let (vault, refresh) = Vault::open(vault_id(), blobs, config)?;
        let mut setup = Setup { vault, images };
        if let Some(operation) = refresh {
            setup.change(
                Step::Ask(operation),
                |operation, vault| operation.request(vault),
                |operation, vault, reply| operation.reply(vault, reply),
            )?;
        }
        Ok(setup)
    }

    fn refresh_indexes(&mut self) -> Result<(), VaultError> {
        let operation = self.vault.refresh_indexes();
        self.change(
            Step::Ask(operation),
            |operation, vault| operation.request(vault),
            |operation, vault, reply| operation.reply(vault, reply),
        )
    }

    fn append_blob(&mut self, blob: (Blob, Vec<u8>)) -> Result<(), VaultError> {
        let operation = self.vault.append_blob(blob.0)?;
        self.images.push(blob.1);
        self.change(
            Step::Ask(operation),
            |operation, vault| operation.request(vault),
            |operation, vault, reply| operation.reply(vault, reply),
        )
    }

    fn put_file(&mut self, file_id: FileId, contents: &[u8]) -> Result<(), VaultError> {
        let step: Step<PutFile, ()> = self.vault.put_file(file_id, contents);
        self.change(
            step,
            |operation, vault| operation.request(vault),
            |operation, vault, reply| operation.reply(vault, reply),
        )
    }

    fn read_file(&mut self, file_id: FileId) -> Result<Vec<u8>, VaultError> {
        let step: Step<ReadFile, Vec<u8>> = self.vault.read_file(file_id);
        self.look(
            step,
            |operation, vault| operation.request(vault),
            |operation, vault, reply| operation.reply(vault, reply),
        )
    }

    fn read_file_range(
        &mut self,
        file_id: FileId,
        offset: u64,
        length: u64,
    ) -> Result<Vec<u8>, VaultError> {
        let step: Step<ReadRange, Vec<u8>> = self.vault.read_file_range(file_id, offset, length);
        self.look(
            step,
            |operation, vault| operation.request(vault),
            |operation, vault, reply| operation.reply(vault, reply),
        )
    }

    fn read_from_file(
        &mut self,
        cursor: &mut VaultFileCursor,
        length: u64,
    ) -> Result<Vec<u8>, VaultError> {
        let step: Step<ReadFromFile, CursorRead> = self.vault.read_from_file(cursor, length);
        let read = self.look(
            step,
            |operation, vault| operation.request(vault),
            |operation, vault, reply| operation.reply(vault, reply),
        )?;
        *cursor = read.cursor;
        Ok(read.bytes)
    }

    fn handle_blob_changed(&mut self, blob_id: BlobId) -> Result<BlobIndex, VaultError> {
        let operation: RefreshBlob = self.vault.handle_blob_changed(blob_id)?;
        self.change(
            Step::Ask(operation),
            |operation, vault| operation.request(vault),
            |operation, vault, reply| operation.reply(vault, reply),
        )
    }

    fn layout_stats(&mut self) -> Result<Vec<(BlobId, BlobLayoutStats)>, VaultError> {
        let operation = self.vault.layout_stats();
        self.look(
            Step::Ask(operation),
            |operation, vault| operation.request(vault),
            |operation, vault, reply| operation.reply(vault, reply),
        )
    }
}

fn master_key() -> VaultMasterKey {
    VaultMasterKey([11_u8; 32])
}

fn vault_id() -> VaultId {
    VaultId([13_u8; 16])
}

fn file_id(byte: u8) -> FileId {
    FileId([byte; 16])
}

fn blob_of(vault_id: VaultId) -> (Blob, Vec<u8>) {
    let mut image = Vec::new();
    let mut step = Blob::open(
        false,
        0,
        vault_id,
        &master_key(),
        BlobConfig {
            initial_leading_gap: 128,
            initial_trailing_gap: 128,
            relocation_leading_padding: 256,
            relocation_trailing_padding: 256,
            reader_retry_budget: 2,
            diagnostics: false,
        },
    );
    loop {
        match step {
            Step::Done(blob) => return (blob.unwrap(), image),
            Step::Ask(operation) => {
                let reply = perform(&mut image, operation.request());
                step = operation.reply(reply);
            }
        }
    }
}

fn blob() -> (Blob, Vec<u8>) {
    blob_of(vault_id())
}

fn whole(max_chunk_size: usize, max_blob_size: u64) -> VaultConfig {
    VaultConfig {
        max_chunk_size,
        max_blob_size,
        split_files_across_blobs: false,
        stripe_chunks_across_blobs: false,
        cache_indexes_on_open: true,
    }
}

fn split(max_chunk_size: usize, max_blob_size: u64, stripe: bool) -> VaultConfig {
    VaultConfig {
        max_chunk_size,
        max_blob_size,
        split_files_across_blobs: true,
        stripe_chunks_across_blobs: stripe,
        cache_indexes_on_open: true,
    }
}

#[test]
fn writes_reads_and_partial_reads_file() {
    let mut vault = Setup::open(
        vec![blob()],
        VaultConfig {
            max_chunk_size: 5,
            max_blob_size: 1024,
            split_files_across_blobs: false,
            stripe_chunks_across_blobs: false,
            cache_indexes_on_open: true,
        },
    )
    .unwrap();

    vault.put_file(file_id(1), b"hello world").unwrap();

    assert_eq!(vault.vault.file_size(file_id(1)).unwrap(), 11);
    assert_eq!(vault.read_file(file_id(1)).unwrap(), b"hello world");
    assert_eq!(vault.read_file_range(file_id(1), 3, 5).unwrap(), b"lo wo");
    let mut cursor = vault.vault.open_file(file_id(1)).unwrap();
    cursor.seek(6);
    assert_eq!(vault.read_from_file(&mut cursor, 5).unwrap(), b"world");
    assert_eq!(cursor.position(), 11);
}

#[test]
fn splits_a_file_larger_than_max_blob_size_across_blobs() {
    let mut vault = Setup::open(
        vec![blob()],
        VaultConfig {
            max_chunk_size: 4 * 1024 * 1024,
            max_blob_size: 1024 * 1024,
            split_files_across_blobs: true,
            stripe_chunks_across_blobs: true,
            cache_indexes_on_open: true,
        },
    )
    .unwrap();

    let payload = vec![7_u8; 1_498_269];
    match vault.put_file(file_id(9), &payload) {
        Ok(()) => {}
        Err(VaultError::NoWritableBlob) => {
            vault.append_blob(blob()).unwrap();
            vault.put_file(file_id(9), &payload).unwrap();
        }
        Err(err) => panic!("unexpected error: {err:?}"),
    }

    assert_eq!(vault.read_file(file_id(9)).unwrap(), payload);
    let located = vault.vault.file_chunks(file_id(9)).unwrap();
    assert_eq!(located.len(), 2);
    assert_ne!(located[0].blob_id, located[1].blob_id);
}

#[test]
fn rotates_whole_files_to_a_new_blob_when_max_blob_size_is_reached() {
    let mut vault = Setup::open(
        vec![blob()],
        VaultConfig {
            max_chunk_size: 1024,
            max_blob_size: 2048,
            split_files_across_blobs: false,
            stripe_chunks_across_blobs: false,
            cache_indexes_on_open: true,
        },
    )
    .unwrap();

    vault.put_file(file_id(1), &[1_u8; 1000]).unwrap();
    assert!(matches!(
        vault.put_file(file_id(2), &[2_u8; 1000]),
        Err(VaultError::NoWritableBlob)
    ));
    vault.append_blob(blob()).unwrap();
    vault.put_file(file_id(2), &[2_u8; 1000]).unwrap();

    assert_eq!(vault.vault.blob_ids().len(), 2);
    assert_eq!(vault.vault.file_chunks(file_id(1)).unwrap().len(), 1);
    assert_eq!(vault.vault.file_chunks(file_id(2)).unwrap().len(), 1);
    assert_ne!(
        vault.vault.file_chunks(file_id(1)).unwrap()[0].blob_id,
        vault.vault.file_chunks(file_id(2)).unwrap()[0].blob_id,
    );
}

#[test]
fn can_split_one_file_across_blobs_and_refresh_from_watcher_callback() {
    let mut vault = Setup::open(
        vec![blob(), blob()],
        VaultConfig {
            max_chunk_size: 4,
            max_blob_size: 500,
            split_files_across_blobs: true,
            stripe_chunks_across_blobs: true,
            cache_indexes_on_open: true,
        },
    )
    .unwrap();

    let mut registrar = RecordingRegistrar {
        blob_ids: Vec::new(),
    };
    vault.vault.register_blob_watches(&mut registrar);
    assert_eq!(registrar.blob_ids.len(), 2);

    let changed = Rc::new(RefCell::new(Vec::new()));
    let changed_for_callback = Rc::clone(&changed);
    let callback = move |blob_id: BlobId, index: &BlobIndex| {
        changed_for_callback
            .borrow_mut()
            .push((blob_id, index.chunks.len()));
    };

    vault.put_file(file_id(2), b"abcdefghijkl").unwrap();
    assert_eq!(vault.read_file_range(file_id(2), 4, 4).unwrap(), b"efgh");

    let blob_ids = vault.vault.blob_ids();
    let distribution: HashMap<_, _> = vault
        .vault
        .file_chunks(file_id(2))
        .unwrap()
        .into_iter()
        .fold(HashMap::<BlobId, usize>::new(), |mut acc, chunk| {
            *acc.entry(chunk.blob_id).or_default() += 1;
            acc
        });
    assert_eq!(distribution.len(), 2);

    let index = vault.handle_blob_changed(blob_ids[0]).unwrap();
    callback(blob_ids[0], &index);
    assert_eq!(changed.borrow().len(), 1);
    assert_eq!(registrar.blob_ids, blob_ids);
    assert_eq!(changed.borrow()[0], (blob_ids[0], 2));
}

#[test]
fn an_empty_file_is_one_empty_chunk() {
    for config in [whole(5, 1024), split(5, 1024, false)] {
        let mut vault = Setup::open(vec![blob()], config).unwrap();
        vault.put_file(file_id(1), b"").unwrap();
        assert_eq!(vault.vault.file_size(file_id(1)).unwrap(), 0);
        assert_eq!(vault.vault.file_chunks(file_id(1)).unwrap().len(), 1);
        assert_eq!(vault.read_file(file_id(1)).unwrap(), b"");
        assert_eq!(vault.read_file_range(file_id(1), 0, 10).unwrap(), b"");
    }
}

#[test]
fn ranges_are_cut_at_the_end_of_the_file() {
    let mut vault = Setup::open(vec![blob()], whole(4, 4096)).unwrap();
    vault.put_file(file_id(1), b"0123456789").unwrap();
    assert_eq!(vault.read_file_range(file_id(1), 8, 100).unwrap(), b"89");
    assert_eq!(vault.read_file_range(file_id(1), 10, 1).unwrap(), b"");
    assert_eq!(vault.read_file_range(file_id(1), 0, 0).unwrap(), b"");
    assert_eq!(vault.read_file_range(file_id(1), 4, 4).unwrap(), b"4567");
    assert_eq!(vault.read_file_range(file_id(1), 0, 10).unwrap(), b"0123456789");
    assert!(matches!(
        vault.read_file_range(file_id(1), 1, u64::MAX),
        Err(VaultError::IntegerOverflow)
    ));
}

#[test]
fn a_cursor_reads_on_where_it_stopped() {
    let mut vault = Setup::open(vec![blob()], whole(3, 4096)).unwrap();
    vault.put_file(file_id(1), b"abcdefgh").unwrap();
    let mut cursor = vault.vault.open_file(file_id(1)).unwrap();
    assert_eq!(cursor.file_id(), file_id(1));
    assert_eq!(vault.read_from_file(&mut cursor, 5).unwrap(), b"abcde");
    assert_eq!(cursor.position(), 5);
    assert_eq!(vault.read_from_file(&mut cursor, 5).unwrap(), b"fgh");
    assert_eq!(cursor.position(), 8);
    assert_eq!(vault.read_from_file(&mut cursor, 5).unwrap(), b"");
    assert_eq!(cursor.position(), 8);
}

#[test]
fn a_known_file_is_not_stored_again() {
    let mut vault = Setup::open(vec![blob()], whole(5, 1024)).unwrap();
    vault.put_file(file_id(1), b"one").unwrap();
    assert!(matches!(
        vault.put_file(file_id(1), b"two"),
        Err(VaultError::FileAlreadyExists)
    ));
    assert_eq!(vault.read_file(file_id(1)).unwrap(), b"one");
}

#[test]
fn an_unknown_file_is_not_found() {
    let mut vault = Setup::open(vec![blob()], whole(5, 1024)).unwrap();
    assert!(matches!(vault.read_file(file_id(1)), Err(VaultError::FileNotFound)));
    assert!(matches!(
        vault.read_file_range(file_id(1), 0, 1),
        Err(VaultError::FileNotFound)
    ));
    assert!(matches!(vault.vault.file_size(file_id(1)), Err(VaultError::FileNotFound)));
    assert!(matches!(vault.vault.open_file(file_id(1)), Err(VaultError::FileNotFound)));
    assert!(matches!(
        vault.handle_blob_changed(BlobId([0; 16])),
        Err(VaultError::BlobNotFound)
    ));
}

/// Writes chunks to a blob's file as another process would.
fn write_behind(
    setup: &mut Setup,
    at: usize,
    chunks: Vec<NewChunk>,
    completed_files: Vec<NewFileComplete>,
) {
    let blob = &setup.vault.blobs[at];
    let mut step = Step::Ask(blob.write_chunks(chunks, completed_files));
    loop {
        match step {
            Step::Done(result) => {
                result.unwrap();
                return;
            }
            Step::Ask(operation) => {
                let reply = perform(&mut setup.images[at], operation.request(blob));
                step = operation.reply(blob, reply);
            }
        }
    }
}

fn chunk(file: u8, sequence_number: u64, plaintext: &[u8]) -> NewChunk {
    NewChunk {
        file_id: file_id(file),
        sequence_number,
        plaintext: plaintext.to_vec(),
    }
}

fn marker(file: u8, total_chunks: u64, full_content_hash: [u8; 32]) -> NewFileComplete {
    NewFileComplete {
        file_id: file_id(file),
        total_chunks,
        full_content_hash,
    }
}

#[test]
fn a_file_with_a_missing_part_is_incomplete() {
    let mut vault = Setup::open(vec![blob()], whole(5, 4096)).unwrap();
    write_behind(&mut vault, 0, vec![chunk(1, 0, b"ab")], vec![]);
    write_behind(&mut vault, 0, vec![chunk(2, 0, b"ab")], vec![marker(2, 2, [0; 32])]);
    write_behind(&mut vault, 0, vec![chunk(3, 1, b"ab")], vec![marker(3, 1, [0; 32])]);
    assert!(matches!(vault.read_file(file_id(1)), Err(VaultError::FileNotFound)));
    vault.refresh_indexes().unwrap();
    assert!(matches!(vault.read_file(file_id(1)), Err(VaultError::IncompleteFile)));
    assert!(matches!(vault.vault.open_file(file_id(2)), Err(VaultError::IncompleteFile)));
    assert!(matches!(vault.vault.file_size(file_id(3)), Err(VaultError::IncompleteFile)));
    assert_eq!(vault.vault.file_size(file_id(1)).unwrap(), 2);
}

#[test]
fn a_file_with_another_hash_is_refused() {
    let mut vault = Setup::open(vec![blob()], whole(5, 4096)).unwrap();
    write_behind(&mut vault, 0, vec![chunk(1, 0, b"ab")], vec![marker(1, 1, [0; 32])]);
    vault.refresh_indexes().unwrap();
    assert!(matches!(vault.read_file(file_id(1)), Err(VaultError::FileHashMismatch)));
    assert_eq!(vault.read_file_range(file_id(1), 0, 2).unwrap(), b"ab");
}

#[test]
fn the_order_in_which_chunks_are_listed_does_not_matter() {
    let mut vault = Setup::open(vec![blob(), blob()], whole(5, 4096)).unwrap();
    write_behind(&mut vault, 1, vec![chunk(1, 1, b"cd")], vec![marker(1, 3, [0; 32])]);
    write_behind(&mut vault, 0, vec![chunk(1, 2, b"ef"), chunk(1, 0, b"ab")], vec![]);
    vault.refresh_indexes().unwrap();
    assert_eq!(vault.read_file_range(file_id(1), 0, 6).unwrap(), b"abcdef");
    let chunks = vault.vault.file_chunks(file_id(1)).unwrap();
    let numbers: Vec<u64> = chunks.iter().map(|chunk| chunk.entry.sequence_number).collect();
    assert_eq!(numbers, vec![0, 1, 2]);
}

#[test]
fn the_marker_that_counts_most_chunks_wins() {
    let mut vault = Setup::open(vec![blob()], whole(5, 4096)).unwrap();
    write_behind(
        &mut vault,
        0,
        vec![chunk(1, 0, b"ab"), chunk(1, 1, b"cd")],
        vec![marker(1, 2, [2; 32]), marker(1, 1, [1; 32])],
    );
    vault.refresh_indexes().unwrap();
    let latest = vault.vault.index.latest_complete(file_id(1)).unwrap();
    assert_eq!(latest.entry.total_chunks, 2);
    assert_eq!(latest.entry.full_content_hash, [2; 32]);
}

#[test]
fn a_vault_sees_what_others_wrote_once_it_is_told() {
    let mut vault = Setup::open(vec![blob(), blob()], whole(5, 4096)).unwrap();
    vault.put_file(file_id(1), b"mine").unwrap();
    write_behind(&mut vault, 1, vec![chunk(2, 0, b"other")], vec![marker(2, 1, [0; 32])]);
    assert!(matches!(vault.vault.file_size(file_id(2)), Err(VaultError::FileNotFound)));
    let id = vault.vault.blob_ids()[1];
    let index = vault.handle_blob_changed(id).unwrap();
    assert_eq!(index.chunks.len(), 1);
    assert_eq!(vault.vault.file_size(file_id(2)).unwrap(), 5);
    assert_eq!(vault.read_file(file_id(1)).unwrap(), b"mine");
    assert_eq!(vault.vault.cached_index().chunks.len(), 2);
}

#[test]
fn a_vault_that_is_opened_without_a_cache_knows_nothing() {
    let config = VaultConfig {
        cache_indexes_on_open: false,
        ..whole(5, 4096)
    };
    let mut first = Setup::open(vec![blob()], whole(5, 4096)).unwrap();
    first.put_file(file_id(1), b"hello").unwrap();
    let Setup { vault, images } = first;
    let blobs: Vec<(Blob, Vec<u8>)> = vault.blobs.into_iter().zip(images).collect();
    let mut second = Setup::open(blobs, config).unwrap();
    assert!(matches!(second.read_file(file_id(1)), Err(VaultError::FileNotFound)));
    second.refresh_indexes().unwrap();
    assert_eq!(second.read_file(file_id(1)).unwrap(), b"hello");
}

#[test]
fn storing_a_file_leaves_the_others_as_they_were() {
    let mut vault = Setup::open(vec![blob(), blob()], split(4, 2000, true)).unwrap();
    vault.put_file(file_id(1), b"the first file").unwrap();
    let before = vault.vault.file_chunks(file_id(1)).unwrap().len();
    vault.put_file(file_id(2), b"the second one, which is longer").unwrap();
    assert_eq!(vault.vault.file_chunks(file_id(1)).unwrap().len(), before);
    assert_eq!(vault.read_file(file_id(1)).unwrap(), b"the first file");
    assert_eq!(vault.read_file(file_id(2)).unwrap(), b"the second one, which is longer");
}

#[test]
fn a_file_that_is_too_large_for_any_blob_is_refused() {
    let mut vault = Setup::open(vec![blob()], whole(1024, 2048)).unwrap();
    assert!(matches!(
        vault.put_file(file_id(1), &[0; 3000]),
        Err(VaultError::FileExceedsBlobCapacity)
    ));
}

#[test]
fn policies_that_cannot_work_are_refused() {
    assert!(matches!(
        Setup::open(vec![], whole(1, 1)).map(|_| ()),
        Err(VaultError::InvalidConfig)
    ));
    assert!(matches!(
        Setup::open(vec![blob()], whole(0, 1)).map(|_| ()),
        Err(VaultError::InvalidConfig)
    ));
    assert!(matches!(
        Setup::open(vec![blob()], whole(1, 0)).map(|_| ()),
        Err(VaultError::InvalidConfig)
    ));
    assert!(matches!(
        Setup::open(vec![blob_of(VaultId([1; 16]))], whole(1, 1)).map(|_| ()),
        Err(VaultError::InvalidConfig)
    ));
    let mut vault = Setup::open(vec![blob()], split(1024, 170, false)).unwrap();
    assert!(matches!(
        vault.put_file(file_id(1), b"x"),
        Err(VaultError::InvalidConfig)
    ));
    assert!(matches!(
        vault.append_blob(blob_of(VaultId([1; 16]))),
        Err(VaultError::InvalidConfig)
    ));
    assert_eq!(vault.vault.blob_ids().len(), 1);
    assert_eq!(vault.vault.vault_id(), vault_id());
}

#[test]
fn the_default_policy_keeps_files_whole() {
    let config = VaultConfig::default();
    assert_eq!(config.max_chunk_size, 4 * 1024 * 1024);
    assert_eq!(config.max_blob_size, 1024 * 1024 * 1024);
    assert!(!config.split_files_across_blobs);
    assert!(!config.stripe_chunks_across_blobs);
    assert!(config.cache_indexes_on_open);
}

#[test]
fn estimates_count_frames_and_entries() {
    assert_eq!(estimated_write_size(1000, 1).unwrap(), 1000 + 113 + 57);
    assert_eq!(estimated_write_size(0, 3).unwrap(), 3 * 113 + 57);
    assert!(matches!(
        estimated_write_size(u64::MAX, 1),
        Err(VaultError::IntegerOverflow)
    ));
    assert_eq!(effective_chunk_size(&split(4096, 1170, false)).unwrap(), 1000);
    assert_eq!(effective_chunk_size(&split(500, 1170, false)).unwrap(), 500);
    assert!(matches!(
        effective_chunk_size(&split(500, 170, false)),
        Err(VaultError::InvalidConfig)
    ));
}

#[test]
fn a_blob_is_filled_exactly_to_its_limit() {
    let exact = 1000 + 113 + 57;
    let mut vault = Setup::open(vec![blob()], whole(1000, exact)).unwrap();
    vault.put_file(file_id(1), &[5; 1000]).unwrap();
    assert_eq!(vault.vault.blob_estimated_size(0).unwrap(), exact);
    assert!(matches!(
        vault.put_file(file_id(2), b""),
        Err(VaultError::NoWritableBlob)
    ));
    let mut tight = Setup::open(vec![blob()], whole(1000, exact - 1)).unwrap();
    assert!(matches!(
        tight.put_file(file_id(1), &[5; 1000]),
        Err(VaultError::FileExceedsBlobCapacity)
    ));
}

#[test]
fn pieces_without_striping_fill_the_first_blob_first() {
    let mut vault = Setup::open(vec![blob(), blob()], split(10, 500, false)).unwrap();
    vault.put_file(file_id(1), &[1; 45]).unwrap();
    let ids = vault.vault.blob_ids();
    let placed: Vec<usize> = vault
        .vault
        .file_chunks(file_id(1))
        .unwrap()
        .iter()
        .map(|chunk| ids.iter().position(|id| *id == chunk.blob_id).unwrap())
        .collect();
    assert_eq!(placed, vec![0, 0, 0, 0, 1]);
    assert_eq!(vault.vault.blob_estimated_size(0).unwrap(), 4 * 123);
    assert_eq!(vault.vault.blob_estimated_size(1).unwrap(), 118 + 57);
}

#[test]
fn pieces_with_striping_go_round() {
    let mut vault = Setup::open(vec![blob(), blob()], split(10, 1000, true)).unwrap();
    vault.put_file(file_id(1), &[1; 35]).unwrap();
    let ids = vault.vault.blob_ids();
    let placed: Vec<usize> = vault
        .vault
        .file_chunks(file_id(1))
        .unwrap()
        .iter()
        .map(|chunk| ids.iter().position(|id| *id == chunk.blob_id).unwrap())
        .collect();
    assert_eq!(placed, vec![0, 1, 0, 1]);
}

#[test]
fn whole_files_go_round() {
    let mut vault = Setup::open(vec![blob(), blob()], whole(100, 5000)).unwrap();
    for file in 1..=3 {
        vault.put_file(file_id(file), &[file; 10]).unwrap();
    }
    let ids = vault.vault.blob_ids();
    let placed: Vec<usize> = (1..=3)
        .map(|file| {
            let blob_id = vault.vault.file_chunks(file_id(file)).unwrap()[0].blob_id;
            ids.iter().position(|id| *id == blob_id).unwrap()
        })
        .collect();
    assert_eq!(placed, vec![0, 1, 0]);
}

#[test]
fn every_blob_of_a_vault_is_measured() {
    let mut vault = Setup::open(vec![blob(), blob()], whole(100, 5000)).unwrap();
    vault.put_file(file_id(1), &[9; 20]).unwrap();
    let stats = vault.layout_stats().unwrap();
    assert_eq!(stats.len(), 2);
    assert_eq!(stats[0].0, vault.vault.blob_ids()[0]);
    assert_eq!(stats[0].1.chunk_count, 1);
    assert_eq!(stats[0].1.file_complete_count, 1);
    assert_eq!(stats[0].1.chunk_frame_bytes, 60);
    assert_eq!(stats[1].1.chunk_count, 0);
    assert_eq!(stats[1].1.file_size, 4096 + 256);
}

#[test]
fn a_failing_file_is_reported() {
    let mut vault = Setup::open(vec![blob()], whole(5, 4096)).unwrap();
    vault.put_file(file_id(1), b"hello").unwrap();
    vault.images[0].truncate(4096);
    assert!(matches!(vault.read_file(file_id(1)), Err(VaultError::Io(_))));
    assert!(matches!(vault.put_file(file_id(2), b"x"), Err(VaultError::Io(_))));
}

#[test]
fn a_file_that_was_stored_in_part_is_refused_until_the_rest_comes() {
    let mut vault = Setup::open(vec![blob(), blob()], split(4, 500, true)).unwrap();
    let Step::Ask(mut operation) = vault.vault.put_file(file_id(1), b"abcdefgh") else {
        panic!("the file was refused");
    };
    let mut seen_incomplete = false;
    loop {
        let (at, request) = operation.request(&vault.vault);
        let reply = perform(&mut vault.images[at], request);
        match operation.reply(&mut vault.vault, reply) {
            Step::Ask(next) => operation = next,
            Step::Done(result) => {
                result.unwrap();
                break;
            }
        }
        match vault.vault.open_file(file_id(1)) {
            Err(VaultError::FileNotFound) => assert!(!seen_incomplete),
            Err(VaultError::IncompleteFile) => seen_incomplete = true,
            other => panic!("unexpected: {other:?}"),
        }
    }
    assert!(seen_incomplete);
    assert_eq!(vault.read_file(file_id(1)).unwrap(), b"abcdefgh");
}

#[test]
fn a_new_blob_makes_room_for_a_whole_file() {
    let mut vault = Setup::open(vec![blob()], whole(100, 400)).unwrap();
    vault.put_file(file_id(1), &[1; 100]).unwrap();
    assert!(matches!(
        vault.put_file(file_id(2), &[2; 100]),
        Err(VaultError::NoWritableBlob)
    ));
    vault.append_blob(blob()).unwrap();
    vault.put_file(file_id(2), &[2; 100]).unwrap();
    assert_eq!(vault.read_file(file_id(2)).unwrap(), [2; 100]);
}

#[test]
fn a_split_file_needs_room_for_its_marker() {
    let mut vault = Setup::open(vec![blob(), blob()], split(10, 500, false)).unwrap();
    assert!(matches!(
        vault.put_file(file_id(1), &[1; 40]),
        Err(VaultError::NoWritableBlob)
    ));
    vault.put_file(file_id(2), &[2; 30]).unwrap();
    assert_eq!(vault.read_file(file_id(2)).unwrap(), [2; 30]);
}

#[test]
fn a_marker_that_counts_fewer_chunks_does_not_stand_in_the_way() {
    let mut vault = Setup::open(vec![blob()], whole(4, 4096)).unwrap();
    write_behind(&mut vault, 0, vec![], vec![marker(1, 2, [9; 32]), marker(1, 0, [8; 32])]);
    vault.refresh_indexes().unwrap();
    vault.put_file(file_id(1), b"0123456789").unwrap();
    assert_eq!(vault.read_file(file_id(1)).unwrap(), b"0123456789");
    let latest = vault.vault.index.latest_complete(file_id(1)).unwrap();
    assert_eq!(latest.entry.total_chunks, 3);
}

#[test]
fn a_file_stays_as_it_was_stored_whatever_else_comes() {
    let mut vault = Setup::open(vec![blob(), blob()], split(4, 4096, true)).unwrap();
    write_behind(&mut vault, 0, vec![chunk(5, 0, b"part")], vec![marker(5, 2, [0; 32])]);
    vault.refresh_indexes().unwrap();
    vault.put_file(file_id(1), b"kept all along").unwrap();
    let chunks = vault.vault.file_chunks(file_id(1)).unwrap();
    let mut other = Setup::open(vec![blob()], whole(5, 4096)).unwrap();
    other.put_file(file_id(2), b"from elsewhere").unwrap();
    let Setup { vault: others, images } = other;
    let attached: Vec<(Blob, Vec<u8>)> = others.blobs.into_iter().zip(images).collect();
    for blob in attached {
        vault.append_blob(blob).unwrap();
        vault.put_file(file_id(3), b"stored in between").unwrap();
    }
    vault.append_blob(blob()).unwrap();
    vault.put_file(file_id(4), b"stored at last").unwrap();
    assert_eq!(vault.vault.file_size(file_id(1)).unwrap(), 14);
    let now = vault.vault.file_chunks(file_id(1)).unwrap();
    assert_eq!(now.len(), chunks.len());
    for (entry, before) in now.iter().zip(&chunks) {
        assert_eq!(entry.blob_id, before.blob_id);
        assert_eq!(entry.entry.sequence_number, before.entry.sequence_number);
        assert_eq!(entry.entry.offset_in_blob, before.entry.offset_in_blob);
        assert_eq!(entry.entry.plaintext_length, before.entry.plaintext_length);
        assert_eq!(entry.entry.content_hash, before.entry.content_hash);
    }
    assert_eq!(vault.read_file(file_id(1)).unwrap(), b"kept all along");
    assert_eq!(vault.read_file_range(file_id(1), 5, 3).unwrap(), b"all");
    assert!(matches!(vault.read_file(file_id(5)), Err(VaultError::IncompleteFile)));
    assert_eq!(vault.vault.file_size(file_id(5)).unwrap(), 4);
    assert!(matches!(vault.read_file(file_id(6)), Err(VaultError::FileNotFound)));
    assert_eq!(vault.read_file(file_id(2)).unwrap(), b"from elsewhere");
    assert_eq!(vault.read_file(file_id(3)).unwrap(), b"stored in between");
    assert_eq!(vault.read_file(file_id(4)).unwrap(), b"stored at last");
}

#[test]
fn adjacent_ranges_join() {
    let contents = b"the whole of what was stored";
    let mut vault = Setup::open(vec![blob(), blob()], split(5, 4096, true)).unwrap();
    vault.put_file(file_id(1), contents).unwrap();
    let end = contents.len() as u64;
    for from in 0..end {
        for middle in from..end {
            let mut joined = vault.read_file_range(file_id(1), from, middle - from).unwrap();
            joined.extend(vault.read_file_range(file_id(1), middle, 2 * end).unwrap());
            assert_eq!(joined, contents[from as usize..]);
        }
    }
}

/// A blob to which another vault wrote.
fn written(chunks: Vec<NewChunk>, completed_files: Vec<NewFileComplete>) -> (Blob, Vec<u8>) {
    let mut other = Setup::open(vec![blob()], whole(5, 4096)).unwrap();
    write_behind(&mut other, 0, chunks, completed_files);
    let Setup { vault, images } = other;
    vault.blobs.into_iter().zip(images).next().unwrap()
}

#[test]
fn a_vault_that_is_behind_on_other_files_stores_and_reads() {
    for stripe in [false, true] {
        let mut vault = Setup::open(vec![blob(), blob()], split(4, 4096, stripe)).unwrap();
        let behind = [vec![chunk(2, 0, b"unknown")], vec![chunk(3, 0, b"unknown too")]];
        for (at, chunks) in behind.into_iter().enumerate() {
            write_behind(&mut vault, at, chunks, vec![marker(1, at as u64, [9; 32])]);
        }
        assert!(vault.vault.cached_index().chunks.is_empty());
        vault.put_file(file_id(1), b"0123456789").unwrap();
        assert_eq!(vault.read_file(file_id(1)).unwrap(), b"0123456789");
        write_behind(&mut vault, 1, vec![chunk(4, 0, b"later")], vec![marker(1, 2, [9; 32])]);
        assert_eq!(vault.read_file(file_id(1)).unwrap(), b"0123456789");
        vault.refresh_indexes().unwrap();
        assert_eq!(vault.read_file(file_id(1)).unwrap(), b"0123456789");
        assert_eq!(vault.read_file_range(file_id(1), 3, 5).unwrap(), b"34567");
        assert_eq!(vault.vault.file_size(file_id(3)).unwrap(), 11);
        assert_eq!(vault.vault.index.latest_complete(file_id(1)).unwrap().entry.total_chunks, 3);
    }
}

#[test]
fn an_attached_blob_with_a_smaller_marker_does_not_matter() {
    let mut vault = Setup::open(vec![blob()], whole(4, 4096)).unwrap();
    vault.put_file(file_id(1), b"0123456789").unwrap();
    vault
        .append_blob(written(vec![chunk(2, 0, b"other")], vec![marker(1, 2, [9; 32])]))
        .unwrap();
    assert_eq!(vault.read_file(file_id(1)).unwrap(), b"0123456789");
    assert_eq!(vault.read_file_range(file_id(1), 8, 8).unwrap(), b"89");
    assert_eq!(vault.vault.file_size(file_id(2)).unwrap(), 5);
}

#[test]
fn an_attached_blob_with_a_larger_marker_or_a_chunk_matters() {
    let mut vault = Setup::open(vec![blob()], whole(4, 4096)).unwrap();
    vault.put_file(file_id(1), b"0123456789").unwrap();
    vault.append_blob(written(vec![], vec![marker(1, 4, [9; 32])])).unwrap();
    assert!(matches!(vault.read_file(file_id(1)), Err(VaultError::IncompleteFile)));
    vault.append_blob(written(vec![chunk(1, 7, b"more")], vec![])).unwrap();
    assert!(matches!(vault.vault.file_size(file_id(1)), Err(VaultError::IncompleteFile)));
}
