//! An encrypted blob vault: files are cut into chunks, every chunk is sealed on its own, and the
//! sealed chunks are collected in blob files whose every byte looks random without the vault's
//! master key.
//!
//! The library decides and computes; it performs no input or output of its own. An operation on a
//! blob or a vault hands out a [`Request`] and is handed a [`Reply`], until it is done. What the
//! requests do to a file is modelled in [`storage`]; what a file promises at rest, and what every
//! transaction keeps of that promise, is stated and proved in [`consistency`].

pub mod accounting;
pub mod admitting;
pub mod answering;
pub mod appending;
pub mod blob;
pub mod bytes;
pub mod capacity;
pub mod commit;
pub mod consistency;
pub mod contents;
pub mod create;
pub mod crypto;
pub mod directory;
pub mod encoding;
pub mod error;
pub mod files;
pub mod finding;
pub mod history;
pub mod index;
pub mod judging;
pub mod keeping;
pub mod measuring;
pub mod native;
pub mod open;
pub mod order;
pub mod parse;
pub mod placing;
pub mod plan;
pub mod read;
pub mod refresh;
pub mod running;
pub mod session;
pub mod stats;
pub mod storage;
pub mod storing;
pub mod text;
pub mod transfer;
pub mod types;
pub mod vault;
pub mod wording;
pub mod write;

pub use blob::{Blob, BlobConfig, AEAD_FRAME_OVERHEAD};
pub use error::VaultError;
pub use index::{
    estimate_index_bytes_for_file, BlobIndex, NewChunk, NewFileComplete, INDEX_CHUNK_ENTRY_BYTES,
    INDEX_FILE_COMPLETE_ENTRY_BYTES,
};
pub use stats::BlobLayoutStats;
pub use storage::{Reply, Request, Step};
pub use types::{BlobId, ChunkEntry, FileCompleteEntry, FileId, VaultId, VaultMasterKey};
pub use vault::{
    BlobWatchRegistrar, LocatedChunkEntry, LocatedFileCompleteEntry, Vault, VaultConfig,
    VaultFileCursor, VaultIndex,
};
pub use write::WriteChunksResult;
