//! Index entries, the layout of a blob and the order of its parts.

use vaultblob::blob::{data_tail, Locator};
use vaultblob::bytes::{bytes_equal, checked_add, checked_mul, copy_array, read_u64};
use vaultblob::index::{encode_chunk_entry, encode_file_complete_entry, parse_entries};
use vaultblob::order::stable_order;
use vaultblob::stats::layout_breakdown;
use vaultblob::{
    estimate_index_bytes_for_file, BlobIndex, ChunkEntry, FileId, NewFileComplete, VaultError,
};

fn empty() -> BlobIndex {
    BlobIndex {
        chunks: vec![],
        completed_files: vec![],
    }
}

fn entry(sequence_number: u64, offset_in_blob: u64, plaintext_length: u64) -> ChunkEntry {
    ChunkEntry {
        file_id: FileId([1; 16]),
        sequence_number,
        offset_in_blob,
        plaintext_length,
        content_hash: [2; 32],
    }
}

fn marker(total_chunks: u64) -> NewFileComplete {
    NewFileComplete {
        file_id: FileId([3; 16]),
        total_chunks,
        full_content_hash: [4; 32],
    }
}

#[test]
fn entries_have_a_fixed_form() {
    let mut out = vec![];
    encode_chunk_entry(&entry(1, 0x0203, 4), &mut out);
    assert_eq!(out.len(), 73);
    assert_eq!(out[0], 1);
    assert_eq!(out[1..17], [1; 16]);
    assert_eq!(out[17..25], [1, 0, 0, 0, 0, 0, 0, 0]);
    assert_eq!(out[25..33], [3, 2, 0, 0, 0, 0, 0, 0]);
    assert_eq!(out[33..41], [4, 0, 0, 0, 0, 0, 0, 0]);
    assert_eq!(out[41..], [2; 32]);
    encode_file_complete_entry(&marker(5), &mut out);
    assert_eq!(out.len(), 73 + 57);
    assert_eq!(out[73], 2);
    assert_eq!(out[74..90], [3; 16]);
    assert_eq!(out[90..98], [5, 0, 0, 0, 0, 0, 0, 0]);
    assert_eq!(out[98..], [4; 32]);
}

#[test]
fn encoded_entries_are_decoded() {
    let mut out = vec![];
    encode_chunk_entry(&entry(1, 4096, 3), &mut out);
    encode_file_complete_entry(&marker(1), &mut out);
    encode_chunk_entry(&entry(2, 5000, 4), &mut out);
    let mut index = empty();
    parse_entries(&out, &mut index).unwrap();
    assert_eq!(index.chunks.len(), 2);
    assert_eq!(index.chunks[1].sequence_number, 2);
    assert_eq!(index.chunks[1].offset_in_blob, 5000);
    assert_eq!(index.completed_files.len(), 1);
    assert_eq!(index.completed_files[0].total_chunks, 1);
    parse_entries(&out, &mut index).unwrap();
    assert_eq!(index.chunks.len(), 4);
}

#[test]
fn broken_entries_are_refused() {
    let mut out = vec![];
    encode_chunk_entry(&entry(1, 4096, 3), &mut out);
    let whole = out.len();
    encode_file_complete_entry(&marker(1), &mut out);
    for cut in whole + 1..out.len() {
        let mut index = empty();
        assert!(matches!(
            parse_entries(&out[..cut], &mut index),
            Err(VaultError::IndexChainBroken)
        ));
        assert_eq!(index.chunks.len(), 1);
    }
    let mut index = empty();
    assert!(matches!(
        parse_entries(&[3], &mut index),
        Err(VaultError::IndexChainBroken)
    ));
    assert!(matches!(
        parse_entries(&[1; 72], &mut index),
        Err(VaultError::IndexChainBroken)
    ));
    assert!(parse_entries(&[], &mut index).is_ok());
    assert!(index.chunks.is_empty());
}

#[test]
fn index_growth_is_estimated() {
    assert_eq!(estimate_index_bytes_for_file(10, 4), 3 * 73 + 57);
    assert_eq!(estimate_index_bytes_for_file(8, 4), 2 * 73 + 57);
    assert_eq!(estimate_index_bytes_for_file(0, 4), 57);
    assert_eq!(estimate_index_bytes_for_file(3, 0), 3 * 73 + 57);
    assert_eq!(estimate_index_bytes_for_file(u64::MAX, 1), u64::MAX);
}

#[test]
fn the_data_tail_is_behind_the_last_frame() {
    let mut index = empty();
    assert_eq!(data_tail(&index).unwrap(), 4096);
    index.chunks.push(entry(0, 5000, 10));
    index.chunks.push(entry(1, 4096, 3));
    assert_eq!(data_tail(&index).unwrap(), 5050);
    index.chunks.push(entry(2, u64::MAX, 0));
    assert!(matches!(data_tail(&index), Err(VaultError::IntegerOverflow)));
}

#[test]
fn a_layout_is_broken_down() {
    let index = BlobIndex {
        chunks: vec![entry(0, 4300, 60), entry(1, 4106, 60)],
        completed_files: vec![],
    };
    let locator = Locator {
        slot_index: 1,
        generation: 9,
        index_offset: 4500,
        index_length: 146,
        index_mac: [0; 32],
    };
    let stats = layout_breakdown(&locator, &index, 146, 5000).unwrap();
    assert_eq!(stats.file_size, 5000);
    assert_eq!(stats.front_matter_bytes, 4096);
    assert_eq!(stats.body_bytes, 904);
    assert_eq!(stats.locator_generation, 9);
    assert_eq!(stats.chunk_count, 2);
    assert_eq!(stats.chunk_plaintext_bytes, 120);
    assert_eq!(stats.chunk_frame_bytes, 200);
    assert_eq!(stats.chunk_frame_overhead_bytes, 80);
    assert_eq!(stats.gap_before_first_chunk_bytes, 10);
    assert_eq!(stats.inter_chunk_gap_bytes, 10 + 94);
    assert_eq!(stats.data_tail, 4400);
    assert_eq!(stats.leading_gap_bytes, 100);
    assert_eq!(stats.trailing_gap_bytes, 354);
    assert_eq!(stats.body_unclassified_bytes, 0);
    let beyond = Locator {
        index_offset: u64::MAX,
        ..locator
    };
    assert!(matches!(
        layout_breakdown(&beyond, &index, 146, 5000),
        Err(VaultError::IntegerOverflow)
    ));
}

#[test]
fn positions_are_ordered_stably() {
    assert_eq!(stable_order(&vec![3, 1, 3, 0, 1]), vec![3, 1, 4, 0, 2]);
    assert_eq!(stable_order(&vec![]), Vec::<usize>::new());
}

#[test]
fn bytes_are_copied_and_compared() {
    assert!(bytes_equal(&[1, 2], &[1, 2]));
    assert!(!bytes_equal(&[1, 2], &[1, 3]));
    assert!(!bytes_equal(&[1, 2], &[1, 2, 3]));
    let front: [u8; 2] = copy_array(&[7, 8, 9]);
    assert_eq!(front, [7, 8]);
    assert_eq!(read_u64(&[1, 2, 0, 0, 0, 0, 0, 0]), 513);
    assert_eq!(checked_add(1, 2).unwrap(), 3);
    assert!(matches!(checked_add(u64::MAX, 1), Err(VaultError::IntegerOverflow)));
    assert_eq!(checked_mul(3, 4).unwrap(), 12);
    assert!(matches!(checked_mul(1 << 63, 2), Err(VaultError::IntegerOverflow)));
}
