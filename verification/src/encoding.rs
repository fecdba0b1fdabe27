//! Where each byte of the format stands.

use vstd::bytes::{
    lemma_auto_spec_u64_to_from_le_bytes, spec_u32_from_le_bytes, spec_u64_from_le_bytes,
    spec_u64_to_le_bytes,
};
use vstd::prelude::*;
use vstd::string::StringSliceAdditionalSpecFns;

use crate::blob::{locator_at, locator_bytes, slot_offset, BlobConfig, BlobView, LocatorView};
use crate::commit::{joined, run_writes};
use crate::consistency::{lemma_run_writes, slots_in};
use crate::create::{create_script, opened, CreatedParts};
use crate::crypto::{
    blake2b256_digest, blake2b256_mac, file_key_of, hkdf_sha256, index_mac_of, mac_key_of,
    open_frame, sealed_frame, stream_xor, unwrapped_key, xchacha20_keystream,
    xchacha20poly1305_open, xchacha20poly1305_seal,
};
use crate::error::VaultError;
use crate::index::{
    chunk_aad_of, chunk_entry_bytes, chunk_run_bytes, complete_entry_bytes, complete_run_bytes,
    decoded, transaction_bytes, volatile_aad_of, IndexView,
};
use crate::storage::{after_all, lemma_after_all_concat, write_at, RequestView};
use crate::types::{ChunkView, CompleteView};

verus! {

/// A chunk entry is seventy-three bytes: the tag one, the file, the place in the file, the place in
/// the blob, the length and the hash.
pub proof fn law_chunk_entry_stands_so(entry: ChunkView)
    requires
        entry.file_id.len() == 16,
        entry.content_hash.len() == 32,
    ensures
        ({
            let bytes = chunk_entry_bytes(entry);
            &&& bytes.len() == 73
            &&& bytes[0] == 1
            &&& bytes.subrange(1, 17) == entry.file_id
            &&& bytes.subrange(17, 25) == spec_u64_to_le_bytes(entry.sequence_number)
            &&& bytes.subrange(25, 33) == spec_u64_to_le_bytes(entry.offset_in_blob)
            &&& bytes.subrange(33, 41) == spec_u64_to_le_bytes(entry.plaintext_length)
            &&& bytes.subrange(41, 73) == entry.content_hash
        }),
{
    lemma_auto_spec_u64_to_from_le_bytes();
    let bytes = chunk_entry_bytes(entry);
    assert(bytes.subrange(1, 17) =~= entry.file_id);
    assert(bytes.subrange(17, 25) =~= spec_u64_to_le_bytes(entry.sequence_number));
    assert(bytes.subrange(25, 33) =~= spec_u64_to_le_bytes(entry.offset_in_blob));
    assert(bytes.subrange(33, 41) =~= spec_u64_to_le_bytes(entry.plaintext_length));
    assert(bytes.subrange(41, 73) =~= entry.content_hash);
}

/// A completion marker is fifty-seven bytes: the tag two, the file, the number of its chunks and
/// the hash of its contents.
pub proof fn law_marker_stands_so(entry: CompleteView)
    requires
        entry.file_id.len() == 16,
        entry.full_content_hash.len() == 32,
    ensures
        ({
            let bytes = complete_entry_bytes(entry);
            &&& bytes.len() == 57
            &&& bytes[0] == 2
            &&& bytes.subrange(1, 17) == entry.file_id
            &&& bytes.subrange(17, 25) == spec_u64_to_le_bytes(entry.total_chunks)
            &&& bytes.subrange(25, 57) == entry.full_content_hash
        }),
{
    lemma_auto_spec_u64_to_from_le_bytes();
    let bytes = complete_entry_bytes(entry);
    assert(bytes.subrange(1, 17) =~= entry.file_id);
    assert(bytes.subrange(17, 25) =~= spec_u64_to_le_bytes(entry.total_chunks));
    assert(bytes.subrange(25, 57) =~= entry.full_content_hash);
}

proof fn lemma_chunk_run(entries: Seq<ChunkView>, i: int)
    requires
        forall|k: int|
            0 <= k < entries.len() ==> (#[trigger] entries[k]).file_id.len() == 16
                && entries[k].content_hash.len() == 32,
        0 <= i <= entries.len(),
    ensures
        chunk_run_bytes(entries).len() == 73 * entries.len(),
        i < entries.len() ==> chunk_run_bytes(entries).subrange(73 * i, 73 * i + 73)
            == chunk_entry_bytes(entries[i]),
    decreases entries.len(),
{
    if entries.len() > 0 {
        let front = entries.drop_last();
        let last = entries.len() - 1;
        assert forall|k: int| 0 <= k < front.len() implies (#[trigger] front[k]).file_id.len()
            == 16 && front[k].content_hash.len() == 32 by {
            assert(entries[k].file_id.len() == 16);
        }
        assert(entries[last].file_id.len() == 16);
        law_chunk_entry_stands_so(entries[last]);
        if i < last {
            lemma_chunk_run(front, i);
            assert(chunk_run_bytes(entries).subrange(73 * i, 73 * i + 73) =~= chunk_run_bytes(
                front,
            ).subrange(73 * i, 73 * i + 73));
        } else {
            lemma_chunk_run(front, last);
            assert(chunk_run_bytes(entries).subrange(73 * last, 73 * last + 73)
                =~= chunk_entry_bytes(entries[last]));
        }
    }
}

proof fn lemma_complete_run(entries: Seq<CompleteView>, i: int)
    requires
        forall|k: int|
            0 <= k < entries.len() ==> (#[trigger] entries[k]).file_id.len() == 16
                && entries[k].full_content_hash.len() == 32,
        0 <= i <= entries.len(),
    ensures
        complete_run_bytes(entries).len() == 57 * entries.len(),
        i < entries.len() ==> complete_run_bytes(entries).subrange(57 * i, 57 * i + 57)
            == complete_entry_bytes(entries[i]),
    decreases entries.len(),
{
    if entries.len() > 0 {
        let front = entries.drop_last();
        let last = entries.len() - 1;
        assert forall|k: int| 0 <= k < front.len() implies (#[trigger] front[k]).file_id.len()
            == 16 && front[k].full_content_hash.len() == 32 by {
            assert(entries[k].file_id.len() == 16);
        }
        assert(entries[last].file_id.len() == 16);
        law_marker_stands_so(entries[last]);
        if i < last {
            lemma_complete_run(front, i);
            assert(complete_run_bytes(entries).subrange(57 * i, 57 * i + 57)
                =~= complete_run_bytes(front).subrange(57 * i, 57 * i + 57));
        } else {
            lemma_complete_run(front, last);
            assert(complete_run_bytes(entries).subrange(57 * last, 57 * last + 57)
                =~= complete_entry_bytes(entries[last]));
        }
    }
}

/// What a transaction adds to the index: its chunks in order, then its markers in order, and
/// nothing else.
pub proof fn law_transaction_stands_so(index: IndexView, i: int)
    requires
        forall|k: int|
            0 <= k < index.chunks.len() ==> (#[trigger] index.chunks[k]).file_id.len() == 16
                && index.chunks[k].content_hash.len() == 32,
        forall|k: int|
            0 <= k < index.completed_files.len() ==> (
            #[trigger] index.completed_files[k]).file_id.len() == 16
                && index.completed_files[k].full_content_hash.len() == 32,
    ensures
        ({
            let bytes = transaction_bytes(index);
            let chunks = index.chunks.len() as int;
            let marks = index.completed_files.len() as int;
            &&& bytes.len() == 73 * chunks + 57 * marks
            &&& 0 <= i < chunks ==> bytes.subrange(73 * i, 73 * i + 73) == chunk_entry_bytes(
                index.chunks[i],
            )
            &&& 0 <= i < marks ==> bytes.subrange(
                73 * chunks + 57 * i,
                73 * chunks + 57 * i + 57,
            ) == complete_entry_bytes(index.completed_files[i])
        }),
{
    let bytes = transaction_bytes(index);
    let chunks = index.chunks.len() as int;
    let marks = index.completed_files.len() as int;
    lemma_chunk_run(index.chunks, chunks);
    lemma_complete_run(index.completed_files, marks);
    if 0 <= i < chunks {
        lemma_chunk_run(index.chunks, i);
        assert(bytes.subrange(73 * i, 73 * i + 73) =~= chunk_run_bytes(index.chunks).subrange(
            73 * i,
            73 * i + 73,
        ));
    }
    if 0 <= i < marks {
        lemma_complete_run(index.completed_files, i);
        assert(bytes.subrange(73 * chunks + 57 * i, 73 * chunks + 57 * i + 57)
            =~= complete_run_bytes(index.completed_files).subrange(57 * i, 57 * i + 57));
    }
}

/// How an index is read: entry by entry, each as long as its tag says, and every field from its
/// place. It is broken where a tag is unknown or an entry is cut short, and nowhere else.
pub proof fn law_index_is_read_entry_by_entry(bytes: Seq<u8>)
    ensures
        bytes.len() == 0 ==> decoded(bytes).complete && decoded(bytes).index.chunks.len() == 0
            && decoded(bytes).index.completed_files.len() == 0,
        bytes.len() > 0 && bytes[0] != 1 && bytes[0] != 2 ==> !decoded(bytes).complete,
        bytes.len() > 0 && bytes[0] == 1 && bytes.len() < 73 ==> !decoded(bytes).complete,
        bytes.len() > 0 && bytes[0] == 2 && bytes.len() < 57 ==> !decoded(bytes).complete,
        bytes.len() >= 73 && bytes[0] == 1 ==> {
            let rest = decoded(bytes.skip(73));
            let entry = decoded(bytes).index.chunks[0];
            &&& decoded(bytes).complete == rest.complete
            &&& decoded(bytes).index.chunks.len() == rest.index.chunks.len() + 1
            &&& decoded(bytes).index.chunks.skip(1) == rest.index.chunks
            &&& decoded(bytes).index.completed_files == rest.index.completed_files
            &&& entry.file_id == bytes.subrange(1, 17)
            &&& entry.sequence_number == spec_u64_from_le_bytes(bytes.subrange(17, 25))
            &&& entry.offset_in_blob == spec_u64_from_le_bytes(bytes.subrange(25, 33))
            &&& entry.plaintext_length == spec_u64_from_le_bytes(bytes.subrange(33, 41))
            &&& entry.content_hash == bytes.subrange(41, 73)
        },
        bytes.len() >= 57 && bytes[0] == 2 ==> {
            let rest = decoded(bytes.skip(57));
            let entry = decoded(bytes).index.completed_files[0];
            &&& decoded(bytes).complete == rest.complete
            &&& decoded(bytes).index.completed_files.len() == rest.index.completed_files.len() + 1
            &&& decoded(bytes).index.completed_files.skip(1) == rest.index.completed_files
            &&& decoded(bytes).index.chunks == rest.index.chunks
            &&& entry.file_id == bytes.subrange(1, 17)
            &&& entry.total_chunks == spec_u64_from_le_bytes(bytes.subrange(17, 25))
            &&& entry.full_content_hash == bytes.subrange(25, 57)
        },
{
    let payload = bytes.skip(1);
    if bytes.len() >= 73 && bytes[0] == 1 {
        let rest = decoded(bytes.skip(73));
        assert(payload.subrange(0, 16) =~= bytes.subrange(1, 17));
        assert(payload.subrange(16, 24) =~= bytes.subrange(17, 25));
        assert(payload.subrange(24, 32) =~= bytes.subrange(25, 33));
        assert(payload.subrange(32, 40) =~= bytes.subrange(33, 41));
        assert(payload.subrange(40, 72) =~= bytes.subrange(41, 73));
        assert(decoded(bytes).index.chunks.skip(1) =~= rest.index.chunks);
        assert(decoded(bytes).index.completed_files =~= rest.index.completed_files);
    }
    if bytes.len() >= 57 && bytes[0] == 2 {
        let rest = decoded(bytes.skip(57));
        assert(payload.subrange(0, 16) =~= bytes.subrange(1, 17));
        assert(payload.subrange(16, 24) =~= bytes.subrange(17, 25));
        assert(payload.subrange(24, 56) =~= bytes.subrange(25, 57));
        assert(decoded(bytes).index.completed_files.skip(1) =~= rest.index.completed_files);
        assert(decoded(bytes).index.chunks =~= rest.index.chunks);
    }
}

/// A locator is fifty-six bytes: the generation, where the index stands, how long it is, and its
/// MAC. It is read as it is written.
pub proof fn law_locator_stands_so(locator: LocatorView, padded: Seq<u8>)
    requires
        locator.index_mac.len() == 32,
        padded.len() >= 56,
    ensures
        ({
            let bytes = locator_bytes(locator);
            &&& bytes.len() == 56
            &&& bytes.subrange(0, 8) == spec_u64_to_le_bytes(locator.generation)
            &&& bytes.subrange(8, 16) == spec_u64_to_le_bytes(locator.index_offset)
            &&& bytes.subrange(16, 24) == spec_u64_to_le_bytes(locator.index_length)
            &&& bytes.subrange(24, 56) == locator.index_mac
        }),
        ({
            let read = locator_at(padded, locator.slot_index);
            &&& read.generation == spec_u64_from_le_bytes(padded.subrange(0, 8))
            &&& read.index_offset == spec_u64_from_le_bytes(padded.subrange(8, 16))
            &&& read.index_length == spec_u64_from_le_bytes(padded.subrange(16, 24))
            &&& read.index_mac == padded.subrange(24, 56)
            &&& read.slot_index == locator.slot_index
        }),
        slot_offset(0) == 2048,
        slot_offset(1) == 3072,
{
    lemma_auto_spec_u64_to_from_le_bytes();
    let bytes = locator_bytes(locator);
    assert(bytes.subrange(0, 8) =~= spec_u64_to_le_bytes(locator.generation));
    assert(bytes.subrange(8, 16) =~= spec_u64_to_le_bytes(locator.index_offset));
    assert(bytes.subrange(16, 24) =~= spec_u64_to_le_bytes(locator.index_length));
    assert(bytes.subrange(24, 56) =~= locator.index_mac);
}

/// A frame is a nonce of twenty-four bytes, then the ciphertext with its tag of sixteen. It opens to
/// what the cipher makes of the two parts.
pub proof fn law_frame_stands_so(
    key: Seq<u8>,
    nonce: Seq<u8>,
    message: Seq<u8>,
    aad: Seq<u8>,
    frame: Seq<u8>,
)
    requires
        nonce.len() == 24,
    ensures
        sealed_frame(key, nonce, message, aad).subrange(0, 24) == nonce,
        sealed_frame(key, nonce, message, aad).skip(24) == xchacha20poly1305_seal(
            key,
            nonce,
            aad,
            message,
        ),
        frame.len() < 40 ==> open_frame(key, frame, aad) is None,
        40 <= frame.len() <= 274_877_906_856 ==> open_frame(key, frame, aad)
            == xchacha20poly1305_open(key, frame.subrange(0, 24), aad, frame.skip(24)),
{
    let sealed = sealed_frame(key, nonce, message, aad);
    assert(sealed.subrange(0, 24) =~= nonce);
    assert(sealed.skip(24) =~= xchacha20poly1305_seal(key, nonce, aad, message));
    if 40 <= frame.len() {
        assert(frame.take(24) =~= frame.subrange(0, 24));
    }
}

/// The index is encrypted byte by byte with the keystream, each byte by that of its own place.
pub proof fn law_index_stream_stands_so(
    key: Seq<u8>,
    nonce: Seq<u8>,
    offset: int,
    data: Seq<u8>,
    i: int,
)
    requires
        0 <= i < data.len(),
    ensures
        stream_xor(key, nonce, offset, data).len() == data.len(),
        stream_xor(key, nonce, offset, data)[i] == data[i] ^ xchacha20_keystream(
            key,
            nonce,
            offset + i,
        ),
{
}

/// What keys are derived from, and what is bound to them: each from its key material, under its
/// salt, for its own purpose.
pub proof fn law_keys_are_derived_so(
    k_data: Seq<u8>,
    k_index: Seq<u8>,
    vault_id: Seq<u8>,
    blob_id: Seq<u8>,
    file_id: Seq<u8>,
    master_key: Seq<u8>,
    purpose: Seq<u8>,
    wrapped: Seq<u8>,
    key: Seq<u8>,
)
    ensures
        file_key_of(k_data, vault_id, file_id) == hkdf_sha256(
            vault_id,
            k_data,
            "file/".spec_bytes() + file_id,
            32,
        ),
        mac_key_of(k_index, blob_id) == hkdf_sha256(
            blob_id,
            k_index,
            "index-mac".spec_bytes(),
            32,
        ),
        unwrapped_key(master_key, vault_id, purpose, wrapped) == Some(key) <==> key.len() == 32
            && xchacha20poly1305_open(
            master_key,
            hkdf_sha256(vault_id, master_key, "stable-wrap/".spec_bytes() + purpose, 24),
            vault_id + purpose,
            wrapped,
        ) == Some(key),
{
}

/// What the associated data of slots and chunks are, and what the MAC of an index is over.
pub proof fn law_bindings_stand_so(
    vault_id: Seq<u8>,
    blob_id: Seq<u8>,
    slot: u8,
    entry: ChunkView,
    k_mac: Seq<u8>,
    generation: u64,
    index_length: u64,
    ciphertext: Seq<u8>,
)
    ensures
        volatile_aad_of(vault_id, blob_id, slot) == vault_id + blob_id + seq![slot],
        chunk_aad_of(vault_id, blob_id, entry) == vault_id + blob_id + entry.file_id
            + spec_u64_to_le_bytes(entry.sequence_number) + spec_u64_to_le_bytes(
            entry.offset_in_blob,
        ),
        index_mac_of(k_mac, vault_id, blob_id, generation, index_length, ciphertext)
            == blake2b256_mac(
            k_mac,
            vault_id + blob_id + spec_u64_to_le_bytes(generation) + spec_u64_to_le_bytes(
                index_length,
            ) + ciphertext,
        ),
{
}

/// What a stable slot has to say to be opened, and what the blob then is.
pub open spec fn says_blob(
    plaintext: Seq<u8>,
    vault_id: Seq<u8>,
    master_key: Seq<u8>,
    b: BlobView,
) -> bool {
    &&& plaintext.len() >= 156
    &&& spec_u32_from_le_bytes(plaintext.subrange(0, 4)) == 1
    &&& plaintext.subrange(4, 20) == vault_id
    &&& b.vault_id == vault_id
    &&& b.blob_id == plaintext.subrange(20, 36)
    &&& unwrapped_key(
        master_key,
        vault_id,
        "K_data".spec_bytes(),
        plaintext.subrange(36, 84),
    ) == Some(b.keys.k_data)
    &&& unwrapped_key(
        master_key,
        vault_id,
        "K_index".spec_bytes(),
        plaintext.subrange(84, 132),
    ) == Some(b.keys.k_index)
    &&& b.keys.index_nonce == plaintext.subrange(132, 156)
    &&& b.keys.k_mac == hkdf_sha256(b.blob_id, b.keys.k_index, "index-mac".spec_bytes(), 32)
}

/// A blob opens exactly where its gaps and its paddings fit, and its stable slot opens under the
/// master key for the vault, is of the one version, names the vault, and holds keys that open. It is
/// the blob that the slot says. Each refusal has its reason.
pub proof fn law_stable_slot_says_the_blob(
    slot: Seq<u8>,
    vault_id: Seq<u8>,
    master_key: Seq<u8>,
    config: BlobConfig,
)
    ensures
        ({
            let fits = config.initial_leading_gap + config.initial_trailing_gap <= u64::MAX
                && config.relocation_leading_padding + config.relocation_trailing_padding
                <= u64::MAX;
            let found = open_frame(master_key, slot, vault_id);
            let known = found is Some && found->0.len() >= 156 && spec_u32_from_le_bytes(
                found->0.subrange(0, 4),
            ) == 1;
            match opened(slot, vault_id, master_key, config) {
                Ok(b) => fits && found is Some && b.config == config && says_blob(
                    found->0,
                    vault_id,
                    master_key,
                    b,
                ),
                Err(error) => {
                    &&& fits && found is Some ==> forall|b: BlobView|
                        !#[trigger] says_blob(found->0, vault_id, master_key, b)
                    &&& error == if !fits {
                        VaultError::IntegerOverflow
                    } else if known && found->0.subrange(4, 20) != vault_id {
                        VaultError::InvalidMasterKey
                    } else {
                        VaultError::AeadDecryptFailed
                    }
                },
            }
        }),
{
}

/// The two volatile slots are the two halves of the second half of the front matter.
pub proof fn law_slots_stand_so(image: Seq<u8>)
    requires
        image.len() >= 4096,
    ensures
        slots_in(image).take(1024) == image.subrange(2048, 3072),
        slots_in(image).skip(1024) == image.subrange(3072, 4096),
{
    assert(slots_in(image).take(1024) =~= image.subrange(2048, 3072));
    assert(slots_in(image).skip(1024) =~= image.subrange(3072, 4096));
}

/// The locator of the slot, where there is one.
pub open spec fn slot_says(
    b: BlobView,
    slot_index: u8,
    slot: Seq<u8>,
    locator: LocatorView,
) -> bool {
    let aad = b.vault_id + b.blob_id + seq![slot_index];
    let plaintext = open_frame(b.keys.k_index, slot, aad)->0;
    &&& open_frame(b.keys.k_index, slot, aad) is Some
    &&& plaintext.len() >= 56
    &&& locator.generation == spec_u64_from_le_bytes(plaintext.subrange(0, 8))
    &&& locator.index_offset == spec_u64_from_le_bytes(plaintext.subrange(8, 16))
    &&& locator.index_length == spec_u64_from_le_bytes(plaintext.subrange(16, 24))
    &&& locator.index_mac == plaintext.subrange(24, 56)
    &&& locator.slot_index == slot_index
}

/// The locator in force is that of a slot which opens under the index key, for this blob and this
/// slot. Of two such slots it is the one with the greater generation, and the first of the two
/// where they are equal. There is none exactly where neither slot opens.
pub proof fn law_newest_slot_is_in_force(b: BlobView, image: Seq<u8>)
    requires
        image.len() >= 4096,
    ensures
        ({
            let a = image.subrange(2048, 3072);
            let z = image.subrange(3072, 4096);
            let found = b.locators(slots_in(image));
            &&& found.len() <= 2
            &&& found.len() > 0 ==> slot_says(b, 0, a, b.active(image)) || slot_says(
                b,
                1,
                z,
                b.active(image),
            )
            &&& forall|locator: LocatorView| #[trigger]
                slot_says(b, 0, a, locator) ==> found.contains(locator) && b.active(
                    image,
                ).generation >= locator.generation && (b.active(image).generation
                    == locator.generation ==> b.active(image) == locator)
            &&& forall|locator: LocatorView| #[trigger]
                slot_says(b, 1, z, locator) ==> found.contains(locator) && b.active(
                    image,
                ).generation >= locator.generation
        }),
{
    law_slots_stand_so(image);
    let a = image.subrange(2048, 3072);
    let z = image.subrange(3072, 4096);
    let found = b.locators(slots_in(image));
    assert forall|locator: LocatorView| #[trigger] slot_says(b, 0, a, locator) implies
        b.slot_locator(0, a) == Some(locator) by {
        assert(b.slot_locator(0, a)->0 =~= locator);
    }
    assert forall|locator: LocatorView| #[trigger] slot_says(b, 1, z, locator) implies
        b.slot_locator(1, z) == Some(locator) by {
        assert(b.slot_locator(1, z)->0 =~= locator);
    }
    if found.len() > 0 {
        assert(found[0] == b.active(image));
    }
    if found.len() > 1 {
        assert(found[1] == found[1]);
    }
}

/// An index is accepted exactly where its MAC under the blob's MAC key, over the vault, the blob,
/// the generation and the length that its locator gives and the ciphertext, is the one that its
/// locator gives, and it decodes to its end. It lists what its plaintext decodes to.
pub proof fn law_index_is_authentic(b: BlobView, locator: LocatorView, ciphertext: Seq<u8>)
    requires
        ciphertext.len() <= 274_877_906_880,
    ensures
        ({
            let mac = blake2b256_mac(
                b.keys.k_mac,
                b.vault_id + b.blob_id + spec_u64_to_le_bytes(locator.generation)
                    + spec_u64_to_le_bytes(locator.index_length) + ciphertext,
            );
            let plaintext = Seq::new(
                ciphertext.len(),
                |i: int|
                    ciphertext[i] ^ xchacha20_keystream(b.keys.k_index, b.keys.index_nonce, i),
            );
            match b.index_of(locator, ciphertext) {
                Ok((index, found)) => {
                    &&& mac == locator.index_mac
                    &&& found == plaintext
                    &&& decoded(plaintext).complete
                    &&& index == decoded(plaintext).index
                },
                Err(error) => if mac != locator.index_mac {
                    error == VaultError::IndexMacMismatch
                } else {
                    error == VaultError::IndexChainBroken && !decoded(plaintext).complete
                },
            }
        }),
{
    let plaintext = Seq::new(
        ciphertext.len(),
        |i: int| ciphertext[i] ^ xchacha20_keystream(b.keys.k_index, b.keys.index_nonce, i),
    );
    assert(stream_xor(b.keys.k_index, b.keys.index_nonce, 0, ciphertext) =~= plaintext);
}

/// A chunk is handed out exactly where its frame opens under the key of its file, for this vault,
/// this blob, its file, its place in the file and its place in the blob, to as many bytes as the
/// entry says with the hash that the entry gives.
pub proof fn law_chunk_is_authentic(b: BlobView, entry: ChunkView, frame: Seq<u8>)
    ensures
        ({
            let key = hkdf_sha256(
                b.vault_id,
                b.keys.k_data,
                "file/".spec_bytes() + entry.file_id,
                32,
            );
            let aad = b.vault_id + b.blob_id + entry.file_id + spec_u64_to_le_bytes(
                entry.sequence_number,
            ) + spec_u64_to_le_bytes(entry.offset_in_blob);
            let found = open_frame(key, frame, aad);
            let right = found is Some && found->0.len() == entry.plaintext_length
                && blake2b256_digest(found->0) == entry.content_hash;
            b.chunk_of(entry, frame) == if right {
                Ok::<Seq<u8>, VaultError>(found->0)
            } else {
                Err(VaultError::AeadDecryptFailed)
            }
        }),
{
}

proof fn lemma_written_front(image: Seq<u8>, parts: CreatedParts)
    requires
        parts.stable_slot.len() == 2048,
        parts.slot_a.len() == 1024,
        parts.slot_b.len() == 1024,
        4096 + joined(parts.fill).len() <= u64::MAX,
    ensures
        ({
            let out = after_all(image, create_script(parts));
            &&& out.subrange(0, 2048) == parts.stable_slot
            &&& out.subrange(2048, 3072) == parts.slot_a
            &&& out.len() == 4096 + joined(parts.fill).len()
        }),
{
    let r0 = RequestView::Truncate;
    let r1 = RequestView::Write { offset: 0, bytes: parts.stable_slot };
    let r2 = RequestView::Write { offset: 2048, bytes: parts.slot_a };
    let r3 = RequestView::Write { offset: 3072, bytes: parts.slot_b };
    let front = seq![r0, r1, r2, r3];
    let run = run_writes(4096, parts.fill);
    let tail = seq![RequestView::Sync];
    let i1 = write_at(Seq::empty(), 0, parts.stable_slot);
    let i2 = write_at(i1, 2048, parts.slot_a);
    let i3 = write_at(i2, 3072, parts.slot_b);
    assert(after_all(image, front) == i3) by {
        assert(front.drop_last() =~= seq![r0, r1, r2]);
        assert(seq![r0, r1, r2].drop_last() =~= seq![r0, r1]);
        assert(seq![r0, r1].drop_last() =~= seq![r0]);
        assert(seq![r0].drop_last() =~= Seq::empty());
        reveal_with_fuel(after_all, 5);
    }
    lemma_after_all_concat(image, front, run);
    lemma_run_writes(i3, 4096, parts.fill);
    lemma_after_all_concat(image, front + run, tail);
    let written = after_all(image, front + run);
    assert(tail.drop_last() =~= Seq::<RequestView>::empty());
    assert(after_all(written, Seq::<RequestView>::empty()) == written);
    assert(after_all(written, tail) == written);
    assert(create_script(parts) == front + run + tail);
    let out = after_all(image, create_script(parts));
    assert(out == write_at(i3, 4096, joined(parts.fill)));
    assert(out.subrange(0, 2048) =~= parts.stable_slot);
    assert(out.subrange(2048, 3072) =~= parts.slot_a);
}

/// What the requests of creating a blob make of any file: the front matter and the two gaps, with a
/// stable slot that says the blob, and a first slot of generation zero that gives an empty index
/// between the gaps. The file is cut first and synced last.
pub proof fn law_new_file_stands_so(
    b: BlobView,
    master_key: Seq<u8>,
    requests: Seq<RequestView>,
    image: Seq<u8>,
)
    requires
        b.created_by(master_key, requests),
        4096 + b.config.initial_leading_gap + b.config.initial_trailing_gap <= u64::MAX,
    ensures
        requests[0] == RequestView::Truncate,
        requests.last() == RequestView::Sync,
        ({
            let out = after_all(image, requests);
            let stable = open_frame(master_key, out.subrange(0, 2048), b.vault_id);
            let locator = LocatorView {
                generation: 0,
                index_offset: (4096 + b.config.initial_leading_gap) as u64,
                index_length: 0,
                index_mac: index_mac_of(
                    b.keys.k_mac,
                    b.vault_id,
                    b.blob_id,
                    0,
                    0,
                    Seq::empty(),
                ),
                slot_index: 0,
            };
            &&& out.len() == 4096 + b.config.initial_leading_gap + b.config.initial_trailing_gap
            &&& stable is Some && says_blob(stable->0, b.vault_id, master_key, b)
            &&& slot_says(b, 0, out.subrange(2048, 3072), locator)
        }),
{
    let parts = choose|parts: CreatedParts| #[trigger]
        b.creates(master_key, parts) && requests == create_script(parts);
    assert(b.creates(master_key, parts) && requests == create_script(parts));
    lemma_written_front(image, parts);
    law_stable_slot_says_the_blob(parts.stable_slot, b.vault_id, master_key, b.config);
}

} // verus!
