//! An opened blob: what its keys make of the bytes in its file.

use vstd::bytes::{
    lemma_auto_spec_u64_to_from_le_bytes, spec_u64_from_le_bytes, spec_u64_to_le_bytes,
    u64_to_le_bytes,
};
use vstd::prelude::*;
use vstd::slice::slice_subrange;

use crate::bytes::{append_bytes, bytes_equal, checked_add, copy_array, read_u64};
use crate::crypto::{
    blake2b256, blake2b256_digest, compute_index_mac, constant_time_eq32, decrypt_frame,
    derive_file_key, derive_index_mac_key, encrypt_frame, file_key_of, index_mac_of,
    index_stream_decrypt_in_place, index_stream_xor, mac_key_of, open_frame, random_bytes,
    stream_xor, AEAD_MESSAGE_LIMIT, STREAM_LIMIT,
};
use crate::error::VaultError;
use crate::index::{
    chunk_aad, chunk_aad_of, decoded, parse_entries, volatile_aad, volatile_aad_of, BlobIndex,
    IndexView,
};
use crate::types::{chunk_views, BlobId, ChunkEntry, ChunkView, FileId, VaultId};

verus! {

/// Bytes in front of the body of a blob.
pub const FRONT_MATTER_LEN: u64 = 4096;

/// Bytes of the stable slot, which opens the front matter.
pub const STABLE_SLOT_LEN: usize = 2048;

/// Where volatile slot A stands.
pub const VOLATILE_A_OFFSET: u64 = 2048;

/// Where volatile slot B stands.
pub const VOLATILE_B_OFFSET: u64 = 3072;

/// Bytes of one volatile slot.
pub const VOLATILE_SLOT_LEN: usize = 1024;

/// Bytes of both volatile slots.
pub const VOLATILE_SLOTS_LEN: usize = 2048;

/// Bytes of a volatile slot's plaintext: the slot without nonce and tag.
pub const VOLATILE_PLAINTEXT_LEN: usize = 984;

/// Bytes of a volatile slot's plaintext that say something; the rest is padding.
pub const VOLATILE_PAYLOAD_LEN: usize = 56;

/// AEAD frame overhead per chunk (24-byte nonce + 16-byte tag).
pub const AEAD_FRAME_OVERHEAD: u64 = 40;

/// Writer and reader policy for values the format leaves to the application.
#[derive(Clone, Copy, Debug)]
pub struct BlobConfig {
    /// Random bytes between the data tail and the first index in a new blob.
    pub initial_leading_gap: u64,
    /// Random bytes after the index in a new blob.
    pub initial_trailing_gap: u64,
    /// Minimum leading gap that a relocation of the index leaves behind the new chunks.
    pub relocation_leading_padding: u64,
    /// Random bytes behind the index after a relocation.
    pub relocation_trailing_padding: u64,
    /// Reader retries after index MAC failure (concurrent writer / relocation).
    pub reader_retry_budget: usize,
    /// Emit diagnostics (also enabled when `VAULTBLOB_DEBUG` is set).
    pub diagnostics: bool,
}

impl Default for BlobConfig {
    fn default() -> (r: BlobConfig)
        ensures
            r.initial_leading_gap == 1024 * 1024,
            r.initial_trailing_gap == 1024 * 1024,
            r.relocation_leading_padding == 8 * 1024 * 1024,
            r.relocation_trailing_padding == 1024 * 1024,
            r.reader_retry_budget == 3,
            !r.diagnostics,
    {
        BlobConfig {
            initial_leading_gap: 1024 * 1024,
            initial_trailing_gap: 1024 * 1024,
            relocation_leading_padding: 8 * 1024 * 1024,
            relocation_trailing_padding: 1024 * 1024,
            reader_retry_budget: 3,
            diagnostics: false,
        }
    }
}

/// What [`validate_config`] asks: the two gaps fit into one length, and so do the two paddings.
pub open spec fn config_valid(config: BlobConfig) -> bool {
    &&& config.initial_leading_gap + config.initial_trailing_gap <= u64::MAX
    &&& config.relocation_leading_padding + config.relocation_trailing_padding <= u64::MAX
}

/// Refuses gaps and paddings that no file can hold.
pub fn validate_config(config: &BlobConfig) -> (r: Result<(), VaultError>)
    ensures
        config_valid(*config) ==> r == Ok::<(), VaultError>(()),
        !config_valid(*config) ==> r == Err::<(), VaultError>(VaultError::IntegerOverflow),
{
    match checked_add(config.initial_leading_gap, config.initial_trailing_gap) {
        Ok(_) => {},
        Err(error) => return Err(error),
    }
    match checked_add(config.relocation_leading_padding, config.relocation_trailing_padding) {
        Ok(_) => Ok(()),
        Err(error) => Err(error),
    }
}

/// The keys of one blob, and the nonce of its index stream.
pub struct BlobKeys {
    k_data: [u8; 32],
    k_index: [u8; 32],
    k_mac: [u8; 32],
    index_nonce: [u8; 24],
}

/// What [`BlobKeys`] holds.
#[verifier::ext_equal]
pub struct KeysView {
    pub k_data: Seq<u8>,
    pub k_index: Seq<u8>,
    pub k_mac: Seq<u8>,
    pub index_nonce: Seq<u8>,
}

impl View for BlobKeys {
    type V = KeysView;

    closed spec fn view(&self) -> KeysView {
        KeysView {
            k_data: self.k_data@,
            k_index: self.k_index@,
            k_mac: self.k_mac@,
            index_nonce: self.index_nonce@,
        }
    }
}

impl BlobKeys {
    /// The keys of a blob; the MAC key is derived from the index key.
    pub fn new(
        blob_id: &BlobId,
        k_data: [u8; 32],
        k_index: [u8; 32],
        index_nonce: [u8; 24],
    ) -> (r: BlobKeys)
        ensures
            r@ == keys_of(blob_id@, k_data@, k_index@, index_nonce@),
    {
        let k_mac = derive_index_mac_key(&k_index, blob_id);
        BlobKeys { k_data, k_index, k_mac, index_nonce }
    }
}

/// The keys of a blob; the MAC key is derived from the index key.
pub open spec fn keys_of(
    blob_id: Seq<u8>,
    k_data: Seq<u8>,
    k_index: Seq<u8>,
    index_nonce: Seq<u8>,
) -> KeysView {
    KeysView { k_data, k_index, k_mac: mac_key_of(k_index, blob_id), index_nonce }
}

/// An opened blob.
pub struct Blob {
    pub vault_id: VaultId,
    pub blob_id: BlobId,
    pub keys: BlobKeys,
    pub config: BlobConfig,
}

/// What a [`Blob`] is.
#[verifier::ext_equal]
pub struct BlobView {
    pub vault_id: Seq<u8>,
    pub blob_id: Seq<u8>,
    pub keys: KeysView,
    pub config: BlobConfig,
}

impl View for Blob {
    type V = BlobView;

    open spec fn view(&self) -> BlobView {
        BlobView {
            vault_id: self.vault_id@,
            blob_id: self.blob_id@,
            keys: self.keys@,
            config: self.config,
        }
    }
}

/// Where the index of a blob stands, how long it is and what authenticates it.
#[derive(Clone, Copy, Debug)]
pub struct Locator {
    pub generation: u64,
    pub index_offset: u64,
    pub index_length: u64,
    pub index_mac: [u8; 32],
    pub slot_index: u8,
}

/// What a [`Locator`] says.
#[verifier::ext_equal]
pub struct LocatorView {
    pub generation: u64,
    pub index_offset: u64,
    pub index_length: u64,
    pub index_mac: Seq<u8>,
    pub slot_index: u8,
}

impl View for Locator {
    type V = LocatorView;

    open spec fn view(&self) -> LocatorView {
        LocatorView {
            generation: self.generation,
            index_offset: self.index_offset,
            index_length: self.index_length,
            index_mac: self.index_mac@,
            slot_index: self.slot_index,
        }
    }
}

/// The views of a sequence of locators.
pub open spec fn locator_views(locators: Seq<Locator>) -> Seq<LocatorView> {
    Seq::new(locators.len(), |i: int| locators[i]@)
}

/// The payload of a volatile slot.
pub open spec fn locator_bytes(locator: LocatorView) -> Seq<u8> {
    spec_u64_to_le_bytes(locator.generation) + spec_u64_to_le_bytes(locator.index_offset)
        + spec_u64_to_le_bytes(locator.index_length) + locator.index_mac
}

/// The locator at the front of a volatile slot's plaintext.
pub open spec fn locator_at(plaintext: Seq<u8>, slot_index: u8) -> LocatorView {
    LocatorView {
        generation: spec_u64_from_le_bytes(plaintext.subrange(0, 8)),
        index_offset: spec_u64_from_le_bytes(plaintext.subrange(8, 16)),
        index_length: spec_u64_from_le_bytes(plaintext.subrange(16, 24)),
        index_mac: plaintext.subrange(24, 56),
        slot_index,
    }
}

/// Where a volatile slot stands.
pub open spec fn slot_offset(slot_index: u8) -> u64 {
    if slot_index == 0 {
        VOLATILE_A_OFFSET
    } else {
        VOLATILE_B_OFFSET
    }
}

impl BlobView {
    /// The locator in a volatile slot, where the slot is valid.
    pub open spec fn slot_locator(self, slot_index: u8, slot: Seq<u8>) -> Option<LocatorView> {
        match open_frame(
            self.keys.k_index,
            slot,
            volatile_aad_of(self.vault_id, self.blob_id, slot_index),
        ) {
            Some(plaintext) => if plaintext.len() >= VOLATILE_PAYLOAD_LEN {
                Some(locator_at(plaintext, slot_index))
            } else {
                None
            },
            None => None,
        }
    }

    /// The valid locators in the two volatile slots, the highest generation first; of two equal
    /// generations slot A comes first.
    pub open spec fn locators(self, slots: Seq<u8>) -> Seq<LocatorView> {
        match (
            self.slot_locator(0, slots.take(VOLATILE_SLOT_LEN as int)),
            self.slot_locator(1, slots.skip(VOLATILE_SLOT_LEN as int)),
        ) {
            (Some(a), Some(b)) => if b.generation > a.generation {
                seq![b, a]
            } else {
                seq![a, b]
            },
            (Some(a), None) => seq![a],
            (None, Some(b)) => seq![b],
            (None, None) => Seq::empty(),
        }
    }

    /// What an index ciphertext is under a locator: its entries and its plaintext. It is refused
    /// where the MAC does not fit, where no keystream reaches that far, and where it does not
    /// decode to its end.
    pub open spec fn index_of(self, locator: LocatorView, ciphertext: Seq<u8>) -> Result<
        (IndexView, Seq<u8>),
        VaultError,
    > {
        let plaintext = stream_xor(self.keys.k_index, self.keys.index_nonce, 0, ciphertext);
        if index_mac_of(
            self.keys.k_mac,
            self.vault_id,
            self.blob_id,
            locator.generation,
            locator.index_length,
            ciphertext,
        ) != locator.index_mac {
            Err(VaultError::IndexMacMismatch)
        } else if ciphertext.len() > STREAM_LIMIT {
            Err(VaultError::IntegerOverflow)
        } else if !decoded(plaintext).complete {
            Err(VaultError::IndexChainBroken)
        } else {
            Ok((decoded(plaintext).index, plaintext))
        }
    }

    /// The key of a file's chunks.
    pub open spec fn file_key(self, file_id: Seq<u8>) -> Seq<u8> {
        file_key_of(self.keys.k_data, self.vault_id, file_id)
    }

    /// What a chunk's frame holds: it is refused where it does not open, or where what it opens
    /// to has not the length or not the hash that the index gives.
    pub open spec fn chunk_of(self, entry: ChunkView, frame: Seq<u8>) -> Result<
        Seq<u8>,
        VaultError,
    > {
        match open_frame(
            self.file_key(entry.file_id),
            frame,
            chunk_aad_of(self.vault_id, self.blob_id, entry),
        ) {
            Some(plaintext) => if plaintext.len() == entry.plaintext_length && blake2b256_digest(
                plaintext,
            ) == entry.content_hash {
                Ok(plaintext)
            } else {
                Err(VaultError::AeadDecryptFailed)
            },
            None => Err(VaultError::AeadDecryptFailed),
        }
    }
}

/// The byte behind a chunk's frame.
pub open spec fn chunk_end(entry: ChunkView) -> int {
    entry.offset_in_blob + entry.plaintext_length + AEAD_FRAME_OVERHEAD
}

/// The byte behind the last frame, or the end of the front matter where there is none. No length
/// holds it where some frame ends beyond the largest offset.
pub open spec fn data_tail_of(chunks: Seq<ChunkView>) -> int
    decreases chunks.len(),
{
    if chunks.len() == 0 {
        FRONT_MATTER_LEN as int
    } else {
        let before = data_tail_of(chunks.drop_last());
        let end = chunk_end(chunks.last());
        if end > before {
            end
        } else {
            before
        }
    }
}

/// Every frame ends within the largest offset.
pub open spec fn chunk_ends_fit(chunks: Seq<ChunkView>) -> bool {
    forall|i: int| 0 <= i < chunks.len() ==> chunk_end(#[trigger] chunks[i]) <= u64::MAX
}

/// The byte behind the last frame that the index lists.
pub fn data_tail(index: &BlobIndex) -> (r: Result<u64, VaultError>)
    ensures
        chunk_ends_fit(index@.chunks) ==> r is Ok && r->Ok_0 == data_tail_of(index@.chunks),
        !chunk_ends_fit(index@.chunks) ==> r == Err::<u64, VaultError>(VaultError::IntegerOverflow),
{
    let mut tail: u64 = FRONT_MATTER_LEN;
    let mut i: usize = 0;
    let ghost views = index@.chunks;
    assert(views.take(0) =~= Seq::empty());
    while i < index.chunks.len()
        invariant
            i <= index.chunks@.len(),
            views == chunk_views(index.chunks@),
            chunk_ends_fit(views.take(i as int)),
            tail == data_tail_of(views.take(i as int)),
        decreases index.chunks@.len() - i,
    {
        let entry = index.chunks[i];
        assert(views[i as int] == entry@);
        assert(views.take(i + 1).drop_last() =~= views.take(i as int));
        let frame_len = match checked_add(entry.plaintext_length, AEAD_FRAME_OVERHEAD) {
            Ok(frame_len) => frame_len,
            Err(error) => {
                assert(chunk_end(views[i as int]) > u64::MAX);
                return Err(error);
            },
        };
        let end = match checked_add(entry.offset_in_blob, frame_len) {
            Ok(end) => end,
            Err(error) => {
                assert(chunk_end(views[i as int]) > u64::MAX);
                return Err(error);
            },
        };
        if end > tail {
            tail = end;
        }
        i += 1;
        assert forall|j: int| 0 <= j < i implies chunk_end(#[trigger] views.take(i as int)[j])
            <= u64::MAX by {
            if j < i - 1 {
                assert(views.take(i - 1)[j] == views.take(i as int)[j]);
            }
        }
    }
    assert(views.take(i as int) =~= views);
    Ok(tail)
}

impl Blob {
    /// The locator in a volatile slot, or nothing where the slot is not valid.
    pub fn read_volatile_slot(&self, slot_index: u8, slot: &[u8]) -> (r: Option<Locator>)
        ensures
            r is Some <==> self@.slot_locator(slot_index, slot@) is Some,
            r is Some ==> self@.slot_locator(slot_index, slot@) == Some(r->0@),
    {
        let aad = volatile_aad(self.vault_id, self.blob_id, slot_index);
        match decrypt_frame(&self.keys.k_index, slot, &aad) {
            Ok(plaintext) => {
                if plaintext.len() < VOLATILE_PAYLOAD_LEN {
                    return None;
                }
                let locator = Locator {
                    generation: read_u64(slice_subrange(&plaintext, 0, 8)),
                    index_offset: read_u64(slice_subrange(&plaintext, 8, 16)),
                    index_length: read_u64(slice_subrange(&plaintext, 16, 24)),
                    index_mac: copy_array(slice_subrange(&plaintext, 24, 56)),
                    slot_index,
                };
                proof {
                    let p = plaintext@;
                    assert(p.subrange(0, 8).take(8) =~= p.subrange(0, 8));
                    assert(p.subrange(8, 16).take(8) =~= p.subrange(8, 16));
                    assert(p.subrange(16, 24).take(8) =~= p.subrange(16, 24));
                    assert(p.subrange(24, 56).take(32) =~= p.subrange(24, 56));
                }
                Some(locator)
            },
            Err(_) => None,
        }
    }

    /// The valid locators in the two volatile slots, the highest generation first.
    pub fn read_sorted_locators(&self, slots: &[u8]) -> (r: Result<Vec<Locator>, VaultError>)
        requires
            slots@.len() == VOLATILE_SLOTS_LEN,
        ensures
            self@.locators(slots@).len() == 0 ==> r == Err::<Vec<Locator>, VaultError>(
                VaultError::NoValidLocator,
            ),
            self@.locators(slots@).len() > 0 ==> r is Ok && locator_views(r->Ok_0@)
                == self@.locators(slots@),
    {
        let a = self.read_volatile_slot(0, slice_subrange(slots, 0, VOLATILE_SLOT_LEN));
        let b = self.read_volatile_slot(1, slice_subrange(slots, VOLATILE_SLOT_LEN, slots.len()));
        let mut locators: Vec<Locator> = Vec::new();
        proof {
            assert(slots@.subrange(0, 1024) =~= slots@.take(1024));
            assert(slots@.subrange(1024, 2048) =~= slots@.skip(1024));
        }
        match (a, b) {
            (Some(a), Some(b)) => {
                if b.generation > a.generation {
                    locators.push(b);
                    locators.push(a);
                } else {
                    locators.push(a);
                    locators.push(b);
                }
            },
            (Some(a), None) => {
                locators.push(a);
            },
            (None, Some(b)) => {
                locators.push(b);
            },
            (None, None) => {
                return Err(VaultError::NoValidLocator);
            },
        }
        assert(locator_views(locators@) =~= self@.locators(slots@));
        Ok(locators)
    }

    /// The index that a locator points at, from the ciphertext that stands there.
    pub fn read_index_with_locator(&self, locator: &Locator, ciphertext: Vec<u8>) -> (r: Result<
        (BlobIndex, Vec<u8>),
        VaultError,
    >)
        ensures
            match r {
                Ok((index, plaintext)) => self@.index_of(locator@, ciphertext@) == Ok::<
                    (IndexView, Seq<u8>),
                    VaultError,
                >((index@, plaintext@)),
                Err(error) => self@.index_of(locator@, ciphertext@) == Err::<
                    (IndexView, Seq<u8>),
                    VaultError,
                >(error),
            },
    {
        let expected_mac = match compute_index_mac(
            &self.keys.k_mac,
            &self.vault_id,
            &self.blob_id,
            locator.generation,
            locator.index_length,
            &ciphertext,
        ) {
            Ok(mac) => mac,
            Err(error) => return Err(error),
        };
        if !constant_time_eq32(&expected_mac, &locator.index_mac) {
            return Err(VaultError::IndexMacMismatch);
        }
        let mut plaintext = ciphertext;
        match index_stream_decrypt_in_place(
            &self.keys.k_index,
            &self.keys.index_nonce,
            &mut plaintext,
        ) {
            Ok(()) => {},
            Err(error) => return Err(error),
        }
        let mut index = BlobIndex::default();
        match parse_entries(&plaintext, &mut index) {
            Ok(()) => {},
            Err(error) => return Err(error),
        }
        assert(index@ =~= decoded(plaintext@).index);
        Ok((index, plaintext))
    }

    /// The key of a file's chunks.
    pub fn file_key(&self, file_id: FileId) -> (r: Result<[u8; 32], VaultError>)
        ensures
            r is Ok,
            r->Ok_0@ == self@.file_key(file_id@),
    {
        derive_file_key(&self.keys.k_data, &self.vault_id, &file_id)
    }

    /// Seals a chunk under the key of its file, bound to its place.
    pub fn encrypt_chunk(&self, entry: &ChunkEntry, plaintext: &[u8]) -> (r: Result<
        Vec<u8>,
        VaultError,
    >)
        ensures
            plaintext@.len() > AEAD_MESSAGE_LIMIT ==> r == Err::<Vec<u8>, VaultError>(
                VaultError::AeadEncryptFailed,
            ),
            plaintext@.len() <= AEAD_MESSAGE_LIMIT ==> {
                &&& r is Ok
                &&& r->Ok_0@.len() == plaintext@.len() + AEAD_FRAME_OVERHEAD
                &&& open_frame(
                    self@.file_key(entry@.file_id),
                    r->Ok_0@,
                    chunk_aad_of(self@.vault_id, self@.blob_id, entry@),
                ) == Some(plaintext@)
            },
    {
        match self.file_key(entry.file_id) {
            Ok(k_file) => encrypt_frame(
                &k_file,
                plaintext,
                &chunk_aad(self.vault_id, self.blob_id, entry),
            ),
            Err(error) => Err(error),
        }
    }

    /// Opens a chunk's frame and holds what comes out against the index.
    pub fn decrypt_chunk(&self, entry: &ChunkEntry, frame: &[u8]) -> (r: Result<
        Vec<u8>,
        VaultError,
    >)
        ensures
            match r {
                Ok(plaintext) => self@.chunk_of(entry@, frame@) == Ok::<Seq<u8>, VaultError>(
                    plaintext@,
                ),
                Err(error) => self@.chunk_of(entry@, frame@) == Err::<Seq<u8>, VaultError>(error),
            },
    {
        let k_file = match self.file_key(entry.file_id) {
            Ok(key) => key,
            Err(error) => return Err(error),
        };
        let plaintext = match decrypt_frame(
            &k_file,
            frame,
            &chunk_aad(self.vault_id, self.blob_id, entry),
        ) {
            Ok(plaintext) => plaintext,
            Err(error) => return Err(error),
        };
        if plaintext.len() as u64 != entry.plaintext_length {
            return Err(VaultError::AeadDecryptFailed);
        }
        if !bytes_equal(&blake2b256(&plaintext), &entry.content_hash) {
            return Err(VaultError::AeadDecryptFailed);
        }
        Ok(plaintext)
    }

    /// A volatile slot that says what the locator says, padded at random and sealed.
    pub fn make_volatile_slot(&self, locator: &Locator) -> (r: Result<Vec<u8>, VaultError>)
        ensures
            r is Ok,
            r->Ok_0@.len() == VOLATILE_SLOT_LEN,
            self@.slot_locator(locator@.slot_index, r->Ok_0@) == Some(locator@),
    {
        let mut plaintext: Vec<u8> = u64_to_le_bytes(locator.generation);
        append_bytes(&mut plaintext, &u64_to_le_bytes(locator.index_offset));
        append_bytes(&mut plaintext, &u64_to_le_bytes(locator.index_length));
        append_bytes(&mut plaintext, &locator.index_mac);
        append_bytes(
            &mut plaintext,
            &random_bytes(VOLATILE_PLAINTEXT_LEN - VOLATILE_PAYLOAD_LEN),
        );
        proof {
            lemma_locator_round_trip(locator@, plaintext@.skip(56));
            assert(plaintext@ =~= locator_bytes(locator@) + plaintext@.skip(56));
        }
        encrypt_frame(
            &self.keys.k_index,
            &plaintext,
            &volatile_aad(self.vault_id, self.blob_id, locator.slot_index),
        )
    }

    /// The MAC of an index of this blob.
    pub fn index_mac(&self, generation: u64, ciphertext: &[u8]) -> (r: Result<[u8; 32], VaultError>)
        ensures
            r is Ok,
            r->Ok_0@ == index_mac_of(
                self@.keys.k_mac,
                self@.vault_id,
                self@.blob_id,
                generation,
                ciphertext@.len() as u64,
                ciphertext@,
            ),
    {
        compute_index_mac(
            &self.keys.k_mac,
            &self.vault_id,
            &self.blob_id,
            generation,
            ciphertext.len() as u64,
            ciphertext,
        )
    }

    /// Encrypts entries that go into the index at `stream_offset`.
    pub fn encrypt_index_entries(&self, stream_offset: u64, entries: &[u8]) -> (r: Result<
        Vec<u8>,
        VaultError,
    >)
        ensures
            stream_offset + entries@.len() > STREAM_LIMIT ==> r == Err::<Vec<u8>, VaultError>(
                VaultError::IntegerOverflow,
            ),
            stream_offset + entries@.len() <= STREAM_LIMIT ==> r is Ok && r->Ok_0@ == stream_xor(
                self@.keys.k_index,
                self@.keys.index_nonce,
                stream_offset as int,
                entries@,
            ),
    {
        index_stream_xor(&self.keys.k_index, &self.keys.index_nonce, stream_offset, entries)
    }
}

/// A volatile slot's plaintext gives back the locator that was put into it.
pub proof fn lemma_locator_round_trip(locator: LocatorView, padding: Seq<u8>)
    requires
        locator.index_mac.len() == 32,
    ensures
        locator_bytes(locator).len() == VOLATILE_PAYLOAD_LEN,
        locator_at(locator_bytes(locator) + padding, locator.slot_index) == locator,
{
    lemma_auto_spec_u64_to_from_le_bytes();
    let bytes = locator_bytes(locator) + padding;
    assert(bytes.subrange(0, 8) =~= spec_u64_to_le_bytes(locator.generation));
    assert(bytes.subrange(8, 16) =~= spec_u64_to_le_bytes(locator.index_offset));
    assert(bytes.subrange(16, 24) =~= spec_u64_to_le_bytes(locator.index_length));
    assert(bytes.subrange(24, 56) =~= locator.index_mac);
}

} // verus!
