//! Where the bytes of a blob file go, over the whole life of the blob.

use vstd::prelude::*;

use crate::blob::{BlobView, AEAD_FRAME_OVERHEAD, FRONT_MATTER_LEN};
use crate::commit::{Placement, Sealed};
use crate::consistency::{index_bytes, law_transaction_commits, lemma_tail_in_front_of_index};
use crate::create::{create_refusal, create_script, law_created_blob_is_consistent, CreatedParts};
use crate::index::{decoded, NewChunkView, INDEX_CHUNK_ENTRY_BYTES, INDEX_FILE_COMPLETE_ENTRY_BYTES};
use crate::read::layout_in;
use crate::stats::{law_packed_file_is_accounted_for, law_packing_is_kept, packed, BlobLayoutStats};
use crate::storage::after_all;
use crate::types::CompleteView;

verus! {

/// An index that decodes to the end is as long as its entries: so many bytes for each chunk and so
/// many for each completion marker.
pub proof fn law_index_is_its_entries(bytes: Seq<u8>)
    requires
        decoded(bytes).complete,
    ensures
        bytes.len() == INDEX_CHUNK_ENTRY_BYTES * decoded(bytes).index.chunks.len()
            + INDEX_FILE_COMPLETE_ENTRY_BYTES * decoded(bytes).index.completed_files.len(),
    decreases bytes.len(),
{
    if bytes.len() > 0 {
        if bytes[0] == 1 {
            law_index_is_its_entries(bytes.skip(73));
        } else {
            law_index_is_its_entries(bytes.skip(57));
        }
    }
}

impl BlobView {
    /// The file is consistent, and its chunks stand one behind the other from the end of the front
    /// matter on.
    pub open spec fn orderly(self, image: Seq<u8>) -> bool {
        self.consistent(image) && packed(self.entries(image).chunks)
    }

    /// The file is what creating the blob makes of some file. The random second slot is no valid
    /// slot by chance.
    pub open spec fn created_as(
        self,
        image: Seq<u8>,
        before: Seq<u8>,
        master_key: Seq<u8>,
        parts: CreatedParts,
    ) -> bool {
        &&& self.creates(master_key, parts)
        &&& create_refusal(self.config) is None
        &&& self.slot_locator(1, parts.slot_b) is None
        &&& image == after_all(before, create_script(parts))
    }

    /// The file came of another by a transaction.
    pub open spec fn advanced(self, image: Seq<u8>, out: Seq<u8>) -> bool {
        exists|
            chunks: Seq<NewChunkView>,
            completes: Seq<CompleteView>,
            place: Placement,
            sealed: Sealed,
        | #[trigger]
            self.wrote(image, chunks, completes, place, sealed, out)
    }

    /// The file went through these states: it was created, and then transactions were carried out.
    pub open spec fn lived(self, images: Seq<Seq<u8>>) -> bool {
        &&& images.len() > 0
        &&& exists|before: Seq<u8>, master_key: Seq<u8>, parts: CreatedParts| #[trigger]
            self.created_as(images[0], before, master_key, parts)
        &&& forall|k: int|
            #![trigger images[k]]
            0 < k < images.len() ==> self.advanced(images[k - 1], images[k])
    }
}

/// A blob starts orderly.
pub proof fn law_created_blob_is_orderly(
    b: BlobView,
    image: Seq<u8>,
    before: Seq<u8>,
    master_key: Seq<u8>,
    parts: CreatedParts,
)
    requires
        b.created_as(image, before, master_key, parts),
    ensures
        b.orderly(image),
{
    law_created_blob_is_consistent(b, before, master_key, parts);
}

/// A transaction keeps a blob orderly.
pub proof fn law_write_keeps_order(
    b: BlobView,
    image: Seq<u8>,
    chunks: Seq<NewChunkView>,
    completes: Seq<CompleteView>,
    place: Placement,
    sealed: Sealed,
    out: Seq<u8>,
)
    requires
        b.orderly(image),
        b.wrote(image, chunks, completes, place, sealed, out),
    ensures
        b.orderly(out),
{
    law_transaction_commits(b, image, chunks, completes, place, sealed);
    law_packing_is_kept(b.entries(image).chunks, chunks);
}

/// Every state of a blob that was created and written to is orderly.
pub proof fn law_blob_lives_orderly(b: BlobView, images: Seq<Seq<u8>>, k: int)
    requires
        b.lived(images),
        0 <= k < images.len(),
    ensures
        b.orderly(images[k]),
    decreases k,
{
    if k == 0 {
        let (before, master_key, parts) = choose|
            before: Seq<u8>,
            master_key: Seq<u8>,
            parts: CreatedParts,
        | #[trigger]
            b.created_as(images[0], before, master_key, parts);
        law_created_blob_is_orderly(b, images[0], before, master_key, parts);
    } else {
        law_blob_lives_orderly(b, images, k - 1);
        assert(b.advanced(images[k - 1], images[k]));
        let (chunks, completes, place, sealed) = choose|
            chunks: Seq<NewChunkView>,
            completes: Seq<CompleteView>,
            place: Placement,
            sealed: Sealed,
        | #[trigger]
            b.wrote(images[k - 1], chunks, completes, place, sealed, images[k]);
        law_write_keeps_order(
            b,
            images[k - 1],
            chunks,
            completes,
            place,
            sealed,
            images[k],
        );
    }
}

/// The breakdown says that no byte is lost: there are no gaps but the leading and the trailing one,
/// the frames and the index are as long as what they hold, and the parts add up to the file.
pub open spec fn accounts_for_all(stats: BlobLayoutStats) -> bool {
    &&& stats.gap_before_first_chunk_bytes == 0
    &&& stats.inter_chunk_gap_bytes == 0
    &&& stats.body_unclassified_bytes == 0
    &&& stats.chunk_frame_bytes == stats.chunk_plaintext_bytes + AEAD_FRAME_OVERHEAD
        * stats.chunk_count
    &&& stats.index_length == INDEX_CHUNK_ENTRY_BYTES * stats.chunk_count
        + INDEX_FILE_COMPLETE_ENTRY_BYTES * stats.file_complete_count
    &&& stats.index_entry_plaintext_bytes == stats.index_length
    &&& stats.data_tail == FRONT_MATTER_LEN + stats.chunk_frame_bytes
    &&& FRONT_MATTER_LEN + stats.chunk_frame_bytes + stats.leading_gap_bytes + stats.index_length
        + stats.trailing_gap_bytes == stats.file_size
}

/// The layout of an orderly blob accounts for every byte of its file.
pub proof fn law_orderly_blob_is_accounted_for(b: BlobView, image: Seq<u8>)
    requires
        b.orderly(image),
        b.active(image).index_length <= usize::MAX,
    ensures
        layout_in(b, image) matches Some(Ok(stats)) && accounts_for_all(stats)
            && stats.chunk_count == b.entries(image).chunks.len() && stats.file_complete_count
            == b.entries(image).completed_files.len() && stats.file_size == image.len(),
{
    let locator = b.active(image);
    let index = b.entries(image);
    let plaintext = b.stored(image)->Ok_0.1;
    if locator.index_length == 0 {
        assert(index_bytes(locator, image) =~= Seq::empty());
    }
    law_index_is_its_entries(plaintext);
    lemma_tail_in_front_of_index(b, image);
    law_packed_file_is_accounted_for(
        locator,
        index,
        plaintext.len() as int,
        image.len() as int,
    );
}

/// Measuring a blob that was created and then written to accounts for every byte of its file, at
/// every time.
pub proof fn law_lived_blob_is_accounted_for(b: BlobView, images: Seq<Seq<u8>>, k: int)
    requires
        b.lived(images),
        0 <= k < images.len(),
        b.active(images[k]).index_length <= usize::MAX,
    ensures
        layout_in(b, images[k]) matches Some(Ok(stats)) && accounts_for_all(stats)
            && stats.chunk_count == b.entries(images[k]).chunks.len()
            && stats.file_complete_count == b.entries(images[k]).completed_files.len()
            && stats.file_size == images[k].len(),
{
    law_blob_lives_orderly(b, images, k);
    law_orderly_blob_is_accounted_for(b, images[k]);
}

} // verus!
