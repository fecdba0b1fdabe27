//! How a blob comes into being, and how its keys are found again.
//!
//! The stable slot at the front of the file holds the blob's identity and its keys, sealed under
//! the vault's master key. It is written once.

use vstd::bytes::{
    lemma_auto_spec_u32_to_from_le_bytes, spec_u32_from_le_bytes, spec_u32_to_le_bytes,
    u32_from_le_bytes, u32_to_le_bytes,
};
use vstd::prelude::*;
use vstd::slice::slice_subrange;
use vstd::string::StringSliceAdditionalSpecFns;

use crate::blob::{
    config_valid, keys_of, validate_config, Blob, BlobConfig, BlobKeys, BlobView, Locator,
    LocatorView, FRONT_MATTER_LEN, STABLE_SLOT_LEN, VOLATILE_A_OFFSET, VOLATILE_B_OFFSET,
    VOLATILE_SLOT_LEN,
};
use crate::bytes::{append_bytes, copy_array};
use crate::commit::{
    fill_pieces, joined, piece_views, push_request, push_run, run_writes, FILL_PIECE_LEN,
};
use crate::consistency::{index_bytes, lemma_run_writes, slots_in};
use crate::crypto::{
    decrypt_frame, encrypt_frame, index_mac_of, open_frame, random_bytes, stream_xor,
    unwrap_stable_key, unwrapped_key, wrap_stable_key,
};
use crate::error::VaultError;
use crate::index::{decoded, empty_index};
use crate::storage::{
    after_all, lemma_after_all_concat, request_views, write_at, Request, RequestView,
};
use crate::types::{BlobId, VaultId, VaultMasterKey};

verus! {

/// The version of the format.
pub const FORMAT_VERSION: u32 = 1;

/// Bytes of the stable slot's plaintext: the slot without nonce and tag.
pub const STABLE_PLAINTEXT_LEN: usize = 2008;

/// Bytes of the stable slot's plaintext that say something; the rest is padding.
pub const STABLE_PAYLOAD_LEN: usize = 156;

/// The blob that a stable slot describes. The slot is refused where the master key or the vault
/// is not the one that sealed it, where it is of another version, and where a key in it does not
/// open.
pub open spec fn opened(
    slot: Seq<u8>,
    expected_vault_id: Seq<u8>,
    master_key: Seq<u8>,
    config: BlobConfig,
) -> Result<BlobView, VaultError> {
    if !config_valid(config) {
        Err(VaultError::IntegerOverflow)
    } else {
        match open_frame(master_key, slot, expected_vault_id) {
            None => Err(VaultError::AeadDecryptFailed),
            Some(plaintext) => opened_payload(plaintext, expected_vault_id, master_key, config),
        }
    }
}

/// The blob that the plaintext of a stable slot describes.
pub open spec fn opened_payload(
    plaintext: Seq<u8>,
    expected_vault_id: Seq<u8>,
    master_key: Seq<u8>,
    config: BlobConfig,
) -> Result<BlobView, VaultError> {
    let vault_id = plaintext.subrange(4, 20);
    let blob_id = plaintext.subrange(20, 36);
    if plaintext.len() < STABLE_PAYLOAD_LEN {
        Err(VaultError::AeadDecryptFailed)
    } else if spec_u32_from_le_bytes(plaintext.subrange(0, 4)) != FORMAT_VERSION {
        Err(VaultError::AeadDecryptFailed)
    } else if vault_id != expected_vault_id {
        Err(VaultError::InvalidMasterKey)
    } else {
        match (
            unwrapped_key(
                master_key,
                vault_id,
                "K_data".spec_bytes(),
                plaintext.subrange(36, 84),
            ),
            unwrapped_key(
                master_key,
                vault_id,
                "K_index".spec_bytes(),
                plaintext.subrange(84, 132),
            ),
        ) {
            (Some(k_data), Some(k_index)) => Ok(
                BlobView {
                    vault_id,
                    blob_id,
                    keys: keys_of(blob_id, k_data, k_index, plaintext.subrange(132, 156)),
                    config,
                },
            ),
            _ => Err(VaultError::AeadDecryptFailed),
        }
    }
}

impl Blob {
    /// Opens a blob from its stable slot.
    pub fn from_existing(
        stable_slot: &[u8],
        expected_vault_id: VaultId,
        master_key: &VaultMasterKey,
        config: BlobConfig,
    ) -> (r: Result<Blob, VaultError>)
        ensures
            match r {
                Ok(blob) => opened(stable_slot@, expected_vault_id@, master_key@, config) == Ok::<
                    BlobView,
                    VaultError,
                >(blob@),
                Err(error) => opened(stable_slot@, expected_vault_id@, master_key@, config)
                    == Err::<BlobView, VaultError>(error),
            },
    {
        match validate_config(&config) {
            Ok(()) => {},
            Err(error) => return Err(error),
        }
        let stable = match decrypt_frame(&master_key.0, stable_slot, &expected_vault_id.0) {
            Ok(plaintext) => plaintext,
            Err(error) => return Err(error),
        };
        if stable.len() < STABLE_PAYLOAD_LEN {
            return Err(VaultError::AeadDecryptFailed);
        }
        let ghost p = stable@;
        proof {
            assert(p.subrange(4, 20).take(16) =~= p.subrange(4, 20));
            assert(p.subrange(20, 36).take(16) =~= p.subrange(20, 36));
            assert(p.subrange(36, 84).take(48) =~= p.subrange(36, 84));
            assert(p.subrange(84, 132).take(48) =~= p.subrange(84, 132));
            assert(p.subrange(132, 156).take(24) =~= p.subrange(132, 156));
        }
        if u32_from_le_bytes(slice_subrange(&stable, 0, 4)) != FORMAT_VERSION {
            return Err(VaultError::AeadDecryptFailed);
        }
        let vault_id = VaultId(copy_array(slice_subrange(&stable, 4, 20)));
        if vault_id != expected_vault_id {
            return Err(VaultError::InvalidMasterKey);
        }
        let blob_id = BlobId(copy_array(slice_subrange(&stable, 20, 36)));
        let wrapped_k_data: [u8; 48] = copy_array(slice_subrange(&stable, 36, 84));
        let wrapped_k_index: [u8; 48] = copy_array(slice_subrange(&stable, 84, 132));
        let k_data = match unwrap_stable_key(
            &master_key.0,
            &vault_id,
            "K_data",
            &wrapped_k_data,
        ) {
            Ok(key) => key,
            Err(error) => return Err(error),
        };
        let k_index = match unwrap_stable_key(
            &master_key.0,
            &vault_id,
            "K_index",
            &wrapped_k_index,
        ) {
            Ok(key) => key,
            Err(error) => return Err(error),
        };
        let index_nonce: [u8; 24] = copy_array(slice_subrange(&stable, 132, 156));
        let keys = BlobKeys::new(&blob_id, k_data, k_index, index_nonce);
        Ok(Blob { vault_id, blob_id, keys, config })
    }
}

/// What a new blob is written as.
#[verifier::ext_equal]
pub struct CreatedParts {
    pub stable_slot: Seq<u8>,
    pub slot_a: Seq<u8>,
    pub slot_b: Seq<u8>,
    pub fill: Seq<Seq<u8>>,
}

impl BlobView {
    /// The locator of a new blob: an empty index behind the leading gap.
    pub open spec fn first_locator(self) -> LocatorView {
        LocatorView {
            generation: 0,
            index_offset: (FRONT_MATTER_LEN + self.config.initial_leading_gap) as u64,
            index_length: 0,
            index_mac: index_mac_of(
                self.keys.k_mac,
                self.vault_id,
                self.blob_id,
                0,
                0,
                Seq::empty(),
            ),
            slot_index: 0,
        }
    }

    /// The parts are those of this blob when it is new: the stable slot opens to it, volatile slot
    /// A points at an empty index, slot B is random, and so is the body.
    pub open spec fn creates(self, master_key: Seq<u8>, parts: CreatedParts) -> bool {
        &&& parts.stable_slot.len() == STABLE_SLOT_LEN
        &&& opened(parts.stable_slot, self.vault_id, master_key, self.config) == Ok::<
            BlobView,
            VaultError,
        >(self)
        &&& parts.slot_a.len() == VOLATILE_SLOT_LEN
        &&& self.slot_locator(0, parts.slot_a) == Some(self.first_locator())
        &&& parts.slot_b.len() == VOLATILE_SLOT_LEN
        &&& joined(parts.fill).len() == self.config.initial_leading_gap
            + self.config.initial_trailing_gap
        &&& forall|i: int|
            0 <= i < parts.fill.len() ==> 0 < (#[trigger] parts.fill[i]).len() <= FILL_PIECE_LEN
    }

    /// The requests are those of creating this blob.
    pub open spec fn created_by(self, master_key: Seq<u8>, requests: Seq<RequestView>) -> bool {
        exists|parts: CreatedParts| #[trigger]
            self.creates(master_key, parts) && requests == create_script(parts)
    }
}

/// What creates a blob: the file is cut, then the front matter and the body are written.
pub open spec fn create_script(parts: CreatedParts) -> Seq<RequestView> {
    seq![
        RequestView::Truncate,
        RequestView::Write { offset: 0, bytes: parts.stable_slot },
        RequestView::Write { offset: VOLATILE_A_OFFSET, bytes: parts.slot_a },
        RequestView::Write { offset: VOLATILE_B_OFFSET, bytes: parts.slot_b },
    ] + run_writes(FRONT_MATTER_LEN as int, parts.fill) + seq![RequestView::Sync]
}

/// Why a blob cannot be created: its first file would be longer than any file.
pub open spec fn create_refusal(config: BlobConfig) -> Option<VaultError> {
    if !config_valid(config) || FRONT_MATTER_LEN + config.initial_leading_gap
        + config.initial_trailing_gap > u64::MAX {
        Some(VaultError::IntegerOverflow)
    } else {
        None
    }
}

impl Blob {
    /// Draws the identity and the keys of a new blob, and says how its file is to be written.
    pub fn create_new(vault_id: VaultId, master_key: &VaultMasterKey, config: BlobConfig) -> (r:
        Result<(Blob, Vec<Request>), VaultError>)
        ensures
            match create_refusal(config) {
                Some(error) => r == Err::<(Blob, Vec<Request>), VaultError>(error),
                None => {
                    &&& r is Ok
                    &&& r->Ok_0.0@.vault_id == vault_id@
                    &&& r->Ok_0.0@.config == config
                    &&& r->Ok_0.0@.created_by(master_key@, request_views(r->Ok_0.1@))
                },
            },
    {
        match validate_config(&config) {
            Ok(()) => {},
            Err(error) => return Err(error),
        }
        let body_len: u64 = config.initial_leading_gap + config.initial_trailing_gap;
        if body_len > u64::MAX - FRONT_MATTER_LEN {
            return Err(VaultError::IntegerOverflow);
        }
        let blob_id = BlobId(copy_array(&random_bytes(16)));
        let k_data: [u8; 32] = copy_array(&random_bytes(32));
        let k_index: [u8; 32] = copy_array(&random_bytes(32));
        let index_nonce: [u8; 24] = copy_array(&random_bytes(24));
        let keys = BlobKeys::new(&blob_id, k_data, k_index, index_nonce);
        let blob = Blob { vault_id, blob_id, keys, config };
        let stable_slot = match make_stable_slot(
            &vault_id,
            &blob_id,
            master_key,
            &k_data,
            &k_index,
            &index_nonce,
        ) {
            Ok(slot) => slot,
            Err(error) => return Err(error),
        };
        let no_bytes: Vec<u8> = Vec::new();
        let index_mac = match blob.index_mac(0, &no_bytes) {
            Ok(mac) => mac,
            Err(error) => return Err(error),
        };
        let locator = Locator {
            generation: 0,
            index_offset: FRONT_MATTER_LEN + config.initial_leading_gap,
            index_length: 0,
            index_mac,
            slot_index: 0,
        };
        let slot_a = match blob.make_volatile_slot(&locator) {
            Ok(slot) => slot,
            Err(error) => return Err(error),
        };
        let slot_b = random_bytes(VOLATILE_SLOT_LEN);
        let fill = fill_pieces(body_len);
        let ghost parts = CreatedParts {
            stable_slot: stable_slot@,
            slot_a: slot_a@,
            slot_b: slot_b@,
            fill: piece_views(fill@),
        };
        let mut requests: Vec<Request> = Vec::new();
        push_request(&mut requests, Request::Truncate);
        push_request(&mut requests, Request::Write { offset: 0, bytes: stable_slot });
        push_request(&mut requests, Request::Write { offset: VOLATILE_A_OFFSET, bytes: slot_a });
        push_request(&mut requests, Request::Write { offset: VOLATILE_B_OFFSET, bytes: slot_b });
        push_run(&mut requests, FRONT_MATTER_LEN, &fill);
        push_request(&mut requests, Request::Sync);
        proof {
            assert(request_views(requests@) =~= create_script(parts));
            assert(no_bytes@ =~= Seq::empty());
            assert(locator@ =~= blob@.first_locator());
            assert(blob@.creates(master_key@, parts));
        }
        Ok((blob, requests))
    }
}

/// Seals the identity and the keys of a blob under the master key. The slot opens to them again.
fn make_stable_slot(
    vault_id: &VaultId,
    blob_id: &BlobId,
    master_key: &VaultMasterKey,
    k_data: &[u8; 32],
    k_index: &[u8; 32],
    index_nonce: &[u8; 24],
) -> (r: Result<Vec<u8>, VaultError>)
    ensures
        r is Ok,
        r->Ok_0@.len() == STABLE_SLOT_LEN,
        forall|config: BlobConfig|
            config_valid(config) ==> #[trigger] opened(
                r->Ok_0@,
                vault_id@,
                master_key@,
                config,
            ) == Ok::<BlobView, VaultError>(
                (BlobView {
                    vault_id: vault_id@,
                    blob_id: blob_id@,
                    keys: keys_of(blob_id@, k_data@, k_index@, index_nonce@),
                    config,
                }),
            ),
{
    let wrapped_k_data = match wrap_stable_key(&master_key.0, vault_id, "K_data", k_data) {
        Ok(wrapped) => wrapped,
        Err(error) => return Err(error),
    };
    let wrapped_k_index = match wrap_stable_key(&master_key.0, vault_id, "K_index", k_index) {
        Ok(wrapped) => wrapped,
        Err(error) => return Err(error),
    };
    let mut plaintext: Vec<u8> = u32_to_le_bytes(FORMAT_VERSION);
    append_bytes(&mut plaintext, &vault_id.0);
    append_bytes(&mut plaintext, &blob_id.0);
    append_bytes(&mut plaintext, &wrapped_k_data);
    append_bytes(&mut plaintext, &wrapped_k_index);
    append_bytes(&mut plaintext, index_nonce);
    append_bytes(&mut plaintext, &random_bytes(STABLE_PLAINTEXT_LEN - STABLE_PAYLOAD_LEN));
    proof {
        lemma_auto_spec_u32_to_from_le_bytes();
        let p = plaintext@;
        assert(p.subrange(0, 4) =~= spec_u32_to_le_bytes(FORMAT_VERSION));
        assert(p.subrange(4, 20) =~= vault_id@);
        assert(p.subrange(20, 36) =~= blob_id@);
        assert(p.subrange(36, 84) =~= wrapped_k_data@);
        assert(p.subrange(84, 132) =~= wrapped_k_index@);
        assert(p.subrange(132, 156) =~= index_nonce@);
    }
    encrypt_frame(&master_key.0, &plaintext, &vault_id.0)
}

/// A new blob is consistent and lists nothing, and opening its file with the same master key gives
/// the same blob again.
///
/// Slot B is filled at random and must not by chance be a valid slot.
pub proof fn law_created_blob_is_consistent(
    b: BlobView,
    image: Seq<u8>,
    master_key: Seq<u8>,
    parts: CreatedParts,
)
    requires
        b.creates(master_key, parts),
        create_refusal(b.config) is None,
        b.slot_locator(1, parts.slot_b) is None,
    ensures
        ({
            let out = after_all(image, create_script(parts));
            &&& b.consistent(out)
            &&& b.entries(out) == empty_index()
            &&& b.active(out) == b.first_locator()
            &&& opened(out.subrange(0, 2048), b.vault_id, master_key, b.config) == Ok::<
                BlobView,
                VaultError,
            >(b)
            &&& out.len() == FRONT_MATTER_LEN + b.config.initial_leading_gap
                + b.config.initial_trailing_gap
        }),
{
    let r0 = RequestView::Truncate;
    let r1 = RequestView::Write { offset: 0, bytes: parts.stable_slot };
    let r2 = RequestView::Write { offset: VOLATILE_A_OFFSET, bytes: parts.slot_a };
    let r3 = RequestView::Write { offset: VOLATILE_B_OFFSET, bytes: parts.slot_b };
    let front = seq![r0, r1, r2, r3];
    let run = run_writes(FRONT_MATTER_LEN as int, parts.fill);
    let tail = seq![RequestView::Sync];
    let i1 = write_at(Seq::empty(), 0, parts.stable_slot);
    let i2 = write_at(i1, 2048, parts.slot_a);
    let i3 = write_at(i2, 3072, parts.slot_b);
    assert(after_all(image, front) == i3) by {
        assert(front.drop_last() =~= seq![r0, r1, r2]);
        assert(seq![r0, r1, r2].drop_last() =~= seq![r0, r1]);
        assert(seq![r0, r1].drop_last() =~= seq![r0]);
        assert(seq![r0].drop_last() =~= Seq::empty());
        reveal_with_fuel(after_all, 5);
    }
    lemma_after_all_concat(image, front, run);
    lemma_run_writes(i3, FRONT_MATTER_LEN as int, parts.fill);
    lemma_after_all_concat(image, front + run, tail);
    let out = after_all(image, create_script(parts));
    let written = after_all(image, front + run);
    assert(tail.drop_last() =~= Seq::<RequestView>::empty());
    assert(after_all(written, Seq::<RequestView>::empty()) == written);
    assert(after_all(written, tail) == written);
    assert(out == write_at(i3, 4096, joined(parts.fill)));
    assert(out.subrange(0, 2048) =~= parts.stable_slot);
    assert(slots_in(out).take(1024) =~= parts.slot_a);
    assert(slots_in(out).skip(1024) =~= parts.slot_b);
    assert(index_bytes(b.first_locator(), out) =~= Seq::empty());
    let plaintext = stream_xor(b.keys.k_index, b.keys.index_nonce, 0, Seq::empty());
    assert(plaintext =~= Seq::empty());
    assert(decoded(plaintext).complete);
}

} // verus!
