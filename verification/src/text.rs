//! What the library says and reads in words: identities, sizes, locators and errors.

use vstd::prelude::*;
use vstd::slice::slice_subrange;
use vstd::string::{StrSliceExecFns, StringExecFns};

use crate::bytes::copy_array;
use crate::error::VaultError;
use crate::types::{BlobId, FileId};

verus! {

/// The character of a decimal digit.
pub open spec fn digit_char(d: int) -> char {
    (48 + d) as char
}

/// The decimal digits of a number, without leading zeros.
pub open spec fn decimal(n: nat) -> Seq<char>
    decreases n,
{
    if n < 10 {
        seq![digit_char(n as int)]
    } else {
        decimal(n / 10).push(digit_char((n % 10) as int))
    }
}

/// A string of one character for every decimal digit.
fn digit_str(d: u64) -> (r: &'static str)
    requires
        d < 10,
    ensures
        r@ == seq![digit_char(d as int)],
{
    proof {
        reveal_strlit("0");
        reveal_strlit("1");
        reveal_strlit("2");
        reveal_strlit("3");
        reveal_strlit("4");
        reveal_strlit("5");
        reveal_strlit("6");
        reveal_strlit("7");
        reveal_strlit("8");
        reveal_strlit("9");
    }
    let r = match d {
        0 => "0",
        1 => "1",
        2 => "2",
        3 => "3",
        4 => "4",
        5 => "5",
        6 => "6",
        7 => "7",
        8 => "8",
        _ => "9",
    };
    assert(r@ =~= seq![digit_char(d as int)]);
    r
}

/// Appends the decimal digits of a number.
pub fn append_decimal(out: &mut String, n: u64)
    ensures
        final(out)@ == old(out)@ + decimal(n as nat),
    decreases n,
{
    if n >= 10 {
        append_decimal(out, n / 10);
    }
    out.append(digit_str(n % 10));
    assert(out@ =~= old(out)@ + decimal(n as nat));
}

/// What [`format_locator`] says.
pub open spec fn locator_text(
    slot_index: u8,
    generation: u64,
    index_offset: u64,
    index_length: u64,
) -> Seq<char> {
    "slot="@ + decimal(slot_index as nat) + " generation="@ + decimal(generation as nat)
        + " index_offset="@ + decimal(index_offset as nat) + " index_length="@ + decimal(
        index_length as nat,
    )
}

/// A locator in words.
pub fn format_locator(slot_index: u8, generation: u64, index_offset: u64, index_length: u64) -> (r:
    String)
    ensures
        r@ == locator_text(slot_index, generation, index_offset, index_length),
{
    let mut out = String::from_str("slot=");
    append_decimal(&mut out, slot_index as u64);
    out.append(" generation=");
    append_decimal(&mut out, generation);
    out.append(" index_offset=");
    append_decimal(&mut out, index_offset);
    out.append(" index_length=");
    append_decimal(&mut out, index_length);
    out
}

/// The name of an error.
pub open spec fn error_name(error: VaultError) -> Seq<char> {
    match error {
        VaultError::Io(_) => "Io"@,
        VaultError::AeadDecryptFailed => "AeadDecryptFailed"@,
        VaultError::AeadEncryptFailed => "AeadEncryptFailed"@,
        VaultError::IndexChainBroken => "IndexChainBroken"@,
        VaultError::TailHashMismatch => "TailHashMismatch"@,
        VaultError::IndexMacMismatch => "IndexMacMismatch"@,
        VaultError::NoValidLocator => "NoValidLocator"@,
        VaultError::InvalidMasterKey => "InvalidMasterKey"@,
        VaultError::InvalidConfig => "InvalidConfig"@,
        VaultError::InvalidChunkSize => "InvalidChunkSize"@,
        VaultError::FileNotFound => "FileNotFound"@,
        VaultError::IncompleteFile => "IncompleteFile"@,
        VaultError::FileAlreadyExists => "FileAlreadyExists"@,
        VaultError::FileHashMismatch => "FileHashMismatch"@,
        VaultError::BlobNotFound => "BlobNotFound"@,
        VaultError::NoWritableBlob => "NoWritableBlob"@,
        VaultError::FileExceedsBlobCapacity => "FileExceedsBlobCapacity"@,
        VaultError::IntegerOverflow => "IntegerOverflow"@,
        VaultError::UnsupportedPlatform => "UnsupportedPlatform"@,
        VaultError::RetryBudgetExceeded => "RetryBudgetExceeded"@,
    }
}

/// The name of an error.
pub fn format_vault_error(err: &VaultError) -> (r: &'static str)
    ensures
        r@ == error_name(*err),
{
    match err {
        VaultError::Io(_) => "Io",
        VaultError::AeadDecryptFailed => "AeadDecryptFailed",
        VaultError::AeadEncryptFailed => "AeadEncryptFailed",
        VaultError::IndexChainBroken => "IndexChainBroken",
        VaultError::TailHashMismatch => "TailHashMismatch",
        VaultError::IndexMacMismatch => "IndexMacMismatch",
        VaultError::NoValidLocator => "NoValidLocator",
        VaultError::InvalidMasterKey => "InvalidMasterKey",
        VaultError::InvalidConfig => "InvalidConfig",
        VaultError::InvalidChunkSize => "InvalidChunkSize",
        VaultError::FileNotFound => "FileNotFound",
        VaultError::IncompleteFile => "IncompleteFile",
        VaultError::FileAlreadyExists => "FileAlreadyExists",
        VaultError::FileHashMismatch => "FileHashMismatch",
        VaultError::BlobNotFound => "BlobNotFound",
        VaultError::NoWritableBlob => "NoWritableBlob",
        VaultError::FileExceedsBlobCapacity => "FileExceedsBlobCapacity",
        VaultError::IntegerOverflow => "IntegerOverflow",
        VaultError::UnsupportedPlatform => "UnsupportedPlatform",
        VaultError::RetryBudgetExceeded => "RetryBudgetExceeded",
    }
}

/// The character of a hexadecimal digit.
pub open spec fn hex_char(d: int) -> char {
    if d < 10 {
        (48 + d) as char
    } else {
        (87 + d) as char
    }
}

/// The bytes as hexadecimal digits, two for each byte.
pub open spec fn hex_text(bytes: Seq<u8>) -> Seq<char> {
    Seq::new(
        bytes.len() * 2,
        |i: int|
            if i % 2 == 0 {
                hex_char(bytes[i / 2] as int / 16)
            } else {
                hex_char(bytes[i / 2] as int % 16)
            },
    )
}

/// An identity in its usual form, with dashes.
pub open spec fn uuid_text(id: Seq<u8>) -> Seq<char> {
    hex_text(id.subrange(0, 4)) + "-"@ + hex_text(id.subrange(4, 6)) + "-"@ + hex_text(
        id.subrange(6, 8),
    ) + "-"@ + hex_text(id.subrange(8, 10)) + "-"@ + hex_text(id.subrange(10, 16))
}

fn hex_str(d: u8) -> (r: &'static str)
    requires
        d < 16,
    ensures
        r@ == seq![hex_char(d as int)],
{
    if d < 10 {
        return digit_str(d as u64);
    }
    proof {
        reveal_strlit("a");
        reveal_strlit("b");
        reveal_strlit("c");
        reveal_strlit("d");
        reveal_strlit("e");
        reveal_strlit("f");
    }
    let r = match d {
        10 => "a",
        11 => "b",
        12 => "c",
        13 => "d",
        14 => "e",
        _ => "f",
    };
    assert(r@ =~= seq![hex_char(d as int)]);
    r
}

/// Appends bytes as hexadecimal digits.
pub fn append_hex(out: &mut String, bytes: &[u8])
    ensures
        final(out)@ == old(out)@ + hex_text(bytes@),
{
    let mut i: usize = 0;
    let ghost front = out@;
    assert(front + hex_text(bytes@).take(0) =~= front);
    while i < bytes.len()
        invariant
            i <= bytes@.len(),
            out@ == front + hex_text(bytes@).take(2 * i),
        decreases bytes@.len() - i,
    {
        let ghost before = out@;
        out.append(hex_str(bytes[i] / 16));
        out.append(hex_str(bytes[i] % 16));
        i += 1;
        proof {
            let text = hex_text(bytes@);
            assert((2 * i - 2) % 2 == 0 && (2 * i - 2) / 2 == i - 1);
            assert((2 * i - 1) % 2 == 1 && (2 * i - 1) / 2 == i - 1);
            assert(text[2 * i - 2] == hex_char(bytes@[i - 1] as int / 16));
            assert(text[2 * i - 1] == hex_char(bytes@[i - 1] as int % 16));
            assert(text.take(2 * i) =~= text.take(2 * (i - 1)).push(text[2 * i - 2]).push(
                text[2 * i - 1],
            ));
            assert(out@ =~= front + text.take(2 * i));
        }
    }
    assert(hex_text(bytes@).take(2 * i) =~= hex_text(bytes@));
}

/// An identity in its usual form.
pub fn format_uuid(bytes: &[u8; 16]) -> (r: String)
    ensures
        r@ == uuid_text(bytes@),
{
    let mut out = String::new();
    append_hex(&mut out, slice_subrange(bytes, 0, 4));
    out.append("-");
    append_hex(&mut out, slice_subrange(bytes, 4, 6));
    out.append("-");
    append_hex(&mut out, slice_subrange(bytes, 6, 8));
    out.append("-");
    append_hex(&mut out, slice_subrange(bytes, 8, 10));
    out.append("-");
    append_hex(&mut out, slice_subrange(bytes, 10, 16));
    assert(out@ =~= uuid_text(bytes@));
    out
}

/// A file's identity in its usual form.
pub fn format_file_id(file_id: FileId) -> (r: String)
    ensures
        r@ == uuid_text(file_id@),
{
    format_uuid(&file_id.0)
}

/// The first bytes of a blob's identity, enough to tell blobs apart in a log.
pub fn format_blob_id(blob_id: BlobId) -> (r: String)
    ensures
        r@ == hex_text(blob_id@.subrange(0, 4)) + "\u{2026}"@,
{
    let mut out = String::new();
    append_hex(&mut out, slice_subrange(&blob_id.0, 0, 4));
    out.append("\u{2026}");
    assert(out@ =~= hex_text(blob_id@.subrange(0, 4)) + "\u{2026}"@);
    out
}

/// The value of a hexadecimal digit, upper or lower case.
pub open spec fn hex_value(c: int) -> Option<int> {
    if 48 <= c <= 57 {
        Some(c - 48)
    } else if 65 <= c <= 70 {
        Some(c - 55)
    } else if 97 <= c <= 102 {
        Some(c - 87)
    } else {
        None
    }
}

/// The bytes that pairs of hexadecimal digits stand for.
pub open spec fn hex_bytes(digits: Seq<u8>) -> Seq<u8> {
    Seq::new(
        digits.len() / 2,
        |i: int|
            (hex_value(digits[2 * i] as int)->0 * 16 + hex_value(
                digits[2 * i + 1] as int,
            )->0) as u8,
    )
}

/// The error of `hex`.
#[verifier::external_type_specification]
#[verifier::external_body]
pub struct ExFromHexError(hex::FromHexError);

/// Calls `hex::decode_to_slice` on a buffer of `len` bytes. The claim: it succeeds exactly where
/// there are two characters for each byte of the buffer and all of them are hexadecimal digits,
/// and the buffer then holds the bytes that they stand for.
#[verifier::external_body]
pub(crate) fn decode_hex(digits: &[u8], len: usize) -> (r: Result<Vec<u8>, hex::FromHexError>)
    ensures
        r is Ok <==> digits@.len() == 2 * len && forall|i: int|
            0 <= i < digits@.len() ==> hex_value(#[trigger] digits@[i] as int) is Some,
        r is Ok ==> r->Ok_0@ == hex_bytes(digits@),
{
    let mut out = vec![0u8; len];
    hex::decode_to_slice(digits, &mut out)?;
    Ok(out)
}

/// The characters that are hexadecimal digits.
pub open spec fn hex_digits_of(s: Seq<char>) -> Seq<char> {
    s.filter(|c: char| hex_value(c as int) is Some)
}

/// The same characters as bytes.
pub open spec fn ascii_bytes(s: Seq<char>) -> Seq<u8> {
    Seq::new(s.len(), |i: int| s[i] as u8)
}

/// The identity that a text stands for: its hexadecimal digits, whatever stands between them.
pub open spec fn parsed_file_id(s: Seq<char>) -> Option<Seq<u8>> {
    if hex_digits_of(s).len() == 32 {
        Some(hex_bytes(ascii_bytes(hex_digits_of(s))))
    } else {
        None
    }
}

/// Whether a character is a hexadecimal digit.
fn is_hex_digit(c: char) -> (r: bool)
    ensures
        r == (hex_value(c as int) is Some),
{
    ('0' <= c && c <= '9') || ('A' <= c && c <= 'F') || ('a' <= c && c <= 'f')
}

/// The hexadecimal digits of a text.
fn collect_hex_digits(s: &str) -> (r: Vec<u8>)
    ensures
        r@ == ascii_bytes(hex_digits_of(s@)),
{
    let mut digits: Vec<u8> = Vec::new();
    let len: usize = s.unicode_len();
    let mut i: usize = 0;
    assert(s@.take(0) =~= Seq::<char>::empty());
    reveal(Seq::filter);
    assert(digits@ =~= ascii_bytes(hex_digits_of(s@.take(0))));
    while i < len
        invariant
            i <= len,
            len == s@.len(),
            digits@ == ascii_bytes(hex_digits_of(s@.take(i as int))),
        decreases len - i,
    {
        let c = s.get_char(i);
        proof {
            reveal(Seq::filter);
            assert(s@.take(i + 1).drop_last() =~= s@.take(i as int));
            assert(s@.take(i + 1).last() == c);
        }
        if is_hex_digit(c) {
            digits.push(c as u8);
            proof {
                let before = hex_digits_of(s@.take(i as int));
                assert(hex_digits_of(s@.take(i + 1)) =~= before.push(c));
                assert(digits@ =~= ascii_bytes(hex_digits_of(s@.take(i + 1))));
            }
        }
        i += 1;
    }
    assert(s@.take(i as int) =~= s@);
    digits
}

/// How many hexadecimal digits a text holds.
pub fn count_hex_digits(s: &str) -> (r: usize)
    ensures
        r == hex_digits_of(s@).len(),
{
    collect_hex_digits(s).len()
}

/// Reads a file's identity: thirty-two hexadecimal digits, with anything between them.
pub fn parse_file_id(s: &str) -> (r: Result<FileId, VaultError>)
    ensures
        match parsed_file_id(s@) {
            Some(id) => r is Ok && r->Ok_0@ == id,
            None => r == Err::<FileId, VaultError>(VaultError::FileNotFound),
        },
{
    let digits = collect_hex_digits(s);
    if digits.len() != 32 {
        return Err(VaultError::FileNotFound);
    }
    proof {
        lemma_filtered_digits(s@);
    }
    match decode_hex(&digits, 16) {
        Ok(bytes) => {
            assert(bytes@.take(16) =~= bytes@);
            Ok(FileId(copy_array(&bytes)))
        },
        Err(_) => Err(VaultError::FileNotFound),
    }
}

proof fn lemma_filtered_digits(s: Seq<char>)
    ensures
        forall|i: int|
            0 <= i < hex_digits_of(s).len() ==> hex_value(
                #[trigger] ascii_bytes(hex_digits_of(s))[i] as int,
            ) is Some,
{
    assert forall|i: int| 0 <= i < hex_digits_of(s).len() implies hex_value(
        #[trigger] ascii_bytes(hex_digits_of(s))[i] as int,
    ) is Some by {
        s.lemma_filter_pred(|c: char| hex_value(c as int) is Some, i);
    }
}

proof fn lemma_digits_stay(s: Seq<char>)
    requires
        forall|i: int| 0 <= i < s.len() ==> hex_value(#[trigger] s[i] as int) is Some,
    ensures
        hex_digits_of(s) == s,
    decreases s.len(),
{
    reveal(Seq::filter);
    if s.len() > 0 {
        let front = s.drop_last();
        assert forall|i: int| 0 <= i < front.len() implies hex_value(
            #[trigger] front[i] as int,
        ) is Some by {
            assert(front[i] == s[i]);
        }
        lemma_digits_stay(front);
        assert(hex_value(s[s.len() - 1] as int) is Some);
        assert(hex_digits_of(s) =~= s);
    } else {
        assert(hex_digits_of(s) =~= s);
    }
}

proof fn lemma_hex_text_digits(bytes: Seq<u8>)
    ensures
        hex_digits_of(hex_text(bytes)) == hex_text(bytes),
{
    let text = hex_text(bytes);
    assert forall|i: int| 0 <= i < text.len() implies hex_value(#[trigger] text[i] as int) is Some by {
        let b = bytes[i / 2] as int;
        assert(0 <= b / 16 < 16 && 0 <= b % 16 < 16);
    }
    lemma_digits_stay(text);
}

/// An identity that was written out is read back.
pub proof fn law_file_id_round_trip(id: Seq<u8>)
    requires
        id.len() == 16,
    ensures
        parsed_file_id(uuid_text(id)) == Some(id),
{
    let pred = |c: char| hex_value(c as int) is Some;
    let a = hex_text(id.subrange(0, 4));
    let b = hex_text(id.subrange(4, 6));
    let c = hex_text(id.subrange(6, 8));
    let d = hex_text(id.subrange(8, 10));
    let e = hex_text(id.subrange(10, 16));
    lemma_hex_text_digits(id.subrange(0, 4));
    lemma_hex_text_digits(id.subrange(4, 6));
    lemma_hex_text_digits(id.subrange(6, 8));
    lemma_hex_text_digits(id.subrange(8, 10));
    lemma_hex_text_digits(id.subrange(10, 16));
    reveal_strlit("-");
    assert(hex_digits_of("-"@) =~= Seq::<char>::empty()) by {
        reveal(Seq::filter);
        assert("-"@.drop_last() =~= Seq::<char>::empty());
        assert("-"@.last() == '-');
    }
    let none = Seq::<char>::empty();
    Seq::filter_distributes_over_add(a, "-"@, pred);
    Seq::filter_distributes_over_add(a + "-"@, b, pred);
    Seq::filter_distributes_over_add(a + "-"@ + b, "-"@, pred);
    Seq::filter_distributes_over_add(a + "-"@ + b + "-"@, c, pred);
    Seq::filter_distributes_over_add(a + "-"@ + b + "-"@ + c, "-"@, pred);
    Seq::filter_distributes_over_add(a + "-"@ + b + "-"@ + c + "-"@, d, pred);
    Seq::filter_distributes_over_add(a + "-"@ + b + "-"@ + c + "-"@ + d, "-"@, pred);
    Seq::filter_distributes_over_add(a + "-"@ + b + "-"@ + c + "-"@ + d + "-"@, e, pred);
    assert(hex_digits_of(uuid_text(id)) =~= a + b + c + d + e);
    assert(a + b + c + d + e =~= hex_text(id));
    let digits = ascii_bytes(hex_text(id));
    assert forall|i: int| 0 <= i < 16 implies #[trigger] hex_bytes(digits)[i] == id[i] by {
        let x = id[i] as int;
        assert(0 <= x / 16 < 16 && 0 <= x % 16 < 16);
        assert((2 * i) % 2 == 0 && (2 * i) / 2 == i);
        assert((2 * i + 1) % 2 == 1 && (2 * i + 1) / 2 == i);
        assert(digits[2 * i] == hex_char(x / 16) as u8);
        assert(digits[2 * i + 1] == hex_char(x % 16) as u8);
        assert(hex_value(digits[2 * i] as int) == Some(x / 16));
        assert(hex_value(digits[2 * i + 1] as int) == Some(x % 16));
    }
    assert(hex_bytes(digits) =~= id);
}

/// An identity in its usual form, as bytes behind which a zero stands.
pub fn format_uuid_hex(bytes: &[u8; 16]) -> (r: [u8; 37])
    ensures
        r@ == ascii_bytes(uuid_text(bytes@)).push(0),
{
    let text = format_uuid(bytes);
    let mut out: Vec<u8> = Vec::new();
    let mut i: usize = 0;
    proof {
        reveal_strlit("-");
    }
    while i < 36
        invariant
            i <= 36,
            text@ == uuid_text(bytes@),
            text@.len() == 36,
            out@ == ascii_bytes(text@.take(i as int)),
        decreases 36 - i,
    {
        out.push(text.as_str().get_char(i) as u8);
        i += 1;
        assert(out@ =~= ascii_bytes(text@.take(i as int)));
    }
    out.push(0);
    assert(text@.take(36) =~= text@);
    assert(out@.take(37) =~= ascii_bytes(uuid_text(bytes@)).push(0));
    copy_array(&out)
}

/// The name of the blob file with the given number: at least four digits.
pub open spec fn blob_file_name_text(n: nat) -> Seq<char> {
    let zeros = if n < 10 {
        "000"@
    } else if n < 100 {
        "00"@
    } else if n < 1000 {
        "0"@
    } else {
        ""@
    };
    "blob-"@ + zeros + decimal(n) + ".blob"@
}

/// The name of the blob file with the given number.
pub fn blob_file_name(n: u64) -> (r: String)
    ensures
        r@ == blob_file_name_text(n as nat),
{
    let mut out = String::from_str("blob-");
    if n < 10 {
        out.append("000");
    } else if n < 100 {
        out.append("00");
    } else if n < 1000 {
        out.append("0");
    } else {
        out.append("");
    }
    append_decimal(&mut out, n);
    out.append(".blob");
    out
}

/// Whether a file of this name in the vault's directory is a blob.
pub open spec fn names_blob(name: Seq<char>) -> bool {
    &&& name.len() >= 5
    &&& name.take(5) == "blob-"@
    &&& name.skip(name.len() - 5) == ".blob"@
}

/// Whether a file of this name in the vault's directory is a blob.
pub fn is_blob_file_name(name: &str) -> (r: bool)
    ensures
        r == names_blob(name@),
{
    let len: usize = name.unicode_len();
    proof {
        reveal_strlit("blob-");
        reveal_strlit(".blob");
    }
    if len < 5 {
        return false;
    }
    let starts = name.get_char(0) == 'b' && name.get_char(1) == 'l' && name.get_char(2) == 'o'
        && name.get_char(3) == 'b' && name.get_char(4) == '-';
    let ends = name.get_char(len - 5) == '.' && name.get_char(len - 4) == 'b' && name.get_char(
        len - 3,
    ) == 'l' && name.get_char(len - 2) == 'o' && name.get_char(len - 1) == 'b';
    proof {
        let front = name@.take(5);
        let back = name@.skip(name@.len() - 5);
        assert(front == "blob-"@ <==> front =~= "blob-"@);
        assert(back == ".blob"@ <==> back =~= ".blob"@);
        if starts {
            assert(front =~= "blob-"@);
        } else if front == "blob-"@ {
            assert(front[0] == 'b' && front[1] == 'l' && front[2] == 'o' && front[3] == 'b'
                && front[4] == '-');
        }
        if ends {
            assert(back =~= ".blob"@);
        } else if back == ".blob"@ {
            assert(back[0] == '.' && back[1] == 'b' && back[2] == 'l' && back[3] == 'o'
                && back[4] == 'b');
        }
    }
    starts && ends
}

/// A blob file is known by its name.
pub proof fn law_blob_names_are_known(n: nat)
    ensures
        names_blob(blob_file_name_text(n)),
{
    let name = blob_file_name_text(n);
    reveal_strlit("blob-");
    reveal_strlit(".blob");
    assert(name.take(5) =~= "blob-"@);
    assert(name.skip(name.len() - 5) =~= ".blob"@);
}

} // verus!
