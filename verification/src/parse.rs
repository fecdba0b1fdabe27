//! Reading what a person types: master keys and byte sizes.

use vstd::prelude::*;
use vstd::string::{StrSliceExecFns, StringSliceAdditionalSpecFns};

use crate::bytes::copy_array;
use crate::text::{decode_hex, hex_bytes, hex_value};
use crate::types::VaultMasterKey;

verus! {

/// Why a text is no master key.
#[derive(Clone, Copy, Debug, PartialEq, Eq, Structural)]
pub enum KeyError {
    /// It is not sixty-four bytes long.
    Length,
    /// It holds something that is no hexadecimal digit.
    Digits,
}

/// Why a text is no byte size.
#[derive(Debug)]
pub enum SizeError {
    /// There is nothing.
    Empty,
    /// It does not start with a digit.
    NoNumber,
    /// The number in this text is too large to be read.
    InvalidNumber(String),
    /// This is no known unit.
    UnknownSuffix(String),
    /// The size that this text gives is too large.
    Overflow(String),
    /// No memory of this platform is that large.
    TooLarge,
}

/// What a [`SizeError`] says.
#[verifier::ext_equal]
pub enum SizeFault {
    Empty,
    NoNumber,
    InvalidNumber(Seq<char>),
    UnknownSuffix(Seq<char>),
    Overflow(Seq<char>),
    TooLarge,
}

impl View for SizeError {
    type V = SizeFault;

    open spec fn view(&self) -> SizeFault {
        match *self {
            SizeError::Empty => SizeFault::Empty,
            SizeError::NoNumber => SizeFault::NoNumber,
            SizeError::InvalidNumber(text) => SizeFault::InvalidNumber(text@),
            SizeError::UnknownSuffix(text) => SizeFault::UnknownSuffix(text@),
            SizeError::Overflow(text) => SizeFault::Overflow(text@),
            SizeError::TooLarge => SizeFault::TooLarge,
        }
    }
}

/// `String::push` appends the character.
pub assume_specification[ String::push ](s: &mut String, c: char)
    ensures
        final(s)@ == old(s)@.push(c),
;

/// The characters that Unicode calls white space.
pub open spec fn is_white_space(c: char) -> bool {
    let n = c as int;
    ||| 9 <= n <= 13
    ||| n == 32
    ||| n == 0x85
    ||| n == 0xa0
    ||| n == 0x1680
    ||| 0x2000 <= n <= 0x200a
    ||| n == 0x2028
    ||| n == 0x2029
    ||| n == 0x202f
    ||| n == 0x205f
    ||| n == 0x3000
}

/// The text without the white space in front.
pub open spec fn without_leading(s: Seq<char>) -> Seq<char>
    decreases s.len(),
{
    if s.len() > 0 && is_white_space(s[0]) {
        without_leading(s.skip(1))
    } else {
        s
    }
}

/// The text without the white space behind.
pub open spec fn without_trailing(s: Seq<char>) -> Seq<char>
    decreases s.len(),
{
    if s.len() > 0 && is_white_space(s.last()) {
        without_trailing(s.drop_last())
    } else {
        s
    }
}

/// The text without the white space at both ends.
pub open spec fn trimmed(s: Seq<char>) -> Seq<char> {
    without_trailing(without_leading(s))
}

fn white_space(c: char) -> (r: bool)
    ensures
        r == is_white_space(c),
{
    let n: u32 = c as u32;
    (9 <= n && n <= 13) || n == 32 || n == 0x85 || n == 0xa0 || n == 0x1680 || (0x2000 <= n && n
        <= 0x200a) || n == 0x2028 || n == 0x2029 || n == 0x202f || n == 0x205f || n == 0x3000
}

/// The text without the white space at both ends.
pub fn trim(s: &str) -> (r: &str)
    ensures
        r@ == trimmed(s@),
{
    let len: usize = s.unicode_len();
    let mut start: usize = 0;
    assert(s@.skip(0) =~= s@);
    while start < len && white_space(s.get_char(start))
        invariant
            start <= len,
            len == s@.len(),
            without_leading(s@) == without_leading(s@.skip(start as int)),
        decreases len - start,
    {
        assert(s@.skip(start as int).skip(1) =~= s@.skip(start + 1));
        start += 1;
    }
    let mut end: usize = len;
    let ghost front = s@.skip(start as int);
    assert(without_leading(s@) == front);
    assert(s@.subrange(start as int, end as int) =~= front);
    while end > start && white_space(s.get_char(end - 1))
        invariant
            start <= end <= len,
            len == s@.len(),
            without_trailing(front) == without_trailing(s@.subrange(start as int, end as int)),
        decreases end,
    {
        assert(s@.subrange(start as int, end as int).drop_last() =~= s@.subrange(
            start as int,
            end - 1,
        ));
        assert(s@.subrange(start as int, end as int).last() == s@[end - 1]);
        end -= 1;
    }
    assert(end > start ==> s@.subrange(start as int, end as int).last() == s@[end - 1]);
    s.substring_char(start, end)
}

/// The master key that a text stands for.
pub open spec fn parsed_master_key(s: Seq<char>) -> Result<Seq<u8>, KeyError> {
    let bytes = vstd::utf8::encode_utf8(trimmed(s));
    if bytes.len() != 64 {
        Err(KeyError::Length)
    } else if forall|i: int|
        0 <= i < bytes.len() ==> hex_value(#[trigger] bytes[i] as int) is Some {
        Ok(hex_bytes(bytes))
    } else {
        Err(KeyError::Digits)
    }
}

/// Reads a master key: sixty-four hexadecimal digits.
pub fn parse_master_key(s: &str) -> (r: Result<VaultMasterKey, KeyError>)
    ensures
        match r {
            Ok(key) => parsed_master_key(s@) == Ok::<Seq<u8>, KeyError>(key@),
            Err(error) => parsed_master_key(s@) == Err::<Seq<u8>, KeyError>(error),
        },
{
    let text = trim(s);
    let bytes = text.as_bytes();
    if bytes.len() != 64 {
        return Err(KeyError::Length);
    }
    match decode_hex(bytes, 32) {
        Ok(key) => {
            assert(key@.take(32) =~= key@);
            Ok(VaultMasterKey(copy_array(&key)))
        },
        Err(_) => Err(KeyError::Digits),
    }
}

/// The value of a run of decimal digits.
pub open spec fn number_of(digits: Seq<char>) -> nat
    decreases digits.len(),
{
    if digits.len() == 0 {
        0
    } else {
        number_of(digits.drop_last()) * 10 + (digits.last() as nat - 48) as nat
    }
}

/// A decimal digit.
pub open spec fn is_digit(c: char) -> bool {
    48 <= c as int <= 57
}

/// How many digits a text starts with.
pub open spec fn leading_digits(s: Seq<char>) -> nat
    decreases s.len(),
{
    if s.len() > 0 && is_digit(s[0]) {
        1 + leading_digits(s.skip(1))
    } else {
        0
    }
}

/// The letter in lower case; every other character as it is.
pub open spec fn lower_char(c: char) -> char {
    if 65 <= c as int <= 90 {
        (c as int + 32) as char
    } else {
        c
    }
}

/// The text with its letters in lower case.
pub open spec fn lower(s: Seq<char>) -> Seq<char> {
    Seq::new(s.len(), |i: int| lower_char(s[i]))
}

/// How many bytes a unit stands for.
pub open spec fn unit_bytes(unit: Seq<char>) -> Option<nat> {
    if unit == ""@ || unit == "b"@ || unit == "byte"@ || unit == "bytes"@ {
        Some(1)
    } else if unit == "k"@ || unit == "kb"@ || unit == "kib"@ || unit == "ki"@ {
        Some(1024)
    } else if unit == "m"@ || unit == "mb"@ || unit == "mib"@ || unit == "mi"@ {
        Some(1_048_576)
    } else if unit == "g"@ || unit == "gb"@ || unit == "gib"@ || unit == "gi"@ {
        Some(1_073_741_824)
    } else if unit == "t"@ || unit == "tb"@ || unit == "tib"@ || unit == "ti"@ {
        Some(1_099_511_627_776)
    } else {
        None
    }
}

/// The text of a size without the white space at its ends and without underscores.
pub open spec fn size_text(s: Seq<char>) -> Seq<char> {
    trimmed(s).filter(|c: char| c != '_')
}

/// The size that a text gives: a number, then a unit.
pub open spec fn parsed_size(s: Seq<char>) -> Result<nat, SizeFault> {
    let text = size_text(s);
    let split = leading_digits(text) as int;
    let value = number_of(text.take(split));
    let unit = lower(trimmed(text.skip(split)));
    if text.len() == 0 {
        Err(SizeFault::Empty)
    } else if split == 0 {
        Err(SizeFault::NoNumber)
    } else if value > u64::MAX {
        Err(SizeFault::InvalidNumber(text))
    } else {
        match unit_bytes(unit) {
            None => Err(SizeFault::UnknownSuffix(unit)),
            Some(bytes) => if value * bytes > u64::MAX {
                Err(SizeFault::Overflow(text))
            } else {
                Ok(value * bytes)
            },
        }
    }
}

/// The text without underscores.
fn without_underscores(s: &str) -> (r: String)
    ensures
        r@ == s@.filter(|c: char| c != '_'),
{
    let len: usize = s.unicode_len();
    let mut out = String::new();
    let mut i: usize = 0;
    reveal(Seq::filter);
    assert(s@.take(0) =~= Seq::<char>::empty());
    assert(out@ =~= s@.take(0).filter(|c: char| c != '_'));
    while i < len
        invariant
            i <= len,
            len == s@.len(),
            out@ == s@.take(i as int).filter(|c: char| c != '_'),
        decreases len - i,
    {
        let c = s.get_char(i);
        proof {
            reveal(Seq::filter);
            assert(s@.take(i + 1).drop_last() =~= s@.take(i as int));
            assert(s@.take(i + 1).last() == c);
        }
        if c != '_' {
            out.push(c);
        }
        i += 1;
    }
    assert(s@.take(i as int) =~= s@);
    out
}

/// The text with its letters in lower case.
fn to_lower(s: &str) -> (r: String)
    ensures
        r@ == lower(s@),
{
    let len: usize = s.unicode_len();
    let mut out = String::new();
    let mut i: usize = 0;
    assert(out@ =~= lower(s@.take(0)));
    while i < len
        invariant
            i <= len,
            len == s@.len(),
            out@ == lower(s@.take(i as int)),
        decreases len - i,
    {
        let c = s.get_char(i);
        let n: u32 = c as u32;
        if 65 <= n && n <= 90 {
            out.push((n as u8 + 32) as char);
        } else {
            out.push(c);
        }
        i += 1;
        assert(out@ =~= lower(s@.take(i as int)));
    }
    assert(s@.take(i as int) =~= s@);
    out
}

fn same_text(a: &str, b: &str) -> (r: bool)
    ensures
        r == (a@ == b@),
{
    let len: usize = a.unicode_len();
    if b.unicode_len() != len {
        return false;
    }
    let mut i: usize = 0;
    while i < len
        invariant
            i <= len,
            len == a@.len(),
            len == b@.len(),
            forall|j: int| 0 <= j < i ==> a@[j] == b@[j],
        decreases len - i,
    {
        if a.get_char(i) != b.get_char(i) {
            return false;
        }
        i += 1;
    }
    assert(a@ =~= b@);
    true
}

fn unit_multiplier(unit: &str) -> (r: Option<u64>)
    ensures
        r is Some <==> unit_bytes(unit@) is Some,
        r is Some ==> unit_bytes(unit@) == Some(r->0 as nat),
{
    if same_text(unit, "") || same_text(unit, "b") || same_text(unit, "byte") || same_text(
        unit,
        "bytes",
    ) {
        Some(1)
    } else if same_text(unit, "k") || same_text(unit, "kb") || same_text(unit, "kib") || same_text(
        unit,
        "ki",
    ) {
        Some(1024)
    } else if same_text(unit, "m") || same_text(unit, "mb") || same_text(unit, "mib") || same_text(
        unit,
        "mi",
    ) {
        Some(1_048_576)
    } else if same_text(unit, "g") || same_text(unit, "gb") || same_text(unit, "gib") || same_text(
        unit,
        "gi",
    ) {
        Some(1_073_741_824)
    } else if same_text(unit, "t") || same_text(unit, "tb") || same_text(unit, "tib") || same_text(
        unit,
        "ti",
    ) {
        Some(1_099_511_627_776)
    } else {
        None
    }
}

/// The number that the first `split` characters give, where it fits.
fn read_number(text: &str, split: usize) -> (r: Option<u64>)
    requires
        split <= text@.len(),
        forall|i: int| 0 <= i < split ==> is_digit(#[trigger] text@[i]),
    ensures
        r is Some <==> number_of(text@.take(split as int)) <= u64::MAX,
        r is Some ==> r->0 == number_of(text@.take(split as int)),
{
    let mut value: u64 = 0;
    let mut i: usize = 0;
    while i < split
        invariant
            i <= split <= text@.len(),
            forall|i: int| 0 <= i < split ==> is_digit(#[trigger] text@[i]),
            value == number_of(text@.take(i as int)),
        decreases split - i,
    {
        let digit: u64 = text.get_char(i) as u64 - 48;
        proof {
            assert(text@.take(i + 1).drop_last() =~= text@.take(i as int));
            assert(text@.take(i + 1).last() == text@[i as int]);
            lemma_number_grows(text@.take(split as int), i + 1);
            assert(text@.take(split as int).take(i + 1) =~= text@.take(i + 1));
        }
        if value > (u64::MAX - digit) / 10 {
            return None;
        }
        value = value * 10 + digit;
        i += 1;
    }
    Some(value)
}

proof fn lemma_number_grows(digits: Seq<char>, i: int)
    requires
        0 <= i <= digits.len(),
    ensures
        number_of(digits.take(i)) <= number_of(digits),
    decreases digits.len(),
{
    if i == digits.len() {
        assert(digits.take(i) =~= digits);
    } else {
        lemma_number_grows(digits.drop_last(), i);
        assert(digits.drop_last().take(i) =~= digits.take(i));
    }
}

proof fn lemma_leading_digits(s: Seq<char>, n: int)
    requires
        0 <= n <= s.len(),
        forall|i: int| 0 <= i < n ==> is_digit(#[trigger] s[i]),
        n < s.len() ==> !is_digit(s[n]),
    ensures
        leading_digits(s) == n,
    decreases n,
{
    if n > 0 {
        assert(is_digit(s[0]));
        let rest = s.skip(1);
        assert forall|i: int| 0 <= i < n - 1 implies is_digit(#[trigger] rest[i]) by {
            assert(rest[i] == s[i + 1]);
        }
        lemma_leading_digits(rest, n - 1);
    }
}

/// Reads a byte size: a number and a unit, as in `4096`, `4mb` or `512 KiB`.
pub fn parse_byte_size(s: &str) -> (r: Result<u64, SizeError>)
    ensures
        match r {
            Ok(size) => parsed_size(s@) == Ok::<nat, SizeFault>(size as nat),
            Err(error) => parsed_size(s@) == Err::<nat, SizeFault>(error@),
        },
{
    let cleaned = without_underscores(trim(s));
    let text = cleaned.as_str();
    let len: usize = text.unicode_len();
    if len == 0 {
        return Err(SizeError::Empty);
    }
    let mut split: usize = 0;
    while split < len && '0' <= text.get_char(split) && text.get_char(split) <= '9'
        invariant
            split <= len,
            len == text@.len(),
            forall|i: int| 0 <= i < split ==> is_digit(#[trigger] text@[i]),
        decreases len - split,
    {
        split += 1;
    }
    proof {
        lemma_leading_digits(text@, split as int);
    }
    if split == 0 {
        return Err(SizeError::NoNumber);
    }
    let value: u64 = match read_number(text, split) {
        Some(value) => value,
        None => return Err(SizeError::InvalidNumber(cleaned)),
    };
    let suffix = text.substring_char(split, len);
    assert(suffix@ =~= text@.skip(split as int));
    let unit = to_lower(trim(suffix));
    let multiplier: u64 = match unit_multiplier(unit.as_str()) {
        Some(multiplier) => multiplier,
        None => return Err(SizeError::UnknownSuffix(unit)),
    };
    match value.checked_mul(multiplier) {
        Some(size) => Ok(size),
        None => Err(SizeError::Overflow(cleaned)),
    }
}

/// Reads a byte size that fits into memory.
pub fn parse_byte_size_usize(s: &str) -> (r: Result<usize, SizeError>)
    ensures
        match r {
            Ok(size) => parsed_size(s@) == Ok::<nat, SizeFault>(size as nat),
            Err(error) => if parsed_size(s@) is Ok {
                parsed_size(s@)->Ok_0 > usize::MAX && error@ == SizeFault::TooLarge
            } else {
                parsed_size(s@) == Err::<nat, SizeFault>(error@)
            },
        },
{
    let size = match parse_byte_size(s) {
        Ok(size) => size,
        Err(error) => return Err(error),
    };
    if size > usize::MAX as u64 {
        return Err(SizeError::TooLarge);
    }
    Ok(size as usize)
}

} // verus!
