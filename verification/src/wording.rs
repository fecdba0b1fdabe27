//! What is written in words reads back, and what is read means what it says.

use vstd::prelude::*;
use vstd::utf8::{is_ascii_chars, is_ascii_chars_encode_utf8};

use crate::parse::{
    is_digit, is_white_space, leading_digits, lower, number_of, parse_byte_size,
    parse_byte_size_usize, parsed_master_key, parsed_size, size_text, trimmed, unit_bytes,
    without_leading, without_trailing, KeyError, SizeError, SizeFault,
};
use crate::stats::BlobLayoutStats;
use crate::text::{
    ascii_bytes, blob_file_name_text, decimal, digit_char, format_blob_id, format_locator,
    hex_bytes, hex_char, hex_digits_of, hex_text, hex_value, names_blob, parsed_file_id, uuid_text,
};
use crate::types::BlobId;

verus! {

/// The hexadecimal digits in lower case.
pub open spec fn lower_digits() -> Seq<char> {
    "0123456789abcdef"@
}

/// The hexadecimal digits in upper case.
pub open spec fn upper_digits() -> Seq<char> {
    "0123456789ABCDEF"@
}

/// A hexadecimal digit is written in lower case and read in either, and nothing else is read.
pub proof fn law_hexadecimal_digits(c: char, d: int)
    requires
        0 <= d < 16,
    ensures
        hex_char(d) == lower_digits()[d],
        hex_value(c as int) == Some(d) <==> c == lower_digits()[d] || c == upper_digits()[d],
        hex_value(c as int) is Some ==> 0 <= hex_value(c as int)->0 < 16,
{
    reveal_strlit("0123456789abcdef");
    reveal_strlit("0123456789ABCDEF");
}

/// The bytes are written with two digits each, the high one first.
pub proof fn law_bytes_are_written_in_pairs(bytes: Seq<u8>, i: int)
    requires
        0 <= i < bytes.len(),
    ensures
        hex_text(bytes).len() == 2 * bytes.len(),
        hex_value(hex_text(bytes)[2 * i] as int) == Some(bytes[i] as int / 16),
        hex_value(hex_text(bytes)[2 * i + 1] as int) == Some(bytes[i] as int % 16),
        hex_text(bytes)[2 * i] == lower_digits()[bytes[i] as int / 16],
        hex_text(bytes)[2 * i + 1] == lower_digits()[bytes[i] as int % 16],
{
    let x = bytes[i] as int;
    assert(0 <= x / 16 < 16 && 0 <= x % 16 < 16);
    assert((2 * i) % 2 == 0 && (2 * i) / 2 == i);
    assert((2 * i + 1) % 2 == 1 && (2 * i + 1) / 2 == i);
    law_hexadecimal_digits(hex_char(x / 16), x / 16);
    law_hexadecimal_digits(hex_char(x % 16), x % 16);
}

/// Where the digits of a byte of an identity stand.
pub open spec fn digits_at(i: int) -> int {
    if i < 4 {
        2 * i
    } else if i < 6 {
        2 * i + 1
    } else if i < 8 {
        2 * i + 2
    } else if i < 10 {
        2 * i + 3
    } else {
        2 * i + 4
    }
}

/// An identity is written as thirty-two digits in groups of eight, four, four, four and twelve,
/// with dashes between them.
pub proof fn law_identity_is_written_in_groups(id: Seq<u8>, i: int)
    requires
        id.len() == 16,
        0 <= i < 16,
    ensures
        uuid_text(id).len() == 36,
        uuid_text(id)[8] == '-',
        uuid_text(id)[13] == '-',
        uuid_text(id)[18] == '-',
        uuid_text(id)[23] == '-',
        uuid_text(id)[digits_at(i)] == lower_digits()[id[i] as int / 16],
        uuid_text(id)[digits_at(i) + 1] == lower_digits()[id[i] as int % 16],
{
    reveal_strlit("-");
    if i < 4 {
        law_bytes_are_written_in_pairs(id.subrange(0, 4), i);
    } else if i < 6 {
        law_bytes_are_written_in_pairs(id.subrange(4, 6), i - 4);
    } else if i < 8 {
        law_bytes_are_written_in_pairs(id.subrange(6, 8), i - 6);
    } else if i < 10 {
        law_bytes_are_written_in_pairs(id.subrange(8, 10), i - 8);
    } else {
        law_bytes_are_written_in_pairs(id.subrange(10, 16), i - 10);
    }
}

/// A blob is told apart in a log by the first four bytes of its identity and an ellipsis.
pub proof fn law_blob_is_abbreviated(blob_id: BlobId, text: String, i: int)
    requires
        call_ensures(format_blob_id, (blob_id,), text),
        0 <= i < 4,
    ensures
        text@.len() == 9,
        text@[8] == '\u{2026}',
        text@[2 * i] == lower_digits()[blob_id@[i] as int / 16],
        text@[2 * i + 1] == lower_digits()[blob_id@[i] as int % 16],
{
    reveal_strlit("\u{2026}");
    law_bytes_are_written_in_pairs(blob_id@.subrange(0, 4), i);
}

/// Only the hexadecimal digits of a text count for the identity that it gives.
pub proof fn law_other_characters_do_not_count(front: Seq<char>, c: char, back: Seq<char>)
    requires
        !lower_digits().contains(c),
        !upper_digits().contains(c),
    ensures
        parsed_file_id(front + seq![c] + back) == parsed_file_id(front + back),
{
    reveal(Seq::filter);
    let pred = |x: char| hex_value(x as int) is Some;
    if hex_value(c as int) is Some {
        let d = hex_value(c as int)->0;
        law_hexadecimal_digits(c, 0);
        law_hexadecimal_digits(c, d);
        reveal_strlit("0123456789abcdef");
        reveal_strlit("0123456789ABCDEF");
        assert(lower_digits().contains(lower_digits()[d]));
        assert(upper_digits().contains(upper_digits()[d]));
    }
    assert(seq![c].drop_last() =~= Seq::<char>::empty());
    assert(seq![c].last() == c);
    assert(hex_digits_of(Seq::<char>::empty()) =~= Seq::<char>::empty());
    assert(hex_digits_of(seq![c]) =~= Seq::<char>::empty());
    Seq::filter_distributes_over_add(front, seq![c], pred);
    Seq::filter_distributes_over_add(front + seq![c], back, pred);
    Seq::filter_distributes_over_add(front, back, pred);
    assert(hex_digits_of(front + seq![c] + back) =~= hex_digits_of(front + back));
}

proof fn lemma_all_digits(text: Seq<char>)
    requires
        forall|i: int| 0 <= i < text.len() ==> hex_value(#[trigger] text[i] as int) is Some,
    ensures
        hex_digits_of(text) == text,
    decreases text.len(),
{
    reveal(Seq::filter);
    if text.len() > 0 {
        let front = text.drop_last();
        assert forall|i: int| 0 <= i < front.len() implies hex_value(
            #[trigger] front[i] as int,
        ) is Some by {
            assert(front[i] == text[i]);
        }
        lemma_all_digits(front);
        assert(hex_value(text[text.len() - 1] as int) is Some);
    }
    assert(hex_digits_of(text) =~= text);
}

/// Thirty-two digits give an identity, each pair a byte with the high digit first. Fewer or more
/// give none.
pub proof fn law_digits_give_an_identity(text: Seq<char>, i: int)
    requires
        forall|k: int| 0 <= k < text.len() ==> hex_value(#[trigger] text[k] as int) is Some,
    ensures
        text.len() != 32 ==> parsed_file_id(text) is None,
        text.len() == 32 ==> parsed_file_id(text) is Some && parsed_file_id(text)->0.len() == 16,
        text.len() == 32 && 0 <= i < 16 ==> parsed_file_id(text)->0[i] == hex_value(
            text[2 * i] as int,
        )->0 * 16 + hex_value(text[2 * i + 1] as int)->0,
{
    lemma_all_digits(text);
    if text.len() == 32 && 0 <= i < 16 {
        let high = text[2 * i];
        let low = text[2 * i + 1];
        law_hexadecimal_digits(high, 0);
        law_hexadecimal_digits(low, 0);
        assert(hex_value(high as int) is Some && hex_value(low as int) is Some);
        assert(ascii_bytes(text)[2 * i] as int == high as int);
        assert(ascii_bytes(text)[2 * i + 1] as int == low as int);
        assert(hex_bytes(ascii_bytes(text))[i] == hex_value(high as int)->0 * 16 + hex_value(
            low as int,
        )->0);
    }
}

/// A number is written in decimal digits that give it back, without zeros in front.
pub proof fn law_number_is_written_in_decimal(n: nat)
    ensures
        decimal(n).len() > 0,
        number_of(decimal(n)) == n,
        decimal(n).len() > 1 ==> decimal(n)[0] != '0',
        forall|i: int| 0 <= i < decimal(n).len() ==> '0' <= #[trigger] decimal(n)[i] <= '9',
        n < 10 <==> decimal(n).len() == 1,
        n < 100 <==> decimal(n).len() <= 2,
        n < 1000 <==> decimal(n).len() <= 3,
    decreases n,
{
    reveal_with_fuel(number_of, 2);
    if n >= 10 {
        law_number_is_written_in_decimal(n / 10);
        assert(decimal(n).drop_last() =~= decimal(n / 10));
        assert(n == (n / 10) * 10 + n % 10);
        if n / 10 >= 10 {
            assert(decimal(n)[0] == decimal(n / 10)[0]);
        } else {
            assert(decimal(n / 10) =~= seq![digit_char((n / 10) as int)]);
        }
    } else {
        assert(decimal(n).drop_last() =~= Seq::<char>::empty());
    }
}

proof fn lemma_zeros_in_front(zeros: Seq<char>, digits: Seq<char>)
    requires
        forall|i: int| 0 <= i < zeros.len() ==> #[trigger] zeros[i] == '0',
    ensures
        number_of(zeros + digits) == number_of(digits),
    decreases zeros.len() + digits.len(),
{
    if digits.len() > 0 {
        assert((zeros + digits).drop_last() =~= zeros + digits.drop_last());
        lemma_zeros_in_front(zeros, digits.drop_last());
    } else if zeros.len() > 0 {
        assert(zeros + digits =~= zeros);
        assert(zeros.drop_last() + digits =~= zeros.drop_last());
        assert(zeros[zeros.len() - 1] == '0');
        lemma_zeros_in_front(zeros.drop_last(), digits);
    } else {
        assert(zeros + digits =~= digits);
    }
}

/// A blob file is named by its number in four digits, or in as many as it needs. So no two blobs
/// have the same name.
pub proof fn law_blob_file_is_named_by_its_number(n: nat)
    ensures
        ({
            let name = blob_file_name_text(n);
            let digits = name.subrange(5, name.len() - 5);
            &&& name.len() >= 14
            &&& n < 10_000 ==> name.len() == 14
            &&& name.subrange(0, 5) == "blob-"@
            &&& name.subrange(name.len() - 5, name.len() as int) == ".blob"@
            &&& forall|i: int| 0 <= i < digits.len() ==> '0' <= #[trigger] digits[i] <= '9'
            &&& number_of(digits) == n
            &&& n >= 1000 ==> digits[0] != '0'
        }),
{
    reveal_strlit("blob-");
    reveal_strlit(".blob");
    reveal_strlit("");
    reveal_strlit("0");
    reveal_strlit("00");
    reveal_strlit("000");
    law_number_is_written_in_decimal(n);
    if n >= 10 {
        law_number_is_written_in_decimal(n / 10);
        assert(decimal(n).len() == decimal(n / 10).len() + 1);
    }
    let name = blob_file_name_text(n);
    let digits = name.subrange(5, name.len() - 5);
    let zeros = if n < 10 {
        "000"@
    } else if n < 100 {
        "00"@
    } else if n < 1000 {
        "0"@
    } else {
        ""@
    };
    assert(digits =~= zeros + decimal(n));
    lemma_zeros_in_front(zeros, decimal(n));
    assert(name.subrange(0, 5) =~= "blob-"@);
    assert(name.subrange(name.len() - 5, name.len() as int) =~= ".blob"@);
    assert forall|i: int| 0 <= i < digits.len() implies '0' <= #[trigger] digits[i] <= '9' by {
        if i >= zeros.len() {
            assert(digits[i] == decimal(n)[i - zeros.len()]);
        } else {
            assert(digits[i] == zeros[i]);
        }
    }
    if n >= 1000 {
        assert(digits =~= decimal(n));
    }
}

/// A file of the directory is a blob exactly where its name starts and ends as that of a blob.
pub proof fn law_blob_file_is_known_by_its_ends(name: Seq<char>)
    ensures
        names_blob(name) <==> {
            let n = name.len() as int;
            &&& n >= 5
            &&& name[0] == 'b' && name[1] == 'l' && name[2] == 'o' && name[3] == 'b' && name[4]
                == '-'
            &&& name[n - 5] == '.' && name[n - 4] == 'b' && name[n - 3] == 'l' && name[n - 2]
                == 'o' && name[n - 1] == 'b'
        },
{
    reveal_strlit("blob-");
    reveal_strlit(".blob");
    if name.len() >= 5 {
        let front = name.take(5);
        let back = name.skip(name.len() - 5);
        assert(front == "blob-"@ <==> front =~= "blob-"@);
        assert(back == ".blob"@ <==> back =~= ".blob"@);
        assert(forall|i: int| 0 <= i < 5 ==> #[trigger] front[i] == name[i]);
        assert(forall|i: int| 0 <= i < 5 ==> #[trigger] back[i] == name[name.len() - 5 + i]);
        if front == "blob-"@ && back == ".blob"@ {
            assert(front[0] == 'b' && front[1] == 'l' && front[2] == 'o' && front[3] == 'b'
                && front[4] == '-');
            assert(back[0] == '.' && back[1] == 'b' && back[2] == 'l' && back[3] == 'o' && back[4]
                == 'b');
        }
        if name[0] == 'b' && name[1] == 'l' && name[2] == 'o' && name[3] == 'b' && name[4] == '-' {
            assert(front =~= "blob-"@);
        }
        let n = name.len() as int;
        if name[n - 5] == '.' && name[n - 4] == 'b' && name[n - 3] == 'l' && name[n - 2] == 'o'
            && name[n - 1] == 'b' {
            assert(back[0] == '.' && back[1] == 'b' && back[2] == 'l' && back[3] == 'o' && back[4]
                == 'b');
            assert(back =~= ".blob"@);
        }
    }
}

/// The code points of white space, one by one.
pub open spec fn white_points() -> Seq<int> {
    seq![
        9, 10, 11, 12, 13, 32, 133, 160, 5760, 8192, 8193, 8194, 8195, 8196, 8197, 8198, 8199, 8200,
        8201, 8202, 8232, 8233, 8239, 8287, 12288,
    ]
}

/// The character is white space.
pub open spec fn is_white(c: char) -> bool {
    exists|i: int| 0 <= i < white_points().len() && #[trigger] white_points()[i] == c as int
}

proof fn lemma_white(c: char)
    ensures
        is_white(c) <==> is_white_space(c),
{
    let n = c as int;
    let points = white_points();
    if is_white_space(c) {
        let i: int = if n <= 13 {
            n - 9
        } else if n == 32 {
            5
        } else if n == 133 {
            6
        } else if n == 160 {
            7
        } else if n == 5760 {
            8
        } else if n <= 8202 {
            n - 8192 + 9
        } else if n == 8232 {
            20
        } else if n == 8233 {
            21
        } else if n == 8239 {
            22
        } else if n == 8287 {
            23
        } else {
            24
        };
        assert(points[i] == n);
    }
    if is_white(c) {
        let i = choose|i: int| 0 <= i < points.len() && #[trigger] points[i] == n;
        assert(points[i] == n);
    }
}

proof fn lemma_without_leading(s: Seq<char>) -> (i: int)
    ensures
        0 <= i <= s.len(),
        without_leading(s) == s.skip(i),
        forall|k: int| 0 <= k < i ==> is_white(#[trigger] s[k]),
        i < s.len() ==> !is_white(s[i]),
    decreases s.len(),
{
    if s.len() > 0 {
        lemma_white(s[0]);
    }
    if s.len() > 0 && is_white_space(s[0]) {
        let rest = s.skip(1);
        let j = lemma_without_leading(rest);
        assert(rest.skip(j) =~= s.skip(j + 1));
        assert forall|k: int| 0 <= k < j + 1 implies is_white(#[trigger] s[k]) by {
            if k > 0 {
                assert(rest[k - 1] == s[k]);
            }
        }
        if j + 1 < s.len() {
            assert(rest[j] == s[j + 1]);
        }
        j + 1
    } else {
        assert(s.skip(0) =~= s);
        0
    }
}

proof fn lemma_without_trailing(s: Seq<char>) -> (j: int)
    ensures
        0 <= j <= s.len(),
        without_trailing(s) == s.take(j),
        forall|k: int| j <= k < s.len() ==> is_white(#[trigger] s[k]),
        j > 0 ==> !is_white(s[j - 1]),
    decreases s.len(),
{
    if s.len() > 0 {
        lemma_white(s.last());
    }
    if s.len() > 0 && is_white_space(s.last()) {
        let front = s.drop_last();
        let j = lemma_without_trailing(front);
        assert(front.take(j) =~= s.take(j));
        assert forall|k: int| j <= k < s.len() implies is_white(#[trigger] s[k]) by {
            if k < front.len() {
                assert(front[k] == s[k]);
            }
        }
        if j > 0 {
            assert(front[j - 1] == s[j - 1]);
        }
        j
    } else {
        assert(s.take(s.len() as int) =~= s);
        s.len() as int
    }
}

/// The part from `i` up to `j` is what is left of the text without the white space at its ends.
pub open spec fn is_core(s: Seq<char>, i: int, j: int) -> bool {
    &&& 0 <= i <= j <= s.len()
    &&& forall|k: int| 0 <= k < i ==> is_white(#[trigger] s[k])
    &&& forall|k: int| j <= k < s.len() ==> is_white(#[trigger] s[k])
    &&& i < j ==> !is_white(s[i]) && !is_white(s[j - 1])
}

/// A text is trimmed to what lies between the white space at its two ends.
pub proof fn law_text_is_trimmed(s: Seq<char>, i: int, j: int)
    requires
        is_core(s, i, j),
    ensures
        trimmed(s) == s.subrange(i, j),
{
    let a = lemma_without_leading(s);
    let rest = s.skip(a);
    let b = lemma_without_trailing(rest);
    assert(trimmed(s) == rest.take(b));
    if i < j {
        assert(a <= i) by {
            if i < a {
                assert(is_white(s[i]));
            }
        }
        assert(i <= a) by {
            if a < i {
                assert(is_white(s[a]));
            }
        }
        assert(a + b >= j) by {
            if a + b < j {
                assert(is_white(rest[j - 1 - a]));
            }
        }
        assert(a + b <= j) by {
            if a + b > j {
                assert(s[a + b - 1] == rest[b - 1]);
                assert(is_white(s[a + b - 1]));
            }
        }
        assert(rest.take(b) =~= s.subrange(i, j));
    } else {
        if a < s.len() {
            if a < i {
                assert(is_white(s[a]));
            } else {
                assert(is_white(s[a]));
            }
        }
        assert(rest.take(b) =~= s.subrange(i, j));
    }
}

proof fn lemma_kept_whole(s: Seq<char>)
    requires
        forall|i: int| 0 <= i < s.len() ==> !is_white(#[trigger] s[i]),
    ensures
        trimmed(s) == s,
{
    assert(is_core(s, 0, s.len() as int));
    law_text_is_trimmed(s, 0, s.len() as int);
    assert(s.subrange(0, s.len() as int) =~= s);
}

proof fn lemma_no_underscore(s: Seq<char>)
    requires
        forall|i: int| 0 <= i < s.len() ==> #[trigger] s[i] != '_',
    ensures
        s.filter(|c: char| c != '_') == s,
    decreases s.len(),
{
    reveal(Seq::filter);
    if s.len() > 0 {
        let front = s.drop_last();
        assert forall|i: int| 0 <= i < front.len() implies #[trigger] front[i] != '_' by {
            assert(front[i] == s[i]);
        }
        lemma_no_underscore(front);
        assert(s[s.len() - 1] != '_');
    }
    assert(s.filter(|c: char| c != '_') =~= s);
}

proof fn lemma_leading(digits: Seq<char>, rest: Seq<char>)
    requires
        forall|i: int| 0 <= i < digits.len() ==> '0' <= #[trigger] digits[i] <= '9',
        rest.len() > 0 ==> !('0' <= rest[0] <= '9'),
    ensures
        leading_digits(digits + rest) == digits.len(),
    decreases digits.len(),
{
    let s = digits + rest;
    if digits.len() > 0 {
        assert(s[0] == digits[0]);
        assert(is_digit(s[0]));
        let tail = digits.skip(1);
        assert forall|i: int| 0 <= i < tail.len() implies '0' <= #[trigger] tail[i] <= '9' by {
            assert(tail[i] == digits[i + 1]);
        }
        lemma_leading(tail, rest);
        assert(s.skip(1) =~= tail + rest);
    } else {
        assert(s =~= rest);
    }
}

/// The text may stand for a unit: there is no white space and no underscore in it, and it does not
/// start with a digit.
pub open spec fn unit_like(unit: Seq<char>) -> bool {
    &&& forall|i: int|
        0 <= i < unit.len() ==> !is_white(#[trigger] unit[i]) && unit[i] != '_'
    &&& unit.len() > 0 ==> !('0' <= unit[0] <= '9')
}

/// The unit, in lower case, is one of those that stand for so many bytes.
pub open spec fn stands_for(unit: Seq<char>, bytes: int) -> bool {
    ||| bytes == 1 && (unit == ""@ || unit == "b"@ || unit == "byte"@ || unit == "bytes"@)
    ||| bytes == 1024 && (unit == "k"@ || unit == "kb"@ || unit == "kib"@ || unit == "ki"@)
    ||| bytes == 1024 * 1024 && (unit == "m"@ || unit == "mb"@ || unit == "mib"@ || unit == "mi"@)
    ||| bytes == 1024 * 1024 * 1024 && (unit == "g"@ || unit == "gb"@ || unit == "gib"@ || unit
        == "gi"@)
    ||| bytes == 1024 * 1024 * 1024 * 1024 && (unit == "t"@ || unit == "tb"@ || unit == "tib"@
        || unit == "ti"@)
}

/// The second text is the first in lower case: capital letters are replaced, and nothing else is.
pub open spec fn lowered(from: Seq<char>, to: Seq<char>) -> bool {
    &&& from.len() == to.len()
    &&& forall|i: int|
        0 <= i < from.len() ==> if 'A' <= #[trigger] from[i] <= 'Z' {
            to[i] as int == from[i] as int + 32
        } else {
            to[i] == from[i]
        }
}

proof fn lemma_digit_is_plain(c: char)
    requires
        '0' <= c <= '9',
    ensures
        !is_white(c),
        c != '_',
{
    lemma_white(c);
}

#[verifier::rlimit(30)]
proof fn lemma_size_parts(n: nat, unit: Seq<char>)
    requires
        unit_like(unit),
    ensures
        ({
            let text = decimal(n) + unit;
            let split = leading_digits(text) as int;
            &&& size_text(text) == text
            &&& split == decimal(n).len()
            &&& text.take(split) == decimal(n)
            &&& trimmed(text.skip(split)) == unit
        }),
{
    law_number_is_written_in_decimal(n);
    let text = decimal(n) + unit;
    assert forall|i: int| 0 <= i < text.len() implies !is_white(#[trigger] text[i]) && text[i]
        != '_' by {
        if i < decimal(n).len() {
            assert(text[i] == decimal(n)[i]);
            lemma_digit_is_plain(text[i]);
        } else {
            assert(text[i] == unit[i - decimal(n).len()]);
        }
    }
    lemma_kept_whole(text);
    lemma_no_underscore(text);
    lemma_leading(decimal(n), unit);
    assert(text.take(decimal(n).len() as int) =~= decimal(n));
    assert(text.skip(decimal(n).len() as int) =~= unit);
    lemma_kept_whole(unit);
}

/// A size is a number and a unit, in whatever case: so many times what the unit stands for, where
/// that fits. A number or a size that does not fit is refused, and so is a unit that stands for
/// nothing.
#[verifier::rlimit(30)]
pub proof fn law_size_is_read(n: nat, unit: Seq<char>, name: Seq<char>, bytes: int)
    requires
        unit_like(unit),
        lowered(unit, name),
    ensures
        ({
            let text = decimal(n) + unit;
            &&& n > u64::MAX ==> parsed_size(text) == Err::<nat, SizeFault>(
                SizeFault::InvalidNumber(text),
            )
            &&& n <= u64::MAX && stands_for(name, bytes) && n * bytes <= u64::MAX
                ==> parsed_size(text) is Ok && parsed_size(text)->Ok_0 == n * bytes
            &&& n <= u64::MAX && stands_for(name, bytes) && n * bytes > u64::MAX
                ==> parsed_size(text) == Err::<nat, SizeFault>(SizeFault::Overflow(text))
            &&& n <= u64::MAX && (forall|k: int| !#[trigger] stands_for(name, k)) ==> parsed_size(
                text,
            ) == Err::<nat, SizeFault>(SizeFault::UnknownSuffix(name))
        }),
{
    let text = decimal(n) + unit;
    lemma_size_parts(n, unit);
    law_number_is_written_in_decimal(n);
    assert(lower(unit) =~= name) by {
        assert forall|i: int| 0 <= i < unit.len() implies lower(unit)[i] == name[i] by {
            let c = unit[i];
            if 'A' <= c <= 'Z' {
                assert((c as int + 32) as char as int == c as int + 32);
            }
        }
    }
    lemma_unit_names();
    if unit_bytes(name) is Some {
        assert(stands_for(name, unit_bytes(name)->0 as int));
    }
}

/// The names of units differ, so that none stands for two sizes.
#[verifier::rlimit(30)]
proof fn lemma_unit_names()
    ensures
        forall|unit: Seq<char>, bytes: int| #[trigger]
            stands_for(unit, bytes) ==> unit_bytes(unit) is Some && unit_bytes(unit)->0 == bytes,
{
    reveal_strlit("");
    reveal_strlit("b");
    reveal_strlit("byte");
    reveal_strlit("bytes");
    reveal_strlit("k");
    reveal_strlit("kb");
    reveal_strlit("kib");
    reveal_strlit("ki");
    reveal_strlit("m");
    reveal_strlit("mb");
    reveal_strlit("mib");
    reveal_strlit("mi");
    reveal_strlit("g");
    reveal_strlit("gb");
    reveal_strlit("gib");
    reveal_strlit("gi");
    reveal_strlit("t");
    reveal_strlit("tb");
    reveal_strlit("tib");
    reveal_strlit("ti");
    assert(""@.len() == 0 && "b"@.len() == 1 && "byte"@.len() == 4 && "bytes"@.len() == 5);
    assert("k"@.len() == 1 && "kb"@.len() == 2 && "kib"@.len() == 3 && "ki"@.len() == 2);
    assert("m"@.len() == 1 && "mb"@.len() == 2 && "mib"@.len() == 3 && "mi"@.len() == 2);
    assert("g"@.len() == 1 && "gb"@.len() == 2 && "gib"@.len() == 3 && "gi"@.len() == 2);
    assert("t"@.len() == 1 && "tb"@.len() == 2 && "tib"@.len() == 3 && "ti"@.len() == 2);
    assert("b"@[0] == 'b');
    assert("k"@[0] == 'k' && "kb"@[0] == 'k' && "kib"@[0] == 'k' && "ki"@[0] == 'k');
    assert("m"@[0] == 'm' && "mb"@[0] == 'm' && "mib"@[0] == 'm' && "mi"@[0] == 'm');
    assert("g"@[0] == 'g' && "gb"@[0] == 'g' && "gib"@[0] == 'g' && "gi"@[0] == 'g');
    assert("t"@[0] == 't' && "tb"@[0] == 't' && "tib"@[0] == 't' && "ti"@[0] == 't');
}

/// White space around a size does not matter.
pub proof fn law_space_around_a_size_does_not_matter(s: Seq<char>, i: int, j: int)
    requires
        is_core(s, i, j),
    ensures
        parsed_size(s) == parsed_size(s.subrange(i, j)),
{
    let core = s.subrange(i, j);
    law_text_is_trimmed(s, i, j);
    assert(is_core(core, 0, core.len() as int));
    law_text_is_trimmed(core, 0, core.len() as int);
    assert(core.subrange(0, core.len() as int) =~= core);
}

/// An underscore within a size does not matter.
pub proof fn law_underscore_within_a_size_does_not_matter(front: Seq<char>, back: Seq<char>)
    requires
        front.len() > 0,
        back.len() > 0,
        !is_white(front[0]),
        !is_white(back.last()),
    ensures
        parsed_size(front + seq!['_'] + back) == parsed_size(front + back),
{
    reveal(Seq::filter);
    let keep = |c: char| c != '_';
    let with = front + seq!['_'] + back;
    let without = front + back;
    assert(is_core(with, 0, with.len() as int));
    assert(is_core(without, 0, without.len() as int));
    law_text_is_trimmed(with, 0, with.len() as int);
    law_text_is_trimmed(without, 0, without.len() as int);
    assert(with.subrange(0, with.len() as int) =~= with);
    assert(without.subrange(0, without.len() as int) =~= without);
    assert(seq!['_'].drop_last() =~= Seq::<char>::empty());
    assert(seq!['_'].last() == '_');
    assert(Seq::<char>::empty().filter(keep) =~= Seq::<char>::empty());
    assert(seq!['_'].filter(keep) =~= Seq::<char>::empty());
    Seq::filter_distributes_over_add(front, seq!['_'], keep);
    Seq::filter_distributes_over_add(front + seq!['_'], back, keep);
    Seq::filter_distributes_over_add(front, back, keep);
    assert(with.filter(keep) =~= without.filter(keep));
}

/// Nothing is no size, and neither is what does not start with a digit.
pub proof fn law_size_starts_with_a_digit(s: Seq<char>, i: int, j: int)
    requires
        is_core(s, i, j),
        forall|k: int| i <= k < j ==> #[trigger] s[k] != '_',
    ensures
        parsed_size(s) == Err::<nat, SizeFault>(SizeFault::Empty) <==> i == j,
        parsed_size(s) == Err::<nat, SizeFault>(SizeFault::NoNumber) <==> i < j && !('0' <= s[i]
            <= '9'),
{
    let core = s.subrange(i, j);
    law_text_is_trimmed(s, i, j);
    lemma_no_underscore(core);
    if i < j {
        assert(core[0] == s[i]);
    }
}

/// A master key is sixty-four hexadecimal digits with white space around them, and reads back from
/// its digits.
pub proof fn law_master_key_reads_back(key: Seq<u8>, s: Seq<char>, i: int, j: int)
    requires
        key.len() == 32,
        is_core(s, i, j),
        s.subrange(i, j) == hex_text(key),
    ensures
        parsed_master_key(s) is Ok,
        parsed_master_key(s)->Ok_0 == key,
{
    let text = hex_text(key);
    law_text_is_trimmed(s, i, j);
    lemma_digits_are_bytes(text, key);
}

/// Plain text of another length is no master key, and neither is plain text of that length with
/// something in it that is no hexadecimal digit.
pub proof fn law_master_key_is_refused(s: Seq<char>, i: int, j: int, k: int)
    requires
        is_core(s, i, j),
        forall|n: int| i <= n < j ==> '\0' <= #[trigger] s[n] <= '\u{7f}',
        i <= k < j ==> hex_value(s[k] as int) is None,
    ensures
        j - i != 64 ==> parsed_master_key(s) == Err::<Seq<u8>, KeyError>(KeyError::Length),
        j - i == 64 && i <= k < j ==> parsed_master_key(s) == Err::<Seq<u8>, KeyError>(
            KeyError::Digits,
        ),
{
    let text = s.subrange(i, j);
    law_text_is_trimmed(s, i, j);
    assert forall|n: int| 0 <= n < text.len() implies '\0' <= #[trigger] text[n] <= '\u{7f}' by {
        assert(text[n] == s[i + n]);
    }
    assert(is_ascii_chars(text));
    is_ascii_chars_encode_utf8(text);
    if j - i == 64 && i <= k < j {
        let bytes = vstd::utf8::encode_utf8(text);
        assert(text[k - i] == s[k]);
        assert(bytes[k - i] as int == s[k] as int);
        assert(hex_value(bytes[k - i] as int) is None);
    }
}

proof fn lemma_digits_are_bytes(text: Seq<char>, key: Seq<u8>)
    requires
        key.len() == 32,
        text == hex_text(key),
    ensures
        ({
            let bytes = vstd::utf8::encode_utf8(text);
            &&& bytes.len() == 64
            &&& forall|k: int| 0 <= k < 64 ==> hex_value(#[trigger] bytes[k] as int) is Some
            &&& hex_bytes(bytes) == key
        }),
{
    let bytes = vstd::utf8::encode_utf8(text);
    assert forall|k: int| 0 <= k < text.len() implies '\0' <= #[trigger] text[k] <= '\u{7f}'
        && hex_value(text[k] as int) is Some by {
        let x = key[k / 2] as int;
        assert(0 <= x / 16 < 16 && 0 <= x % 16 < 16);
    }
    assert(is_ascii_chars(text));
    is_ascii_chars_encode_utf8(text);
    assert forall|k: int| 0 <= k < 64 implies hex_value(#[trigger] bytes[k] as int) is Some
        && bytes[k] as int == text[k] as int by {
        assert(hex_value(text[k] as int) is Some);
    }
    assert forall|k: int| 0 <= k < 32 implies #[trigger] hex_bytes(bytes)[k] == key[k] by {
        law_bytes_are_written_in_pairs(key, k);
        assert(bytes[2 * k] as int == text[2 * k] as int);
        assert(bytes[2 * k + 1] as int == text[2 * k + 1] as int);
    }
    assert(hex_bytes(bytes) =~= key);
}

/// Somewhere in the text the number stands in decimal right behind the label.
pub open spec fn tells(text: Seq<char>, label: Seq<char>, n: nat) -> bool {
    exists|at: int| #[trigger] stands_at(text, label + decimal(n), at)
}

/// The part stands in the text at the place.
pub open spec fn stands_at(text: Seq<char>, part: Seq<char>, at: int) -> bool {
    0 <= at && at + part.len() <= text.len() && text.subrange(at, at + part.len()) == part
}

proof fn lemma_told(text: Seq<char>, more: Seq<char>)
    ensures
        forall|label: Seq<char>, n: nat| #[trigger]
            tells(text, label, n) ==> tells(text + more, label, n),
{
    assert forall|label: Seq<char>, n: nat| #[trigger] tells(text, label, n) implies tells(
        text + more,
        label,
        n,
    ) by {
        let part = label + decimal(n);
        let at = choose|at: int| #[trigger] stands_at(text, part, at);
        assert((text + more).subrange(at, at + part.len()) =~= text.subrange(at, at + part.len()));
        assert(stands_at(text + more, part, at));
    }
}

/// The text with a label and a number behind it, which tells all that the text tells, and this.
proof fn told(text: Seq<char>, label: Seq<char>, n: nat) -> (r: Seq<char>)
    ensures
        r == text + label + decimal(n),
        tells(r, label, n),
        forall|other: Seq<char>, m: nat| #[trigger]
            tells(text, other, m) ==> tells(r, other, m),
{
    let r = text + label + decimal(n);
    let part = label + decimal(n);
    assert(r =~= text + part);
    lemma_told(text, part);
    assert(r.subrange(text.len() as int, text.len() as int + part.len()) =~= part);
    assert(stands_at(r, part, text.len() as int));
    r
}

/// The report of a blob's layout tells every number behind its own label.
#[verifier::rlimit(30)]
pub proof fn law_report_tells_every_number(stats: BlobLayoutStats, text: String)
    requires
        call_ensures(BlobLayoutStats::report, (&stats,), text),
    ensures
        tells(text@, "file_size:              "@, stats.file_size as nat),
        tells(text@, "\nfront_matter:           "@, stats.front_matter_bytes as nat),
        tells(text@, "\nbody:                   "@, stats.body_bytes as nat),
        tells(text@, "\nlocator:                generation="@, stats.locator_generation as nat),
        tells(text@, "\nchunks:                 count="@, stats.chunk_count as nat),
        tells(text@, " plaintext="@, stats.chunk_plaintext_bytes as nat),
        tells(text@, " frames="@, stats.chunk_frame_bytes as nat),
        tells(text@, " (overhead="@, stats.chunk_frame_overhead_bytes as nat),
        tells(
            text@,
            ")\ngaps (data region):     before_first_chunk="@,
            stats.gap_before_first_chunk_bytes as nat,
        ),
        tells(text@, " inter_chunk="@, stats.inter_chunk_gap_bytes as nat),
        tells(text@, " leading_before_index="@, stats.leading_gap_bytes as nat),
        tells(text@, "\ndata_tail:              "@, stats.data_tail as nat),
        tells(text@, "\nindex:                  offset="@, stats.index_offset as nat),
        tells(text@, " length="@, stats.index_length as nat),
        tells(text@, " (ciphertext=entries_plaintext="@, stats.index_entry_plaintext_bytes as nat),
        tells(text@, ")\ntrailing_gap:           "@, stats.trailing_gap_bytes as nat),
        tells(text@, "\nbody_unclassified:      "@, stats.body_unclassified_bytes as nat),
{
    let t0 = Seq::<char>::empty();
    let t1 = told(t0, "file_size:              "@, stats.file_size as nat);
    let t2 = told(t1, "\nfront_matter:           "@, stats.front_matter_bytes as nat);
    let t3 = told(t2, "\nbody:                   "@, stats.body_bytes as nat);
    let t4 = told(t3, "\nlocator:                generation="@, stats.locator_generation as nat);
    let t5 = told(t4, "\nchunks:                 count="@, stats.chunk_count as nat);
    let t6 = told(t5, " plaintext="@, stats.chunk_plaintext_bytes as nat);
    let t7 = told(t6, " frames="@, stats.chunk_frame_bytes as nat);
    let t8 = told(t7, " (overhead="@, stats.chunk_frame_overhead_bytes as nat);
    let t9 = told(
        t8,
        ")\ngaps (data region):     before_first_chunk="@,
        stats.gap_before_first_chunk_bytes as nat,
    );
    let t10 = told(t9, " inter_chunk="@, stats.inter_chunk_gap_bytes as nat);
    let t11 = told(t10, " leading_before_index="@, stats.leading_gap_bytes as nat);
    let t12 = told(t11, "\ndata_tail:              "@, stats.data_tail as nat);
    let t13 = told(t12, "\nindex:                  offset="@, stats.index_offset as nat);
    let t14 = told(t13, " length="@, stats.index_length as nat);
    let t15 = told(
        t14,
        " (ciphertext=entries_plaintext="@,
        stats.index_entry_plaintext_bytes as nat,
    );
    let t16 = told(t15, ")\ntrailing_gap:           "@, stats.trailing_gap_bytes as nat);
    let t17 = told(t16, "\nbody_unclassified:      "@, stats.body_unclassified_bytes as nat);
    assert(t1 =~= "file_size:              "@ + decimal(stats.file_size as nat));
    lemma_told(t17, " (stale ciphertext / relocation slack)\n"@);
}

/// A locator in words tells its slot, its generation, and where the index stands and how long it
/// is.
pub proof fn law_locator_is_told(
    slot_index: u8,
    generation: u64,
    index_offset: u64,
    index_length: u64,
    text: String,
)
    requires
        call_ensures(
            format_locator,
            (slot_index, generation, index_offset, index_length),
            text,
        ),
    ensures
        tells(text@, "slot="@, slot_index as nat),
        tells(text@, " generation="@, generation as nat),
        tells(text@, " index_offset="@, index_offset as nat),
        tells(text@, " index_length="@, index_length as nat),
{
    let t0 = Seq::<char>::empty();
    let t1 = told(t0, "slot="@, slot_index as nat);
    let t2 = told(t1, " generation="@, generation as nat);
    let t3 = told(t2, " index_offset="@, index_offset as nat);
    let t4 = told(t3, " index_length="@, index_length as nat);
    assert(t1 =~= "slot="@ + decimal(slot_index as nat));
    assert(text@ == t4);
}

/// A size that no memory of the platform can have is refused as too large; any other is read as
/// every size is.
pub proof fn law_size_has_to_fit_memory(
    s: &str,
    size: Result<u64, SizeError>,
    fitting: Result<usize, SizeError>,
)
    requires
        call_ensures(parse_byte_size, (s,), size),
        call_ensures(parse_byte_size_usize, (s,), fitting),
    ensures
        size is Ok && size->Ok_0 <= usize::MAX ==> fitting is Ok && fitting->Ok_0 == size->Ok_0,
        size is Ok && size->Ok_0 > usize::MAX ==> fitting is Err && fitting->Err_0@
            == SizeFault::TooLarge,
        size is Err ==> fitting is Err && fitting->Err_0@ == size->Err_0@,
        parsed_size(s@) is Ok <==> size is Ok,
{
}

} // verus!
