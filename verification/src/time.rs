//! When entries are written.

use vstd::prelude::*;
use vstd::utf8::*;

verus! {

/// A decimal digit.
pub open spec fn is_digit(c: char) -> bool {
    '0' <= c && c <= '9'
}

/// A fixed-width datetime: `YYYY-MM-DDTHH:MM:SS`.
pub open spec fn is_datetime(text: Seq<char>) -> bool {
    &&& text.len() == 19
    &&& forall|i: int|
        0 <= i < 19 ==> if i == 4 || i == 7 {
            #[trigger] text[i] == '-'
        } else if i == 10 {
            text[i] == 'T'
        } else if i == 13 || i == 16 {
            text[i] == ':'
        } else {
            is_digit(text[i])
        }
}

/// The number that the two digits at a position write.
pub open spec fn two_digits(text: Seq<char>, at: int) -> int {
    10 * (text[at] as int - '0' as int) + (text[at + 1] as int - '0' as int)
}

/// The year, month, day, hour, minute and second of a datetime, from the most to the least
/// significant, as one number. It grows with time.
pub open spec fn instant(text: Seq<char>) -> int {
    10000000000 * (100 * two_digits(text, 0) + two_digits(text, 2)) + 100000000 * two_digits(text, 5)
        + 1000000 * two_digits(text, 8) + 10000 * two_digits(text, 11) + 100 * two_digits(text, 14)
        + two_digits(text, 17)
}

/// From position `at` on, the text is a month, day, hour, minute and second: `-MM-DDTHH:MM:SS`.
pub open spec fn is_within_year(text: Seq<char>, at: int) -> bool {
    &&& text.len() == at + 15
    &&& text[at] == '-' && is_digit(text[at + 1]) && is_digit(text[at + 2])
    &&& text[at + 3] == '-' && is_digit(text[at + 4]) && is_digit(text[at + 5])
    &&& text[at + 6] == 'T' && is_digit(text[at + 7]) && is_digit(text[at + 8])
    &&& text[at + 9] == ':' && is_digit(text[at + 10]) && is_digit(text[at + 11])
    &&& text[at + 12] == ':' && is_digit(text[at + 13]) && is_digit(text[at + 14])
    &&& 1 <= two_digits(text, at + 1) <= 12
    &&& 1 <= two_digits(text, at + 4) <= 31
    &&& two_digits(text, at + 7) <= 23
    &&& two_digits(text, at + 10) <= 59
    &&& two_digits(text, at + 13) <= 60
}

/// What a clock tells: a year of four digits, or of more with a `+` in front, and the time within
/// the year.
pub open spec fn is_timestamp(text: Seq<char>) -> bool {
    let year = text.len() - 15;
    &&& is_within_year(text, year)
    &&& if year == 4 {
        forall|i: int| 0 <= i < 4 ==> is_digit(#[trigger] text[i])
    } else {
        &&& year >= 6
        &&& text[0] == '+'
        &&& forall|i: int| 1 <= i < year ==> is_digit(#[trigger] text[i])
    }
}

/// Up to the year 9999, what a clock tells is a datetime of fixed width.
pub proof fn timestamps_are_datetimes(text: Seq<char>)
    requires
        is_timestamp(text),
    ensures
        text.len() >= 19,
        text.len() == 19 <==> is_datetime(text),
{
}

/// `chrono::Utc::now`, written out by `format`.
///
/// Whatever the time, the text is a timestamp: the year takes four digits, or, after 9999, more
/// with a `+` in front. Which time it is cannot be stated. A clock that is set to before 1970, or
/// past the last year that `chrono` knows, makes `chrono::Utc::now` panic.
#[verifier::external_body]
pub(crate) fn utc_now(format: &str) -> (r: String)
    requires
        format@ == "%Y-%m-%dT%H:%M:%S"@,
    ensures
        is_timestamp(r@),
{
    chrono::Utc::now().format(format).to_string()
}

/// The text is what the clock told in some call of it.
pub closed spec fn is_reading(text: Seq<char>) -> bool {
    exists|format: &str, reading: String|
        format@ == "%Y-%m-%dT%H:%M:%S"@ && reading@ == text && #[trigger] call_ensures(
            utc_now,
            (format,),
            reading,
        )
}

/// A reading came from a call of the clock, for year, month, day, hour, minute and second; no
/// other text counts as one.
pub(crate) proof fn readings_are_told_by_the_clock(text: Seq<char>)
    requires
        is_reading(text),
    ensures
        exists|format: &str, reading: String|
            format@ == "%Y-%m-%dT%H:%M:%S"@ && reading@ == text && #[trigger] call_ensures(
                utc_now,
                (format,),
                reading,
            ),
{
}

/// What the clock tells is a timestamp.
pub proof fn readings_are_timestamps(text: Seq<char>)
    requires
        is_reading(text),
    ensures
        is_timestamp(text),
{
}

/// The current time, in UTC.
///
/// Up to the year 9999 it is a datetime of fixed width.
pub fn current_date_time() -> (r: String)
    ensures
        is_timestamp(r@),
        is_reading(r@),
{
    utc_now("%Y-%m-%dT%H:%M:%S")
}

/// The first position at which two texts of the same length differ.
proof fn first_difference(a: Seq<char>, b: Seq<char>) -> (k: int)
    requires
        a.len() == b.len(),
        a != b,
    ensures
        0 <= k < a.len(),
        a[k] != b[k],
        forall|i: int| 0 <= i < k ==> a[i] == b[i],
    decreases a.len(),
{
    if a.len() == 0 {
        assert(a =~= b);
        0
    } else if a[0] != b[0] {
        0
    } else {
        if a.drop_first() == b.drop_first() {
            assert(a =~= seq![a[0]] + a.drop_first());
            assert(b =~= seq![b[0]] + b.drop_first());
        }
        let k = first_difference(a.drop_first(), b.drop_first());
        assert forall|i: int| 0 <= i < k + 1 implies a[i] == b[i] by {
            if i > 0 {
                assert(a.drop_first()[i - 1] == b.drop_first()[i - 1]);
            }
        }
        k + 1
    }
}

/// The first difference decides which bytes come first.
proof fn first_difference_decides(a: Seq<u8>, b: Seq<u8>, k: int)
    requires
        0 <= k < a.len(),
        k < b.len(),
        a[k] != b[k],
        forall|i: int| 0 <= i < k ==> a[i] == b[i],
    ensures
        crate::order::bytes_before(a, b) == (a[k] < b[k]),
    decreases k,
{
    if k > 0 {
        let c = a.drop_first();
        let d = b.drop_first();
        assert forall|i: int| 0 <= i < k - 1 implies c[i] == d[i] by {
            assert(a[i + 1] == b[i + 1]);
        }
        first_difference_decides(c, d, k - 1);
    }
}

/// The first difference decides which instant is earlier.
proof fn first_digit_decides(a: Seq<char>, b: Seq<char>, k: int)
    requires
        is_datetime(a),
        is_datetime(b),
        0 <= k < 19,
        a[k] < b[k],
        forall|i: int| 0 <= i < k ==> a[i] == b[i],
    ensures
        instant(a) < instant(b),
{
    assert forall|i: int| 0 <= i < 19 implies is_digit(#[trigger] a[i]) == is_digit(b[i]) by {}
}

/// Datetimes of fixed width are ordered as texts in the order of the moments that they tell.
pub proof fn datetimes_are_in_chronological_order(a: Seq<char>, b: Seq<char>)
    requires
        is_datetime(a),
        is_datetime(b),
    ensures
        crate::order::text_before(a, b) <==> instant(a) < instant(b),
        a == b <==> instant(a) == instant(b),
{
    if a == b {
        crate::order::text_before_irreflexive(a);
    } else {
        let k = first_difference(a, b);
        assert forall|i: int| 0 <= i < 19 implies (#[trigger] a[i] as u32) < 128 && (b[i] as u32)
            < 128 by {}
        assert(is_ascii_chars(a));
        assert(is_ascii_chars(b));
        is_ascii_chars_encode_utf8(a);
        is_ascii_chars_encode_utf8(b);
        first_difference_decides(encode_utf8(a), encode_utf8(b), k);
        if a[k] < b[k] {
            first_digit_decides(a, b, k);
        } else {
            first_digit_decides(b, a, k);
        }
    }
}

} // verus!
