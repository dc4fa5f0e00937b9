//! The current time.

use vstd::prelude::*;

verus! {

/// Whether the characters of `s` from `i` up to `j` are ASCII digits.
pub open spec fn digits_at(s: Seq<char>, i: int, j: int) -> bool {
    forall|k: int| i <= k < j ==> '0' <= #[trigger] s[k] <= '9'
}

/// Whether a date and a time of day, `YYYY-MM-DDTHH:MM:SS`, end at position `end`. A year
/// of more than four digits begins before that.
pub open spec fn is_date_time(s: Seq<char>, end: int) -> bool {
    &&& 19 <= end <= s.len()
    &&& digits_at(s, end - 19, end - 15) && s[end - 15] == '-'
    &&& digits_at(s, end - 14, end - 12) && s[end - 12] == '-'
    &&& digits_at(s, end - 11, end - 9) && s[end - 9] == 'T'
    &&& digits_at(s, end - 8, end - 6) && s[end - 6] == ':'
    &&& digits_at(s, end - 5, end - 3) && s[end - 3] == ':'
    &&& digits_at(s, end - 2, end)
}

/// Whether `s` is a date and a time of day, a fraction of a second that takes up `f`
/// characters, and the offset of UTC.
pub open spec fn is_utc_with(s: Seq<char>, f: int) -> bool {
    let end = s.len() - 6 - f;
    &&& is_date_time(s, end)
    &&& f > 0 ==> s[end] == '.' && digits_at(s, end + 1, end + f)
    &&& s.skip(end + f) == "+00:00"@
}

/// Whether `s` is a UTC time in the form of RFC 3339, with no fraction of a second or
/// one of three, six or nine digits.
pub open spec fn is_utc_time(s: Seq<char>) -> bool {
    is_utc_with(s, 0) || is_utc_with(s, 4) || is_utc_with(s, 7) || is_utc_with(s, 10)
}

/// `chrono::Utc::now` and `DateTime::to_rfc3339` of the chrono crate: the current
/// UTC time as ISO 8601 (RFC 3339) text. Which time it is depends on the clock, so only
/// the form of the text is claimed.
#[verifier::external_body]
pub(crate) fn now() -> (r: String)
    ensures
        is_utc_time(r@),
{
    chrono::Utc::now().to_rfc3339()
}

} // verus!
