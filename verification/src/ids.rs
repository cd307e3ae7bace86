//! Identifiers and timestamps, from the uuid and chrono crates.

use vstd::prelude::*;

verus! {

/// Whether `c` is a lower-case hexadecimal digit.
pub open spec fn is_lower_hex(c: char) -> bool {
    ('0' <= c <= '9') || ('a' <= c <= 'f')
}

/// Whether `s` has the hyphenated lower-case form of a version 4 UUID:
/// 36 characters, hyphens at positions 8, 13, 18 and 23, the version digit
/// `4` at position 14, and lower-case hexadecimal digits everywhere else.
pub open spec fn is_uuid_v4_text(s: Seq<char>) -> bool {
    &&& s.len() == 36
    &&& forall|i: int|
        0 <= i < 36 ==> if i == 8 || i == 13 || i == 18 || i == 23 {
            #[trigger] s[i] == '-'
        } else {
            is_lower_hex(s[i])
        }
    &&& s[14] == '4'
}

/// A fresh random identifier: `uuid::Uuid::new_v4()` rendered with
/// `to_string`, which writes the hyphenated lower-case form (uuid's `fmt.rs`,
/// `format_hyphenated` with lower-case digits) with the version digit 4. The
/// value itself is random; only its form is stated.
#[verifier::external_body]
pub(crate) fn new_id() -> (id: String)
    ensures
        is_uuid_v4_text(id@),
{
    uuid::Uuid::new_v4().to_string()
}

/// Whether `s` ends with the UTC offset `+00:00` that chrono's `to_rfc3339`
/// writes for a UTC time, after at least a date and a time of day
/// (`YYYY-MM-DDTHH:MM:SS`, 19 characters or more).
pub open spec fn is_utc_rfc3339_text(s: Seq<char>) -> bool {
    s.len() >= 25 && s.subrange(s.len() - 6, s.len() as int) == "+00:00"@
}

/// The current time in UTC: `std::time::SystemTime::now()` converted with
/// chrono's `From<SystemTime> for DateTime<Utc>`, rendered with
/// `to_rfc3339`. A clock set before 1970 gives a negative timestamp rather
/// than a panic; the conversion panics only for a clock beyond chrono's
/// range of about 262,000 years from year 0. The time itself depends on the
/// clock, so only its form is stated: it ends with the offset `+00:00`.
#[verifier::external_body]
pub(crate) fn now_rfc3339() -> (t: String)
    ensures
        is_utc_rfc3339_text(t@),
{
    chrono::DateTime::<chrono::Utc>::from(std::time::SystemTime::now()).to_rfc3339()
}

} // verus!
