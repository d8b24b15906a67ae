//! RFC 2822 dates, through the `time` crate.
//!
//! Parsing and formatting are functions of their input alone, so each
//! result is given a name that the rest of the library's contracts use.

use vstd::prelude::*;

verus! {

/// What `time`'s RFC 2822 parser yields for a byte string: the Unix
/// timestamp, or nothing when the text is not a valid RFC 2822 date or
/// not UTF-8.
pub uninterp spec fn rfc2822_ts(s: Seq<u8>) -> Option<i64>;

/// What `time`'s RFC 2822 formatter writes for a Unix timestamp; empty
/// for a timestamp outside the formatter's range.
pub uninterp spec fn rfc2822_text(t: i64) -> Seq<u8>;

/// Relies on `time::OffsetDateTime::parse` with the `Rfc2822` format:
/// deterministic in the input text; errors are treated as "no date".
#[verifier::external_body]
pub fn parse_rfc2822(s: &[u8]) -> (r: Option<i64>)
    ensures
        r == rfc2822_ts(s@),
{
    let text = match std::str::from_utf8(s) {
        Ok(t) => t,
        Err(_) => return None,
    };
    match time::OffsetDateTime::parse(text, &time::format_description::well_known::Rfc2822) {
        Ok(d) => Some(d.unix_timestamp()),
        Err(_) => None,
    }
}

/// Relies on `time::OffsetDateTime::format` with the `Rfc2822` format:
/// deterministic in the timestamp; outside the formatter's range the
/// result is empty.
#[verifier::external_body]
pub fn format_rfc2822(t: i64) -> (r: Vec<u8>)
    ensures
        r@ == rfc2822_text(t),
{
    time::OffsetDateTime::from_unix_timestamp(t)
        .ok()
        .and_then(|d| d.format(&time::format_description::well_known::Rfc2822).ok())
        .map(|s| s.into_bytes())
        .unwrap_or_default()
}

} // verus!
