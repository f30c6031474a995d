//! The clock dependency: trusted wrappers around `chrono` that hand the
//! verified code the current instant as plain values. Nothing exact can be
//! promised of a reading of the clock, so each contract states only what
//! holds of every outcome.

use vstd::prelude::*;
use crate::text::line_clean;

verus! {

/// Relies on `chrono::Utc::now` with `DateTime::timestamp`,
/// `timestamp_subsec_millis` and `timestamp_subsec_micros`: seconds since the
/// Unix epoch, and the millisecond and microsecond remainders, which stay
/// under 2 000 and 2 000 000 even on a leap second.
#[verifier::external_body]
pub(crate) fn now_timestamp_parts() -> (r: (i64, u32, u32))
    ensures
        r.1 < 2000,
        r.2 < 2_000_000,
{
    let now = chrono::Utc::now();
    (now.timestamp(), now.timestamp_subsec_millis(), now.timestamp_subsec_micros())
}

/// Relies on `chrono::Local::now` and `DateTime::to_rfc2822`: the current
/// local time as one nonempty RFC 2822 line, free of CR and LF.
#[verifier::external_body]
pub(crate) fn now_rfc2822() -> (r: Vec<u8>)
    ensures
        line_clean(r@),
        r@.len() > 0,
{
    chrono::Local::now().to_rfc2822().into_bytes()
}

/// Relies on `chrono::Local::now`, `DateTime::naive_utc` formatted with
/// `"%c"`, and `DateTime::to_rfc2822`: one current instant rendered both as
/// a ctime-style UTC timestamp without timezone and as an RFC 2822 date.
/// Both renderings are nonempty single lines, free of CR and LF.
#[verifier::external_body]
pub(crate) fn now_envelope_stamps() -> (r: (Vec<u8>, Vec<u8>))
    ensures
        line_clean(r.0@),
        r.0@.len() > 0,
        line_clean(r.1@),
        r.1@.len() > 0,
{
    let now = chrono::Local::now();
    let ctime = now.naive_utc().format("%c").to_string().into_bytes();
    let date = now.to_rfc2822().into_bytes();
    (ctime, date)
}

} // verus!
