//! Rendering of epoch timestamps as offset-aware ISO-8601 strings in the
//! America/Los_Angeles civil zone.

use vstd::prelude::*;

verus! {

/// What the chrono rendering pipeline returns for a given number of epoch
/// seconds: `None` when the instant is outside chrono's supported range,
/// otherwise the RFC 3339 rendering in the America/Los_Angeles zone. The
/// result depends on the seconds value alone.
pub uninterp spec fn la_rfc3339_of(secs: u64) -> Option<Seq<char>>;

/// Relies on `chrono::DateTime::from_timestamp` (`None` exactly on an
/// out-of-range number of seconds), `DateTime::with_timezone` with
/// chrono-tz's America/Los_Angeles zone, and `DateTime::to_rfc3339`; the
/// composition is a function of `secs` alone, and the RFC 3339 writer
/// always emits a non-empty rendering.
#[verifier::external_body]
fn la_rfc3339_from_secs(secs: u64) -> (r: Option<String>)
    ensures
        r is Some <==> la_rfc3339_of(secs) is Some,
        r matches Some(s) ==> la_rfc3339_of(secs) == Some(s@) && s@.len() > 0,
{
    let signed: i64 = match i64::try_from(secs) {
        Ok(v) => v,
        Err(_) => return None,
    };
    match chrono::DateTime::from_timestamp(signed, 0) {
        Some(dt) => Some(dt.with_timezone(&chrono_tz::America::Los_Angeles).to_rfc3339()),
        None => None,
    }
}

/// The derived local-zoned timestamp for an epoch-millisecond value:
/// milliseconds are truncated to seconds, then rendered in the
/// America/Los_Angeles zone.
pub open spec fn ms_iso_spec(ms: u64) -> Option<Seq<char>> {
    la_rfc3339_of((ms / 1000) as u64)
}

/// Converts epoch milliseconds to the offset-aware local-zoned ISO-8601
/// string, or `None` when the instant lies outside the supported range.
pub fn epoch_ms_to_la_iso(ms: u64) -> (r: Option<String>)
    ensures
        r is Some <==> ms_iso_spec(ms) is Some,
        r matches Some(s) ==> ms_iso_spec(ms) == Some(s@) && s@.len() > 0,
{
    la_rfc3339_from_secs(ms / 1000)
}

} // verus!
