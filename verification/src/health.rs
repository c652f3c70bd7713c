//! The health report.

use vstd::prelude::*;

verus! {

/// The body of a health response.
#[derive(Debug)]
pub struct HealthResponse {
    pub status: String,
    /// When the report was made, in RFC 3339 form.
    pub timestamp: String,
}

/// The RFC 3339 text of the instant `secs` seconds and `nanos` nanoseconds
/// after the Unix epoch in UTC, as `chrono` writes it; `None` for an instant
/// that `chrono` cannot hold.
pub uninterp spec fn rfc3339_text(secs: i64, nanos: u32) -> Option<Seq<char>>;

/// Calls `chrono::DateTime::from_timestamp` and, on the instant it gives,
/// `DateTime::<Utc>::to_rfc3339`. The first gives `None` for seconds out of
/// range or invalid nanoseconds; the second writes the UTC date and time and
/// does not fail. The result depends on the two numbers alone; the contract
/// gives it the name [`rfc3339_text`] and claims nothing more.
#[verifier::external_body]
fn rfc3339(secs: i64, nanos: u32) -> (text: Option<String>)
    ensures
        match text {
            Some(t) => rfc3339_text(secs, nanos) == Some(t@),
            None => rfc3339_text(secs, nanos) is None,
        },
{
    match chrono::DateTime::from_timestamp(secs, nanos) {
        Some(instant) => Some(instant.to_rfc3339()),
        None => None,
    }
}

impl HealthResponse {
    /// The report of a healthy service, made at `timestamp`.
    pub fn ok(timestamp: String) -> (report: HealthResponse)
        ensures
            report.status@ == "ok"@,
            report.timestamp@ == timestamp@,
    {
        HealthResponse { status: String::from_str("ok"), timestamp }
    }

    /// The report of a healthy service, made `secs` seconds and `nanos`
    /// nanoseconds after the Unix epoch. There is none for an instant that
    /// has no RFC 3339 text.
    pub fn at(secs: i64, nanos: u32) -> (report: Option<HealthResponse>)
        ensures
            match report {
                Some(r) => r.status@ == "ok"@ && rfc3339_text(secs, nanos) == Some(
                    r.timestamp@,
                ),
                None => rfc3339_text(secs, nanos) is None,
            },
    {
        match rfc3339(secs, nanos) {
            Some(timestamp) => Some(HealthResponse::ok(timestamp)),
            None => None,
        }
    }
}

} // verus!
