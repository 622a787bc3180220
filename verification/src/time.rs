//! Wall-clock instants and elapsed spans as plain integers.
//!
//! The server reads the clock through chrono and stores timestamps as RFC 3339
//! text. Inside the library an instant is the pair (seconds since the Unix
//! epoch, nanoseconds past that second) that chrono reports, and a span is a
//! non-negative (seconds, nanoseconds) pair like `std::time::Duration`.

use vstd::prelude::*;

verus! {

pub const NANOS_PER_SEC: u32 = 1_000_000_000;

/// A UTC instant: `secs` since 1970-01-01T00:00:00Z and `nanos` past it.
#[derive(Clone, Copy, Debug, PartialEq, Eq)]
pub struct UtcInstant {
    pub secs: i64,
    pub nanos: u32,
}

impl UtcInstant {
    /// Nanoseconds since the epoch.
    pub open spec fn total_nanos(self) -> int {
        self.secs * 1_000_000_000 + self.nanos
    }
}

/// A non-negative span of time, as `std::time::Duration` holds it.
#[derive(Clone, Copy, Debug, PartialEq, Eq)]
pub struct TimeSpan {
    pub secs: u64,
    pub nanos: u32,
}

impl TimeSpan {
    pub open spec fn wf(self) -> bool {
        self.nanos < NANOS_PER_SEC
    }

    pub open spec fn total_nanos(self) -> int {
        self.secs * 1_000_000_000 + self.nanos
    }

    pub fn from_secs(secs: u64) -> (d: TimeSpan)
        ensures
            d.wf(),
            d.secs == secs,
            d.nanos == 0,
    {
        TimeSpan { secs, nanos: 0 }
    }
}

/// Quotient of `a` by `b > 0`, rounded toward zero (Rust's integer division).
pub open spec fn div_toward_zero(a: int, b: int) -> int {
    if a >= 0 {
        a / b
    } else {
        -((-a) / b)
    }
}

/// Whole seconds from `earlier` to `later`, rounded toward zero; negative when
/// `later` comes first.
pub open spec fn whole_seconds_between(later: UtcInstant, earlier: UtcInstant) -> int {
    div_toward_zero(later.total_nanos() - earlier.total_nanos(), 1_000_000_000)
}

pub fn seconds_between(later: UtcInstant, earlier: UtcInstant) -> (r: i128)
    ensures
        r == whole_seconds_between(later, earlier),
{
    let d: i128 = (later.secs as i128 - earlier.secs as i128) * 1_000_000_000i128 + (later.nanos as i128
        - earlier.nanos as i128);
    assert(d == later.total_nanos() - earlier.total_nanos()) by (nonlinear_arith)
        requires
            d == (later.secs as int - earlier.secs as int) * 1_000_000_000 + (later.nanos as int
                - earlier.nanos as int),
    ;
    if d >= 0 {
        d / 1_000_000_000i128
    } else {
        -((-d) / 1_000_000_000i128)
    }
}

/// Whether chrono can represent the instant as a `DateTime<Utc>`
/// (`DateTime::from_timestamp(secs, nanos)` gives `Some`): the day falls
/// between January 1 of year -262143 and December 31 of year 262142, the
/// range of `NaiveDate`, and the nanoseconds are under a second, or under
/// two seconds in the last second of a minute (a leap second).
pub open spec fn utc_representable(secs: i64, nanos: u32) -> bool {
    &&& -8_334_601_228_800 <= secs <= 8_210_266_876_799
    &&& (nanos < 1_000_000_000 || (nanos < 2_000_000_000 && (secs as int) % 60 == 59))
}

/// The text that chrono's `DateTime::<Utc>::to_rfc3339` writes for an instant.
pub uninterp spec fn rfc3339_text(secs: i64, nanos: u32) -> Seq<char>;

/// The instant that chrono's `DateTime::parse_from_rfc3339` reads from a text,
/// converted to UTC; `None` where chrono reports a parse error.
pub uninterp spec fn rfc3339_instant(text: Seq<char>) -> Option<(i64, u32)>;

/// The current time from `chrono::Utc::now()`. Nothing is promised of the value
/// but that chrono can represent it again (chrono documents that
/// `DateTime::from_timestamp(t.timestamp(), t.timestamp_subsec_nanos())`
/// gives back `t`).
#[verifier::external_body]
pub fn utc_now() -> (t: UtcInstant)
    ensures
        utc_representable(t.secs, t.nanos),
{
    let now = chrono::Utc::now();
    UtcInstant { secs: now.timestamp(), nanos: now.timestamp_subsec_nanos() }
}

/// RFC 3339 text of an instant: builds the `DateTime<Utc>` with
/// `DateTime::from_timestamp` and writes it with `to_rfc3339`. The contract
/// names the text; it gives `None` exactly where chrono cannot build the
/// `DateTime`.
#[verifier::external_body]
pub fn format_rfc3339(t: UtcInstant) -> (r: Option<String>)
    ensures
        r is Some == utc_representable(t.secs, t.nanos),
        r matches Some(s) ==> s@ == rfc3339_text(t.secs, t.nanos),
{
    match chrono::DateTime::from_timestamp(t.secs, t.nanos) {
        Some(d) => Some(d.to_rfc3339()),
        None => None,
    }
}

/// Reads an RFC 3339 timestamp with `DateTime::parse_from_rfc3339` and takes it
/// to UTC (`with_timezone(&Utc)`); the contract names the outcome.
#[verifier::external_body]
pub fn parse_rfc3339(s: &str) -> (r: Option<UtcInstant>)
    ensures
        r is Some == rfc3339_instant(s@) is Some,
        r matches Some(t) ==> rfc3339_instant(s@) == Some((t.secs, t.nanos)),
{
    match chrono::DateTime::parse_from_rfc3339(s) {
        Ok(d) => {
            let u = d.with_timezone(&chrono::Utc);
            Some(UtcInstant { secs: u.timestamp(), nanos: u.timestamp_subsec_nanos() })
        },
        Err(_) => None,
    }
}

#[verifier::external_type_specification]
#[verifier::external_body]
pub struct ExInstant(std::time::Instant);

/// A monotonic clock reading (`std::time::Instant::now()`); nothing is
/// promised of it.
#[verifier::external_body]
pub fn instant_now() -> std::time::Instant {
    std::time::Instant::now()
}

/// The current UTC time as RFC 3339 text (`Utc::now().to_rfc3339()`).
pub fn now_rfc3339() -> (r: (UtcInstant, String))
    ensures
        r.1@ == rfc3339_text(r.0.secs, r.0.nanos),
{
    let t = utc_now();
    match format_rfc3339(t) {
        Some(s) => (t, s),
        None => (t, String::new()),
    }
}

} // verus!
