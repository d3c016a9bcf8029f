//! Timestamps for rows: seconds and nanoseconds since the Unix epoch.
//!
//! On disk a timestamp is an RFC 3339 string in UTC. Formatting and parsing
//! are delegated to chrono; the store itself only compares timestamps, which
//! it does on the plain integer pair.

use vstd::prelude::*;

verus! {

/// An instant in UTC: seconds since the Unix epoch and a sub-second
/// nanosecond part.
#[derive(Clone, Copy, Debug, PartialEq, Eq, Structural)]
pub struct Timestamp {
    pub secs: i64,
    pub nanos: u32,
}

impl Timestamp {
    /// A timestamp the store can persist: within the years the RFC 3339
    /// format covers, with a plain sub-second part.
    pub open spec fn wf(&self) -> bool {
        &&& -62_167_219_200 <= self.secs <= 253_402_300_799
        &&& self.nanos < 1_000_000_000
    }

    /// `self` is no later than `other`.
    pub open spec fn le_spec(&self, other: &Timestamp) -> bool {
        self.secs < other.secs || (self.secs == other.secs && self.nanos <= other.nanos)
    }

    /// Decide the order of two timestamps.
    pub fn le(&self, other: &Timestamp) -> (r: bool)
        ensures
            r == self.le_spec(other),
    {
        self.secs < other.secs || (self.secs == other.secs && self.nanos <= other.nanos)
    }

    /// Decide whether this timestamp is within the persistable range.
    pub fn is_wf(&self) -> (r: bool)
        ensures
            r == self.wf(),
    {
        -62_167_219_200i64 <= self.secs && self.secs <= 253_402_300_799i64 && self.nanos
            < 1_000_000_000
    }

    /// Clamp an arbitrary instant into the persistable range.
    pub fn clamped(&self) -> (r: Timestamp)
        ensures
            r.wf(),
            self.wf() ==> r == *self,
    {
        let secs = if self.secs < -62_167_219_200i64 {
            -62_167_219_200i64
        } else if self.secs > 253_402_300_799i64 {
            253_402_300_799i64
        } else {
            self.secs
        };
        let nanos = if self.nanos >= 1_000_000_000 {
            999_999_999
        } else {
            self.nanos
        };
        Timestamp { secs, nanos }
    }
}

/// The order is total: of two timestamps one is no later than the other.
pub proof fn lemma_ts_order_total(a: Timestamp, b: Timestamp)
    ensures
        a.le_spec(&b) || b.le_spec(&a),
        a.le_spec(&b) && b.le_spec(&a) ==> a == b,
{
}

/// The RFC 3339 rendering of an instant in UTC. Named but uninterpreted:
/// the rendering is a pure function of the instant, computed by chrono.
pub uninterp spec fn rfc3339_of(secs: int, nanos: int) -> Seq<char>;

/// The instant an RFC 3339 string denotes, if any. Named but
/// uninterpreted: parsing is a pure function of the string, computed by
/// chrono.
pub uninterp spec fn rfc3339_val(s: Seq<char>) -> Option<Timestamp>;

/// The rendering of `t` parses back to `t`.
pub open spec fn ts_round(t: Timestamp) -> bool {
    rfc3339_val(rfc3339_of(t.secs as int, t.nanos as int)) == Some(t)
}

/// Relies on chrono's `DateTime::from_timestamp` and
/// `to_rfc3339_opts(AutoSi, true)`: renders the instant as RFC 3339 in UTC
/// with a `Z` suffix, sub-second digits only when the nanosecond part is
/// non-zero. Chrono's RFC 3339 parser reads the rendered string back to
/// the same instant, which the second clause states of the result.
#[verifier::external_body]
pub fn ts_format(t: &Timestamp) -> (r: String)
    requires
        t.wf(),
    ensures
        r@ == rfc3339_of(t.secs as int, t.nanos as int),
        rfc3339_val(r@) == Some(*t),
{
    let dt = chrono::DateTime::<chrono::Utc>::from_timestamp(t.secs, t.nanos)
        .expect("timestamp within the RFC 3339 year range");
    dt.to_rfc3339_opts(chrono::SecondsFormat::AutoSi, true)
}

/// Relies on chrono's `DateTime::parse_from_rfc3339`, `timestamp` and
/// `timestamp_subsec_nanos`: reads an RFC 3339 string back to the instant
/// it denotes, or nothing when the string is not RFC 3339.
#[verifier::external_body]
pub fn ts_parse(s: &str) -> (r: Option<Timestamp>)
    ensures
        r == rfc3339_val(s@),
{
    match chrono::DateTime::parse_from_rfc3339(s) {
        Ok(dt) => {
            let utc = dt.to_utc();
            Some(Timestamp { secs: utc.timestamp(), nanos: utc.timestamp_subsec_nanos() })
        },
        Err(_) => None,
    }
}

/// Relies on chrono's `Utc::now`: the current instant. Nothing is promised
/// of the clock beyond chrono's own representable range and sub-second
/// encoding; callers clamp the value before persisting it.
#[verifier::external_body]
pub fn ts_now() -> (r: Timestamp)
    ensures
        r.nanos < 2_000_000_000,
{
    let now = chrono::Utc::now();
    Timestamp { secs: now.timestamp(), nanos: now.timestamp_subsec_nanos() }
}

/// The current instant, clamped into the persistable range.
pub fn now_clamped() -> (r: Timestamp)
    ensures
        r.wf(),
{
    let raw = ts_now();
    raw.clamped()
}


} // verus!
