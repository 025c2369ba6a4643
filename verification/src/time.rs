//! Instants as plain values, and the RFC 2822 / RFC 3339 parsing that WebDAV
//! `getlastmodified` values need.
use vstd::prelude::*;

verus! {

/// A UTC instant: whole seconds since the Unix epoch and the sub-second nanoseconds
/// (chrono's `timestamp()` and `timestamp_subsec_nanos()`).
#[derive(Clone, Copy, Debug)]
pub struct Timestamp {
    pub secs: i64,
    pub nanos: u32,
}

/// Nanoseconds since the epoch.
pub open spec fn nanos_of(t: Timestamp) -> int {
    t.secs as int * 1_000_000_000 + t.nanos as int
}

/// `true` when the two instants lie at least one whole second apart, i.e. when the
/// whole-second part of their difference (truncated toward zero) is non-zero.
pub open spec fn a_second_apart(a: Timestamp, b: Timestamp) -> bool {
    nanos_of(a) - nanos_of(b) >= 1_000_000_000 || nanos_of(b) - nanos_of(a) >= 1_000_000_000
}

/// The instant as a 128-bit nanosecond count.
pub fn to_nanos(t: Timestamp) -> (r: i128)
    ensures
        r == nanos_of(t),
{
    let s = t.secs as i128;
    assert(-0x8000_0000_0000_0000 <= s <= 0x7fff_ffff_ffff_ffff);
    assert(-0x8000_0000_0000_0000 * 1_000_000_000 <= s * 1_000_000_000 <= 0x7fff_ffff_ffff_ffff * 1_000_000_000) by (nonlinear_arith)
        requires -0x8000_0000_0000_0000 <= s <= 0x7fff_ffff_ffff_ffff;
    s * 1_000_000_000 + t.nanos as i128
}

/// `true` when the instants lie at least one whole second apart.
pub fn seconds_apart(a: Timestamp, b: Timestamp) -> (r: bool)
    ensures
        r == a_second_apart(a, b),
{
    let x = to_nanos(a);
    let y = to_nanos(b);
    x - y >= 1_000_000_000 || y - x >= 1_000_000_000
}

/// `true` when `a` is strictly earlier than `b`.
pub fn is_before(a: Timestamp, b: Timestamp) -> (r: bool)
    ensures
        r == (nanos_of(a) < nanos_of(b)),
{
    to_nanos(a) < to_nanos(b)
}

/// The instant that chrono's `DateTime::parse_from_rfc2822` reads from `text`, as
/// (seconds, sub-second nanoseconds), or `None` when it rejects the text.
pub uninterp spec fn rfc2822_instant(text: Seq<char>) -> Option<(i64, u32)>;

/// The instant that chrono's `DateTime::parse_from_rfc3339` reads from `text`, as
/// (seconds, sub-second nanoseconds), or `None` when it rejects the text.
pub uninterp spec fn rfc3339_instant(text: Seq<char>) -> Option<(i64, u32)>;

/// chrono's `DateTime::parse_from_rfc2822`. Claimed: the result is the named instant of
/// the text; nothing is claimed of which texts parse.
#[verifier::external_body]
fn parse_rfc2822(text: &str) -> (r: Option<(i64, u32)>)
    ensures
        r == rfc2822_instant(text@),
{
    match chrono::DateTime::parse_from_rfc2822(text) {
        Ok(dt) => Some((dt.timestamp(), dt.timestamp_subsec_nanos())),
        Err(_) => None,
    }
}

/// chrono's `DateTime::parse_from_rfc3339`. Claimed: the result is the named instant of
/// the text; nothing is claimed of which texts parse.
#[verifier::external_body]
pub(crate) fn parse_rfc3339(text: &str) -> (r: Option<(i64, u32)>)
    ensures
        r == rfc3339_instant(text@),
{
    match chrono::DateTime::parse_from_rfc3339(text) {
        Ok(dt) => Some((dt.timestamp(), dt.timestamp_subsec_nanos())),
        Err(_) => None,
    }
}

/// The instant a WebDAV `getlastmodified` text denotes: RFC 2822 first, then RFC 3339.
pub open spec fn last_modified_instant(text: Seq<char>) -> Option<Timestamp> {
    match rfc2822_instant(text) {
        Some(p) => Some(Timestamp { secs: p.0, nanos: p.1 }),
        None => match rfc3339_instant(text) {
            Some(p) => Some(Timestamp { secs: p.0, nanos: p.1 }),
            None => None,
        },
    }
}

/// Decodes a WebDAV `last_modified` time (RFC 2822 or RFC 3339).
pub fn parse_last_modified(s: &str) -> (r: Option<Timestamp>)
    ensures
        r == last_modified_instant(s@),
{
    if let Some(p) = parse_rfc2822(s) {
        return Some(Timestamp { secs: p.0, nanos: p.1 });
    }
    if let Some(p) = parse_rfc3339(s) {
        return Some(Timestamp { secs: p.0, nanos: p.1 });
    }
    None
}

/// The text chrono's `DateTime<Utc>::to_rfc3339` gives for the instant `secs` seconds
/// and `nanos` nanoseconds after the epoch (empty where chrono cannot represent it).
pub uninterp spec fn rfc3339_text(secs: i64, nanos: u32) -> Seq<char>;

/// chrono's `DateTime::<Utc>::from_timestamp` then `to_rfc3339`. Claimed: the result is
/// the named text of the instant.
#[verifier::external_body]
pub(crate) fn format_rfc3339(t: Timestamp) -> (r: String)
    ensures
        r@ == rfc3339_text(t.secs, t.nanos),
{
    match chrono::DateTime::from_timestamp(t.secs, t.nanos) {
        Some(d) => d.to_rfc3339(),
        None => String::new(),
    }
}

/// An instant as RFC 3339 text in UTC (as chrono's `to_rfc3339`), e.g. a file's
/// modification time as the diagnostics list it.
pub fn rfc3339_of(t: Timestamp) -> (r: String)
    ensures
        r@ == rfc3339_text(t.secs, t.nanos),
{
    format_rfc3339(t)
}

/// `true` when the two instants are the same.
pub fn same_instant(a: Timestamp, b: Timestamp) -> (r: bool)
    ensures
        r == (a == b),
{
    a.secs == b.secs && a.nanos == b.nanos
}

} // verus!
