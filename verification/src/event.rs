//! Events reported by the monitor, their wall-clock timestamps and the
//! RFC 3339 text form of those timestamps.

use crate::tcp::Tcp4Event;
use crate::udp::Udp4Event;
use time::format_description::well_known::Rfc3339;
use time::OffsetDateTime;
use vstd::prelude::*;

verus! {

pub const NANOS_PER_SEC: u64 = 1_000_000_000;

/// A point in time as a duration since the UNIX epoch.
#[derive(Debug, Clone, Copy, PartialEq, Eq)]
pub struct Timestamp {
    pub secs: u64,
    pub nanos: u32,
}

/// The big-endian octets of an IPv4 address held in a `u32`.
pub open spec fn spec_octets_of(x: u32) -> Seq<u8> {
    seq![(x >> 24u32) as u8, (x >> 16u32) as u8, (x >> 8u32) as u8, x as u8]
}

/// The octets of an IPv4 address given as a native `u32` (as
/// `Ipv4Addr::from(u32)` does).
pub fn ipv4_octets(x: u32) -> (r: [u8; 4])
    ensures
        r@ == spec_octets_of(x),
{
    let r = [(x >> 24u32) as u8, (x >> 16u32) as u8, (x >> 8u32) as u8, x as u8];
    assert(r@ =~= spec_octets_of(x));
    r
}

/// The wall-clock time `boot_ns` nanoseconds after a boot that took
/// place `boot_secs` seconds after the epoch; the zero duration when
/// the sum does not fit.
pub open spec fn spec_wall_clock(boot_secs: u64, boot_ns: u64) -> Timestamp {
    let secs = boot_secs as int + boot_ns as int / NANOS_PER_SEC as int;
    if secs <= u64::MAX {
        Timestamp { secs: secs as u64, nanos: (boot_ns % NANOS_PER_SEC) as u32 }
    } else {
        Timestamp { secs: 0, nanos: 0 }
    }
}

impl Timestamp {
    pub open spec fn wf(&self) -> bool {
        self.nanos < NANOS_PER_SEC
    }

    /// Nanoseconds since the epoch.
    pub open spec fn total_nanos(&self) -> int {
        self.secs as int * NANOS_PER_SEC as int + self.nanos as int
    }

    /// The epoch plus `boot_secs` seconds, plus `boot_ns` nanoseconds
    /// (checked addition of durations, zero on overflow).
    pub fn after_boot(boot_secs: u64, boot_ns: u64) -> (r: Self)
        ensures
            r == spec_wall_clock(boot_secs, boot_ns),
            r.wf(),
    {
        let extra: u64 = boot_ns / NANOS_PER_SEC;
        let nanos: u32 = (boot_ns % NANOS_PER_SEC) as u32;
        match boot_secs.checked_add(extra) {
            Some(secs) => Timestamp { secs, nanos },
            None => Timestamp { secs: 0, nanos: 0 },
        }
    }
}

/// The RFC 3339 text of the instant `unix_nanos` nanoseconds after the
/// epoch, when the instant can be represented and formatted.
pub uninterp spec fn spec_rfc3339_text(unix_nanos: int) -> Option<Seq<char>>;

/// The instant denoted by an RFC 3339 text, in nanoseconds since the
/// epoch, when the text is valid RFC 3339.
pub uninterp spec fn spec_rfc3339_unix_nanos(text: Seq<char>) -> Option<int>;

/// `OffsetDateTime::from_unix_timestamp_nanos` followed by
/// `OffsetDateTime::format(&Rfc3339)` (time crate). The text and
/// whether one is produced are named by [`spec_rfc3339_text`]; the
/// error message is not described. The text produced parses back, with
/// `OffsetDateTime::parse(.., &Rfc3339)`, to the same instant: the
/// formatter writes the date, the time with every non-zero fraction
/// digit and the offset, all of which the parser reads.
#[verifier::external_body]
fn rfc3339_format(unix_nanos: i128) -> (r: Result<String, String>)
    ensures
        match spec_rfc3339_text(unix_nanos as int) {
            Some(t) => r matches Ok(s) && s@ == t,
            None => r is Err,
        },
        r matches Ok(s) ==> spec_rfc3339_unix_nanos(s@) == Some(unix_nanos as int),
{
    match OffsetDateTime::from_unix_timestamp_nanos(unix_nanos) {
        Ok(dt) => match dt.format(&Rfc3339) {
            Ok(s) => Ok(s),
            Err(e) => Err(e.to_string()),
        },
        Err(e) => Err(e.to_string()),
    }
}

/// `OffsetDateTime::parse(text, &Rfc3339)` followed by
/// `unix_timestamp_nanos` (time crate). The instant and whether the
/// text is accepted are named by [`spec_rfc3339_unix_nanos`]; the error
/// message is not described.
#[verifier::external_body]
fn rfc3339_parse(text: &str) -> (r: Result<i128, String>)
    ensures
        match spec_rfc3339_unix_nanos(text@) {
            Some(n) => r matches Ok(v) && v as int == n,
            None => r is Err,
        },

{
    match OffsetDateTime::parse(text, &Rfc3339) {
        Ok(dt) => Ok(dt.unix_timestamp_nanos()),
        Err(e) => Err(e.to_string()),
    }
}

/// The RFC 3339 text of a timestamp (the serialized form of event
/// timestamps).
pub fn timestamp_to_rfc3339(ts: Timestamp) -> (r: Result<String, String>)
    requires
        ts.wf(),
    ensures
        match spec_rfc3339_text(ts.total_nanos()) {
            Some(t) => r matches Ok(s) && s@ == t,
            None => r is Err,
        },
        r matches Ok(s) ==> spec_rfc3339_unix_nanos(s@) == Some(ts.total_nanos()),
{
    assert((ts.secs as int) * 1_000_000_000 <= 18446744073709551615 * 1_000_000_000) by (nonlinear_arith)
        requires
            ts.secs <= 18446744073709551615u64,
    ;
    let n: i128 = (ts.secs as i128) * (NANOS_PER_SEC as i128) + (ts.nanos as i128);
    rfc3339_format(n)
}

/// A timestamp is determined by its count of nanoseconds: together with
/// the contracts of [`timestamp_to_rfc3339`] and
/// [`timestamp_from_rfc3339`], the text of a timestamp reads back as that
/// timestamp.
pub proof fn law_timestamp_nanos_determine(a: Timestamp, b: Timestamp)
    requires
        a.wf(),
        b.wf(),
        a.total_nanos() == b.total_nanos(),
    ensures
        a == b,
{
    let n = a.total_nanos();
    vstd::arithmetic::div_mod::lemma_fundamental_div_mod_converse(
        n,
        NANOS_PER_SEC as int,
        a.secs as int,
        a.nanos as int,
    );
    vstd::arithmetic::div_mod::lemma_fundamental_div_mod_converse(
        n,
        NANOS_PER_SEC as int,
        b.secs as int,
        b.nanos as int,
    );
}

/// The timestamp written as RFC 3339 text (the deserialized form of
/// event timestamps): rejected when the text is not RFC 3339 or the
/// instant lies before the epoch.
pub fn timestamp_from_rfc3339(text: &str) -> (r: Result<Timestamp, String>)
    ensures
        match spec_rfc3339_unix_nanos(text@) {
            Some(n) => if n < 0 {
                r matches Err(e) && e@ == "timestamp before UNIX_EPOCH"@
            } else if n / NANOS_PER_SEC as int > u64::MAX {
                r matches Err(e) && e@ == "timestamp out of range"@
            } else {
                r matches Ok(ts) && ts.wf() && ts.total_nanos() == n
            },
            None => r is Err,
        },
{
    match rfc3339_parse(text) {
        Err(e) => Err(e),
        Ok(n) => {
            if n < 0 {
                Err(String::from_str("timestamp before UNIX_EPOCH"))
            } else {
                let secs: i128 = n / (NANOS_PER_SEC as i128);
                let nanos: i128 = n % (NANOS_PER_SEC as i128);
                if secs > u64::MAX as i128 {
                    Err(String::from_str("timestamp out of range"))
                } else {
                    Ok(Timestamp { secs: secs as u64, nanos: nanos as u32 })
                }
            }
        },
    }
}

/// A monitored ingress event.
#[derive(Debug, Clone, Copy, PartialEq, Eq)]
pub enum EfenseEvent {
    Udp4Ingress(Udp4Event),
    Tcp4Ingress(Tcp4Event),
}

} // verus!
