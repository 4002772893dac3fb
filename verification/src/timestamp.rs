//! Instants on the time line, read from RFC 3339 text.

use vstd::prelude::*;
use crate::event::ChainsawEvent;

verus! {

/// An instant: whole seconds since 1970-01-01T00:00:00Z, and the nanoseconds
/// past that second.
#[derive(Debug, Clone, Copy, PartialEq, Eq, Structural)]
pub struct Timestamp {
    pub seconds: i64,
    pub nanos: u32,
}

/// Why a text is not an RFC 3339 date and time.
#[derive(Debug, Clone, Copy, PartialEq, Eq, Structural)]
pub enum TimestampError {
    /// A field holds a number that no date or time has.
    OutOfRange,
    /// The text ends before the date and time are complete.
    TooShort,
    /// Something follows the date and time.
    TooLong,
    /// The text does not read as a date and time for another reason.
    Invalid,
}

/// `chrono::ParseError`, declared without its fields: the error is looked
/// into by `classify` only.
#[verifier::external_type_specification]
#[verifier::external_body]
pub struct ExParseError(chrono::ParseError);

/// The instant that `chrono::DateTime::parse_from_rfc3339` reads from a text,
/// as the pair of `timestamp()` and `timestamp_subsec_nanos()` of the parsed
/// value; `None` where it rejects the text.
pub uninterp spec fn rfc3339_instant(text: Seq<char>) -> Option<(i64, u32)>;

/// Calls `chrono::DateTime::parse_from_rfc3339` and, on success, reads the
/// parsed value's `timestamp()` and `timestamp_subsec_nanos()`.  The contract
/// claims only that the outcome is the one named `rfc3339_instant` for this
/// text: parsing depends on nothing but the characters.
#[verifier::external_body]
fn read_rfc3339(ts: &str) -> (out: Result<Timestamp, chrono::ParseError>)
    ensures
        match out {
            Ok(t) => rfc3339_instant(ts@) == Some((t.seconds, t.nanos)),
            Err(_) => rfc3339_instant(ts@) is None,
        },
{
    match chrono::DateTime::parse_from_rfc3339(ts) {
        Ok(parsed) => Ok(Timestamp {
            seconds: parsed.timestamp(),
            nanos: parsed.timestamp_subsec_nanos(),
        }),
        Err(e) => Err(e),
    }
}

/// Reads `chrono::ParseError::kind` and names the category: out of range,
/// too short and too long as they are, every other one as invalid.  Nothing
/// is claimed of which category comes out.
#[verifier::external_body]
fn classify(e: &chrono::ParseError) -> TimestampError {
    match e.kind() {
        chrono::format::ParseErrorKind::OutOfRange => TimestampError::OutOfRange,
        chrono::format::ParseErrorKind::TooShort => TimestampError::TooShort,
        chrono::format::ParseErrorKind::TooLong => TimestampError::TooLong,
        _ => TimestampError::Invalid,
    }
}

/// The instant that a text denotes, if it is an RFC 3339 date and time.
pub open spec fn instant_of(text: Seq<char>) -> Option<Timestamp> {
    match rfc3339_instant(text) {
        Some((seconds, nanos)) => Some(Timestamp { seconds, nanos }),
        None => None,
    }
}

/// The instant of an optional text: an absent text denotes none.
pub open spec fn instant_of_field(field: Option<Seq<char>>) -> Option<Timestamp> {
    match field {
        Some(text) => instant_of(text),
        None => None,
    }
}

/// Parses an RFC 3339 date and time.  Succeeds exactly on the texts that
/// denote an instant, and returns that instant.
pub fn parse_timestamp(ts: &str) -> (out: Result<Timestamp, TimestampError>)
    ensures
        out is Ok <==> instant_of(ts@) is Some,
        out matches Ok(t) ==> instant_of(ts@) == Some(t),
{
    match read_rfc3339(ts) {
        Ok(t) => Ok(t),
        Err(e) => Err(classify(&e)),
    }
}

/// What becomes of an outcome of parsing when failures are dropped: the
/// instant, or nothing.
pub fn degrade(outcome: Result<Timestamp, TimestampError>) -> (out: Option<Timestamp>)
    ensures
        out == match outcome {
            Ok(t) => Some(t),
            Err(_) => None::<Timestamp>,
        },
{
    match outcome {
        Ok(t) => Some(t),
        Err(_) => None,
    }
}

/// The instant of an event: that of its timestamp field, if the field is
/// present and parses.
pub fn event_instant(ev: &ChainsawEvent) -> (out: Option<Timestamp>)
    ensures
        out == instant_of_field(ev@.timestamp),
{
    match &ev.timestamp {
        Some(text) => degrade(parse_timestamp(text.as_str())),
        None => None,
    }
}

/// The instants of a list of events, position by position.
pub open spec fn instants_of(events: Seq<ChainsawEvent>) -> Seq<Option<Timestamp>> {
    Seq::new(events.len(), |i: int| instant_of_field(events[i]@.timestamp))
}

/// Parses the timestamp of every event once.
pub fn event_instants(events: &[ChainsawEvent]) -> (out: Vec<Option<Timestamp>>)
    ensures
        out@ == instants_of(events@),
{
    let mut out: Vec<Option<Timestamp>> = Vec::new();
    let mut i: usize = 0;
    while i < events.len()
        invariant
            i <= events.len(),
            out.len() == i,
            forall|k: int| 0 <= k < i ==> out@[k] == instant_of_field(events@[k]@.timestamp),
        decreases events.len() - i,
    {
        out.push(event_instant(&events[i]));
        i += 1;
    }
    assert(out@ =~= instants_of(events@));
    out
}

/// Nanoseconds from the epoch to an instant.
pub open spec fn nanos_since_epoch(t: Timestamp) -> int {
    t.seconds * 1_000_000_000 + t.nanos
}

/// The whole seconds between two instants, whichever comes first: the
/// absolute difference, rounded towards zero.
pub open spec fn gap_seconds(a: Timestamp, b: Timestamp) -> int {
    let d = nanos_since_epoch(a) - nanos_since_epoch(b);
    if d < 0 {
        (-d) / 1_000_000_000
    } else {
        d / 1_000_000_000
    }
}

/// The whole seconds between two instants.
pub fn seconds_apart(a: Timestamp, b: Timestamp) -> (gap: i128)
    ensures
        gap == gap_seconds(a, b),
        gap >= 0,
{
    let x: i128 = (a.seconds as i128) * 1_000_000_000 + (a.nanos as i128);
    let y: i128 = (b.seconds as i128) * 1_000_000_000 + (b.nanos as i128);
    let d: i128 = x - y;
    if d < 0 {
        (-d) / 1_000_000_000
    } else {
        d / 1_000_000_000
    }
}

} // verus!
