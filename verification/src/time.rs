//! Moments in time, and the texts that stand for them.
use vstd::prelude::*;

verus! {

/// A moment: whole seconds since the start of 1970 in UTC, and nanoseconds. During a leap
/// second the nanoseconds run on past one second.
#[derive(Clone, Copy, Debug)]
pub struct Timestamp {
    pub seconds: i64,
    pub nanos: u32,
}

pub const NANOS_PER_SECOND: u32 = 1_000_000_000;

impl Timestamp {
    /// The moment lies in a year from -262143 to 262142, and a leap second falls on the
    /// last second of a minute.
    pub open spec fn valid(self) -> bool {
        &&& -8_334_601_228_800 <= self.seconds <= 8_210_266_876_799
        &&& self.nanos < 2 * NANOS_PER_SECOND
        &&& self.nanos >= NANOS_PER_SECOND ==> self.seconds as int % 60 == 59
    }

    /// The moment lies in a year from 0 to 9999, and not in a leap second.
    pub open spec fn four_digit_year(self) -> bool {
        &&& -62_167_219_200 <= self.seconds <= 253_402_300_799
        &&& self.nanos < NANOS_PER_SECOND
    }
}

/// The nanoseconds from `earlier` to `later`. A leap second on the way counts if the
/// other moment comes on the other side of it by the time of day.
pub open spec fn nanos_between(later: Timestamp, earlier: Timestamp) -> int {
    let later_clock = later.seconds as int % 86_400;
    let earlier_clock = earlier.seconds as int % 86_400;
    let leap: int = if later_clock > earlier_clock && earlier.nanos >= NANOS_PER_SECOND {
        1
    } else if later_clock < earlier_clock && later.nanos >= NANOS_PER_SECOND {
        -1
    } else {
        0
    };
    (later.seconds - earlier.seconds + leap) * NANOS_PER_SECOND + (later.nanos - earlier.nanos)
}

/// The whole seconds from `earlier` to `later`, negative where `later` comes first.
pub open spec fn seconds_between(later: Timestamp, earlier: Timestamp) -> int {
    let nanos = nanos_between(later, earlier);
    if nanos >= 0 {
        nanos / (NANOS_PER_SECOND as int)
    } else {
        -(-nanos / (NANOS_PER_SECOND as int))
    }
}

/// The moment that `chrono::DateTime::parse_from_rfc3339` reads from a text, in UTC, as
/// seconds and nanoseconds; nothing where it refuses the text.
pub uninterp spec fn instant(text: Seq<char>) -> Option<(i64, u32)>;

/// The text that `chrono::DateTime::to_rfc3339_opts` gives for a moment in UTC, down to
/// the second and with `Z` for the offset.
pub uninterp spec fn rfc3339(seconds: i64, nanos: u32) -> Seq<char>;

/// The moment that an RFC 3339 text names.
pub open spec fn moment(text: Seq<char>) -> Option<Timestamp> {
    match instant(text) {
        Some((seconds, nanos)) => Some(Timestamp { seconds, nanos }),
        None => None,
    }
}

/// `chrono::DateTime::parse_from_rfc3339`, with the offset taken out. Which moment the
/// text names, or that it names none, is a matter of the text alone. The moment is one
/// that chrono can represent.
#[verifier::external_body]
fn read_rfc3339(text: &str) -> (r: Option<(i64, u32)>)
    ensures
        r == instant(text@),
        r matches Some((seconds, nanos)) ==> (Timestamp { seconds, nanos }).valid(),
{
    match chrono::DateTime::parse_from_rfc3339(text) {
        Ok(at) => Some((at.timestamp(), at.timestamp_subsec_nanos())),
        Err(_) => None,
    }
}

/// `chrono::DateTime::to_rfc3339_opts` with `SecondsFormat::Secs` and `Z`. In a year of
/// four digits the text names the second that it was made from.
#[verifier::external_body]
fn write_rfc3339(at: Timestamp) -> (text: String)
    requires
        at.valid(),
    ensures
        text@ == rfc3339(at.seconds, at.nanos),
        at.four_digit_year() ==> instant(text@) == Some((at.seconds, 0u32)),
{
    let at = chrono::DateTime::from_timestamp(at.seconds, at.nanos).unwrap();
    at.to_rfc3339_opts(chrono::SecondsFormat::Secs, true)
}

/// The difference of two `chrono::DateTime<Utc>`, taken by `TimeDelta::num_seconds`.
#[verifier::external_body]
fn elapsed(later: Timestamp, earlier: Timestamp) -> (seconds: i64)
    requires
        later.valid(),
        earlier.valid(),
    ensures
        seconds == seconds_between(later, earlier),
{
    let later = chrono::DateTime::from_timestamp(later.seconds, later.nanos).unwrap();
    let earlier = chrono::DateTime::from_timestamp(earlier.seconds, earlier.nanos).unwrap();
    (later - earlier).num_seconds()
}

/// `chrono::Utc::now`: the system's clock, which reads a moment from 1970 on.
#[verifier::external_body]
fn clock() -> (now: Timestamp)
    ensures
        now.valid(),
        now.seconds >= 0,
        now.nanos < NANOS_PER_SECOND,
{
    let now = chrono::Utc::now();
    Timestamp { seconds: now.timestamp(), nanos: now.timestamp_subsec_nanos() }
}

/// The current moment.
pub fn now() -> (at: Timestamp)
    ensures
        at.valid(),
        at.seconds >= 0,
        at.nanos < NANOS_PER_SECOND,
{
    clock()
}

/// The moment that an RFC 3339 text names.
pub fn parse_time(value: &str) -> (r: Option<Timestamp>)
    ensures
        r == moment(value@),
        r matches Some(at) ==> at.valid(),
{
    match read_rfc3339(value) {
        Some((seconds, nanos)) => Some(Timestamp { seconds, nanos }),
        None => None,
    }
}

/// The moment as RFC 3339 text in UTC, to the second.
pub fn format_time(at: Timestamp) -> (text: String)
    requires
        at.valid(),
    ensures
        text@ == rfc3339(at.seconds, at.nanos),
        at.four_digit_year() ==> moment(text@) == Some(Timestamp { seconds: at.seconds, nanos: 0 }),
{
    write_rfc3339(at)
}

/// The whole seconds from `earlier` to `later`.
pub fn seconds_since(later: Timestamp, earlier: Timestamp) -> (seconds: i64)
    requires
        later.valid(),
        earlier.valid(),
    ensures
        seconds == seconds_between(later, earlier),
{
    elapsed(later, earlier)
}

/// The current moment as RFC 3339 text in UTC, to the second.
pub fn utc_now() -> (text: String)
    ensures
        exists|at: Timestamp|
            #![trigger at.valid()]
            at.valid() && at.seconds >= 0 && text@ == rfc3339(at.seconds, at.nanos),
{
    let at = clock();
    format_time(at)
}

/// The seconds between two moments are the whole seconds that have passed: forwards and
/// backwards alike, and what is left over is less than one. (Neither moment is in a leap
/// second.)
pub proof fn lemma_whole_seconds(later: Timestamp, earlier: Timestamp)
    requires
        later.nanos < NANOS_PER_SECOND,
        earlier.nanos < NANOS_PER_SECOND,
    ensures
        seconds_between(earlier, later) == -seconds_between(later, earlier),
        later.nanos >= earlier.nanos && later.seconds >= earlier.seconds ==> seconds_between(
            later,
            earlier,
        ) == later.seconds - earlier.seconds,
        later.nanos < earlier.nanos && later.seconds > earlier.seconds ==> seconds_between(
            later,
            earlier,
        ) == later.seconds - earlier.seconds - 1,
{
    assert(nanos_between(earlier, later) == -nanos_between(later, earlier)) by {
        assert((later.seconds - earlier.seconds) * 1_000_000_000 + (later.nanos - earlier.nanos)
            == -((earlier.seconds - later.seconds) * 1_000_000_000 + (earlier.nanos
            - later.nanos)));
    }
}

} // verus!
