//! Instants in UTC, as seconds and nanoseconds since the Unix epoch.

use vstd::prelude::*;

verus! {

/// The earliest second that chrono can represent (January 1, 262144 BCE).
pub const MIN_SECS: i64 = -8_334_601_228_800i64;

/// The last second that chrono can represent (December 31, 262142 CE, 23:59:59).
pub const MAX_SECS: i64 = 8_210_266_876_799i64;

/// Whether `(secs, nanos)` names an instant that `chrono::DateTime<Utc>`
/// represents: the day lies in chrono's calendar range, and the fraction is
/// below one second, or below two seconds during a leap second (the last
/// second of a minute).
pub open spec fn representable(secs: int, nanos: int) -> bool {
    &&& MIN_SECS <= secs <= MAX_SECS
    &&& 0 <= nanos
    &&& (nanos < 1_000_000_000 || (nanos < 2_000_000_000 && secs % 60 == 59))
}

/// The text that chrono's `Display` gives for the UTC instant `(secs, nanos)`.
pub uninterp spec fn chrono_utc_text(secs: int, nanos: int) -> Seq<char>;

/// A UTC instant, ordered first by second and then by fraction of a second,
/// as chrono orders `DateTime<Utc>`.
#[derive(Clone, Copy, Debug, PartialEq, Eq, Structural)]
pub struct Timestamp {
    secs: i64,
    nanos: u32,
}

impl Timestamp {
    #[verifier::type_invariant]
    closed spec fn wf(self) -> bool {
        representable(self.secs as int, self.nanos as int)
    }

    /// Whole seconds since the Unix epoch.
    pub closed spec fn spec_secs(self) -> int {
        self.secs as int
    }

    /// Nanoseconds past the second.
    pub closed spec fn spec_nanos(self) -> int {
        self.nanos as int
    }

    /// Strict order on instants.
    pub open spec fn lt(self, other: Timestamp) -> bool {
        ||| self.spec_secs() < other.spec_secs()
        ||| (self.spec_secs() == other.spec_secs() && self.spec_nanos() < other.spec_nanos())
    }

    /// The instant `(secs, nanos)`, or `None` where chrono cannot represent it.
    pub fn new(secs: i64, nanos: u32) -> (r: Option<Timestamp>)
        ensures
            r is Some <==> representable(secs as int, nanos as int),
            r matches Some(t) ==> t.spec_secs() == secs && t.spec_nanos() == nanos,
    {
        let last_second_of_minute = if secs >= 0 {
            secs % 60 == 59
        } else {
            let back: i64 = -(secs + 1);
            proof {
                assert(back % 60 == 0 <==> secs % 60 == 59) by (nonlinear_arith)
                    requires
                        back == -(secs + 1),
                        back >= 0,
                ;
            }
            back % 60 == 0
        };
        let leap_ok = nanos < 2_000_000_000 && last_second_of_minute;
        if MIN_SECS <= secs && secs <= MAX_SECS && (nanos < 1_000_000_000 || leap_ok) {
            Some(Timestamp { secs, nanos })
        } else {
            None
        }
    }

    pub fn secs(&self) -> (r: i64)
        ensures
            r == self.spec_secs(),
            representable(self.spec_secs(), self.spec_nanos()),
    {
        proof {
            use_type_invariant(self);
        }
        self.secs
    }

    pub fn nanos(&self) -> (r: u32)
        ensures
            r == self.spec_nanos(),
    {
        self.nanos
    }

    /// Whether `self` comes strictly before `other`.
    pub fn is_before(&self, other: &Timestamp) -> (r: bool)
        ensures
            r == self.lt(*other),
    {
        self.secs < other.secs || (self.secs == other.secs && self.nanos < other.nanos)
    }

    /// The instant as chrono writes it, such as `2019-05-01 12:00:00 UTC`.
    pub fn to_text(&self) -> (s: String)
        ensures
            s@ == chrono_utc_text(self.spec_secs(), self.spec_nanos()),
    {
        utc_text(self)
    }
}

/// Calls `chrono::DateTime::<Utc>::from_timestamp` and formats the instant
/// with chrono's `Display`. The type invariant of `Timestamp` is exactly the
/// condition under which `from_timestamp` returns `Some`, so the `expect`
/// does not fire; the text is named, not described.
#[verifier::external_body]
fn utc_text(t: &Timestamp) -> (s: String)
    ensures
        s@ == chrono_utc_text(t.secs as int, t.nanos as int),
{
    chrono::DateTime::<chrono::Utc>::from_timestamp(t.secs, t.nanos).expect("representable").to_string()
}

#[verifier::external_type_specification]
#[verifier::external_body]
pub struct ExSystemTime(std::time::SystemTime);

/// Reads the system clock through `std::time::SystemTime::now`. Nothing is
/// stated of the instant.
#[verifier::external_body]
fn system_clock() -> (t: std::time::SystemTime) {
    std::time::SystemTime::now()
}

/// Calls `SystemTime::duration_since(UNIX_EPOCH)` and gives the duration's
/// whole seconds and nanoseconds, or `None` where the instant is earlier
/// than the epoch (its error). As std documents, `Duration::subsec_nanos`
/// is below one second. Which instants come before the epoch is not stated.
#[verifier::external_body]
fn since_unix_epoch(t: &std::time::SystemTime) -> (r: Option<(u64, u32)>)
    ensures
        r matches Some((_, n)) ==> n < 1_000_000_000,
{
    match t.duration_since(std::time::UNIX_EPOCH) {
        Ok(d) => Some((d.as_secs(), d.subsec_nanos())),
        Err(_) => None,
    }
}

/// Whether an instant is a reading of the system clock. Closed: outside
/// this module nothing but the `ensures` of `now` establishes it, so a
/// function that states it of an instant has taken that instant from the
/// clock. Inside, it says what every reading satisfies: the clock is read as
/// the time since the Unix epoch, so a reading is never before the epoch.
pub closed spec fn read_from_clock(t: Timestamp) -> bool {
    t.spec_secs() >= 0
}

/// The current instant, or `None` where the clock reads before the Unix
/// epoch or past the last instant that chrono represents.
pub(crate) fn now() -> (t: Option<Timestamp>)
    ensures
        t matches Some(x) ==> read_from_clock(x),
{
    let clock = system_clock();
    match since_unix_epoch(&clock) {
        Some((secs, nanos)) => {
            if secs <= MAX_SECS as u64 {
                Timestamp::new(secs as i64, nanos)
            } else {
                None
            }
        },
        None => None,
    }
}

} // verus!
