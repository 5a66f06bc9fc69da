//! Time of the receiver: GPS time and UTC, the truncated week number of the
//! navigation message, times of week finer than a millisecond, and a common
//! epoch of several channels.

use crate::rounding::{round_quotient, rounded_quotient};
use gnss_time::{DurationParts, Gps, Time, Utc};
use vstd::prelude::*;

verus! {

/// Why a time could not be computed.
#[derive(Debug, Clone, Copy, PartialEq, Eq)]
pub enum GnssTimeError {
    /// The result is not representable in nanoseconds.
    Overflow,
    /// An argument is out of range.
    InvalidInput(&'static str),
    /// Leap second data are missing.
    LeapSecondsRequired,
    /// A value lies outside the range of the time scale.
    OutOfRange,
    /// Any other reason.
    Other,
}

/// A moment of GPS time: nanoseconds since 1980-01-06.
#[derive(Debug, Clone, Copy, PartialEq, Eq, Structural)]
pub struct GpsTime {
    /// Nanoseconds since the GPS epoch.
    pub nanos: u64,
}

/// A moment of UTC: nanoseconds since 1972-01-01, leap seconds not counted.
#[derive(Debug, Clone, Copy, PartialEq, Eq, Structural)]
pub struct UtcTime {
    /// Nanoseconds since the UTC epoch.
    pub nanos: u64,
}

/// Nanoseconds in a second.
pub const SECOND_NS: u64 = 1_000_000_000;

/// Nanoseconds in a GPS week.
pub const GPS_WEEK_NS: u64 = 604_800_000_000_000;

/// Seconds from the UTC epoch, 1972-01-01, to the GPS epoch, 1980-01-06.
pub const UTC_TO_GPS_EPOCH_S: u64 = 252_892_800;

/// Seconds from the Unix epoch, 1970-01-01, to the UTC epoch.
pub const UNIX_TO_UTC_EPOCH_S: u64 = 63_072_000;

/// The moment of the leap second number `k`, counted from one, since the GPS
/// epoch: TAI seconds after that epoch.
pub open spec fn leap_event(k: int) -> int {
    if k == 1 {
        46_828_820
    } else if k == 2 {
        78_364_821
    } else if k == 3 {
        109_900_822
    } else if k == 4 {
        173_059_223
    } else if k == 5 {
        252_028_824
    } else if k == 6 {
        315_187_225
    } else if k == 7 {
        346_723_226
    } else if k == 8 {
        393_984_027
    } else if k == 9 {
        425_520_028
    } else if k == 10 {
        457_056_029
    } else if k == 11 {
        504_489_630
    } else if k == 12 {
        551_750_431
    } else if k == 13 {
        599_184_032
    } else if k == 14 {
        820_108_833
    } else if k == 15 {
        914_803_234
    } else if k == 16 {
        1_025_136_035
    } else if k == 17 {
        1_119_744_036
    } else {
        1_167_264_037
    }
}

/// Number of leap seconds known since the GPS epoch.
pub const LEAP_EVENTS: u64 = 18;

/// Number of the first `k` leap seconds at or before a moment, in TAI
/// nanoseconds since the GPS epoch.
pub open spec fn leaps_among(k: int, tai_ns: int) -> int
    decreases k,
{
    if k <= 0 {
        0
    } else {
        leaps_among(k - 1, tai_ns) + if leap_event(k) * SECOND_NS <= tai_ns {
            1int
        } else {
            0int
        }
    }
}

/// Leap seconds between GPS time and UTC at a moment, in TAI nanoseconds since
/// the GPS epoch.
pub open spec fn leaps_at(tai_ns: int) -> int {
    leaps_among(LEAP_EVENTS as int, tai_ns)
}

/// TAI nanoseconds since the GPS epoch of a moment of GPS time.
pub open spec fn tai_of_gps(gps_ns: int) -> int {
    gps_ns + 19 * SECOND_NS
}

/// UTC nanoseconds of a moment of GPS time.
pub open spec fn utc_of_gps(gps_ns: int) -> int {
    gps_ns - leaps_at(tai_of_gps(gps_ns)) * SECOND_NS + UTC_TO_GPS_EPOCH_S * SECOND_NS
}

/// GPS nanoseconds of a moment of UTC: the leap seconds are those at the moment
/// itself, found from the ones at a first estimate of it.
pub open spec fn gps_of_utc(utc_ns: int) -> int {
    let shifted = utc_ns - UTC_TO_GPS_EPOCH_S * SECOND_NS;
    let estimate = leaps_at(tai_of_gps(shifted));
    shifted + leaps_at(tai_of_gps(shifted) + estimate * SECOND_NS) * SECOND_NS
}

/// `gnss_time::Time::<Gps>::to_utc`: GPS time to UTC with the built-in table of
/// leap seconds. The table and the formula are those that the crate documents;
/// the only failure is a result beyond the 64 bits of nanoseconds.
#[verifier::external_body]
fn time_gps_to_utc(gps_ns: u64) -> (utc_ns: Result<u64, GnssTimeError>)
    ensures
        utc_ns matches Ok(u) ==> u == utc_of_gps(gps_ns as int),
        utc_ns is Ok <==> utc_of_gps(gps_ns as int) <= u64::MAX,
        utc_ns matches Err(e) ==> e == GnssTimeError::Overflow,
{
    match Time::<Gps>::from_nanos(gps_ns).to_utc() {
        Ok(utc) => Ok(utc.as_nanos()),
        Err(gnss_time::GnssTimeError::Overflow) => Err(GnssTimeError::Overflow),
        Err(gnss_time::GnssTimeError::InvalidInput(m)) => Err(GnssTimeError::InvalidInput(m)),
        Err(gnss_time::GnssTimeError::LeapSecondsRequired) => Err(
            GnssTimeError::LeapSecondsRequired,
        ),
        Err(gnss_time::GnssTimeError::OutOfRange) => Err(GnssTimeError::OutOfRange),
        Err(_) => Err(GnssTimeError::Other),
    }
}

/// `gnss_time::Time::<Utc>::to_gps`: UTC to GPS time with the built-in table of
/// leap seconds, looked up a second time at the moment that the first look-up
/// gives. The only failure is a moment before the GPS epoch.
#[verifier::external_body]
fn time_utc_to_gps(utc_ns: u64) -> (gps_ns: Result<u64, GnssTimeError>)
    ensures
        gps_ns matches Ok(g) ==> g == gps_of_utc(utc_ns as int),
        gps_ns is Ok <==> 0 <= gps_of_utc(utc_ns as int),
        gps_ns matches Err(e) ==> e == GnssTimeError::Overflow,
{
    match Time::<Utc>::from_nanos(utc_ns).to_gps() {
        Ok(gps) => Ok(gps.as_nanos()),
        Err(gnss_time::GnssTimeError::Overflow) => Err(GnssTimeError::Overflow),
        Err(gnss_time::GnssTimeError::InvalidInput(m)) => Err(GnssTimeError::InvalidInput(m)),
        Err(gnss_time::GnssTimeError::LeapSecondsRequired) => Err(
            GnssTimeError::LeapSecondsRequired,
        ),
        Err(gnss_time::GnssTimeError::OutOfRange) => Err(GnssTimeError::OutOfRange),
        Err(_) => Err(GnssTimeError::Other),
    }
}

/// Converts GPS time to UTC, with the built-in table of leap seconds.
pub fn gps_to_utc(gps: GpsTime) -> (utc: Result<UtcTime, GnssTimeError>)
    ensures
        utc matches Ok(u) ==> u.nanos == utc_of_gps(gps.nanos as int),
        utc is Ok <==> utc_of_gps(gps.nanos as int) <= u64::MAX,
        utc matches Err(e) ==> e == GnssTimeError::Overflow,
{
    match time_gps_to_utc(gps.nanos) {
        Ok(nanos) => Ok(UtcTime { nanos }),
        Err(e) => Err(e),
    }
}

/// Converts UTC to GPS time, with the built-in table of leap seconds.
pub fn utc_to_gps(utc: UtcTime) -> (gps: Result<GpsTime, GnssTimeError>)
    ensures
        gps matches Ok(g) ==> g.nanos == gps_of_utc(utc.nanos as int),
        gps is Ok <==> 0 <= gps_of_utc(utc.nanos as int),
        gps matches Err(e) ==> e == GnssTimeError::Overflow,
{
    match time_utc_to_gps(utc.nanos) {
        Ok(nanos) => Ok(GpsTime { nanos }),
        Err(e) => Err(e),
    }
}

/// The moments are in order and lie more than twenty seconds apart.
proof fn lemma_leap_events_apart(j: int, k: int)
    requires
        1 <= j < k <= 18,
    ensures
        leap_event(j) + 20 < leap_event(k),
    decreases k - j,
{
    if j + 1 < k {
        lemma_leap_events_apart(j, k - 1);
        lemma_leap_events_apart(k - 1, k);
    }
}

/// Of the leap seconds, those up to the last one at or before a moment count.
proof fn lemma_leaps_among(k: int, n: int, tai_ns: int)
    requires
        0 <= n <= 18,
        0 <= k <= 18,
        n > 0 ==> leap_event(n) * SECOND_NS <= tai_ns,
        n < 18 ==> tai_ns < leap_event(n + 1) * SECOND_NS,
    ensures
        leaps_among(k, tai_ns) == if k < n {
            k
        } else {
            n
        },
    decreases k,
{
    if k > 0 {
        lemma_leaps_among(k - 1, n, tai_ns);
        if k < n {
            lemma_leap_events_apart(k, n);
        } else if k > n + 1 {
            lemma_leap_events_apart(n + 1, k);
        }
    }
}

/// The number of leap seconds at a moment, and the moments between which it
/// lies.
proof fn lemma_leaps_at(tai_ns: int) -> (n: int)
    ensures
        n == leaps_at(tai_ns),
        0 <= n <= 18,
        n > 0 ==> leap_event(n) * SECOND_NS <= tai_ns,
        n < 18 ==> tai_ns < leap_event(n + 1) * SECOND_NS,
{
    let n = lemma_find_leap(18, tai_ns);
    lemma_leaps_among(18, n, tai_ns);
    n
}

proof fn lemma_find_leap(k: int, tai_ns: int) -> (n: int)
    requires
        0 <= k <= 18,
        k < 18 ==> tai_ns < leap_event(k + 1) * SECOND_NS,
    ensures
        0 <= n <= 18,
        n > 0 ==> leap_event(n) * SECOND_NS <= tai_ns,
        n < 18 ==> tai_ns < leap_event(n + 1) * SECOND_NS,
    decreases k,
{
    if k == 0 || leap_event(k) * SECOND_NS <= tai_ns {
        k
    } else {
        lemma_find_leap(k - 1, tai_ns)
    }
}

/// Whether a moment of GPS time lies within the second that follows a leap
/// second; the UTC of such a moment is also that of the second before.
pub open spec fn within_leap_window(gps_ns: int) -> bool {
    let tai_ns = tai_of_gps(gps_ns);
    let n = leaps_at(tai_ns);
    n > 0 && tai_ns < (leap_event(n) + 1) * SECOND_NS
}

/// GPS time to UTC and back gives the same moment, but for the second that
/// follows each leap second.
pub proof fn law_gps_utc_round_trip(gps_ns: int)
    requires
        0 <= gps_ns,
        !within_leap_window(gps_ns),
    ensures
        gps_of_utc(utc_of_gps(gps_ns)) == gps_ns,
{
    let tai = tai_of_gps(gps_ns);
    let n = lemma_leaps_at(tai);
    let first = tai - n * SECOND_NS;
    let n1 = lemma_leaps_at(first);
    if n1 < n {
        if n1 + 1 < n {
            lemma_leap_events_apart(n1 + 1, n);
        }
        assert(n1 == n - 1);
        let second = first + n1 * SECOND_NS;
        let n2 = lemma_leaps_at(second);
        if n2 < n - 1 {
            lemma_leap_events_apart(n2 + 1, n);
        }
        if n2 > n {
            if n + 1 < n2 {
                lemma_leap_events_apart(n + 1, n2);
            }
        }
        assert(n2 == n);
    } else {
        if n1 > n {
            if n + 1 < n1 {
                lemma_leap_events_apart(n + 1, n1);
            }
        }
        assert(n1 == n);
        assert(first + n1 * SECOND_NS == tai);
    }
}

/// Nanoseconds since the GPS epoch of the moment `seconds` and `nanos` into week
/// `week`.
pub open spec fn week_tow_nanos(week: int, seconds: int, nanos: int) -> int {
    week * GPS_WEEK_NS + seconds * SECOND_NS + nanos
}

/// Reported of seconds that do not lie within a week.
pub const SECONDS_OUT_OF_RANGE: &'static str = "tow.seconds must be in [0, 604_800)";

/// Reported of nanoseconds that do not lie within a second.
pub const NANOS_OUT_OF_RANGE: &'static str = "tow.nanos must be in [0, 1_000_000_000)";

/// Whether an attempt to name that moment came out as it has to: the seconds lie
/// within a week and the nanoseconds within a second, and the moment fits into
/// 64 bits of nanoseconds; else the first of these that fails is reported.
pub open spec fn week_tow_outcome(
    week: int,
    seconds: int,
    nanos: int,
    outcome: Result<u64, GnssTimeError>,
) -> bool {
    if seconds >= 604_800 {
        outcome matches Err(e) && e == GnssTimeError::InvalidInput(SECONDS_OUT_OF_RANGE)
    } else if nanos >= SECOND_NS {
        outcome matches Err(e) && e == GnssTimeError::InvalidInput(NANOS_OUT_OF_RANGE)
    } else if week_tow_nanos(week, seconds, nanos) > u64::MAX {
        outcome matches Err(e) && e == GnssTimeError::Overflow
    } else {
        outcome matches Ok(total) && total == week_tow_nanos(week, seconds, nanos)
    }
}

/// `gnss_time::Time::<Gps>::from_week_tow`: the moment `seconds` and `nanos` into
/// the GPS week `week`. The crate documents the two range checks and the
/// overflow beyond the 64 bits of nanoseconds.
#[verifier::external_body]
fn time_from_week_tow(week: u16, seconds: u64, nanos: u32) -> (gps_ns: Result<u64, GnssTimeError>)
    ensures
        week_tow_outcome(week as int, seconds as int, nanos as int, gps_ns),
{
    match Time::<Gps>::from_week_tow(week, DurationParts { seconds, nanos }) {
        Ok(gps) => Ok(gps.as_nanos()),
        Err(gnss_time::GnssTimeError::Overflow) => Err(GnssTimeError::Overflow),
        Err(gnss_time::GnssTimeError::InvalidInput(m)) => Err(GnssTimeError::InvalidInput(m)),
        Err(gnss_time::GnssTimeError::LeapSecondsRequired) => Err(
            GnssTimeError::LeapSecondsRequired,
        ),
        Err(gnss_time::GnssTimeError::OutOfRange) => Err(GnssTimeError::OutOfRange),
        Err(_) => Err(GnssTimeError::Other),
    }
}

/// `gnss_time::Time::<Gps>::week`: the number of whole weeks since the epoch.
#[verifier::external_body]
fn time_week(gps_ns: u64) -> (week: u32)
    ensures
        week == gps_ns / GPS_WEEK_NS,
{
    Time::<Gps>::from_nanos(gps_ns).week()
}

/// `gnss_time::Time::<Gps>::tow_seconds`: whole seconds since the week began.
#[verifier::external_body]
fn time_tow_seconds(gps_ns: u64) -> (tow: u32)
    ensures
        tow == (gps_ns % GPS_WEEK_NS) / SECOND_NS,
{
    Time::<Gps>::from_nanos(gps_ns).tow_seconds()
}

/// `gnss_time::Time::<Gps>::sub_second_nanos`: nanoseconds since the second
/// began.
#[verifier::external_body]
fn time_sub_second_nanos(gps_ns: u64) -> (nanos: u32)
    ensures
        nanos == gps_ns % SECOND_NS,
{
    Time::<Gps>::from_nanos(gps_ns).sub_second_nanos()
}

/// `gnss_time::Time::<Utc>::as_unix_nanos`: nanoseconds since the Unix epoch, or
/// the largest `i64` where they exceed it.
#[verifier::external_body]
fn time_as_unix_nanos(utc_ns: u64) -> (unix_ns: i64)
    ensures
        unix_ns == unix_nanos_of(utc_ns as int),
{
    Time::<Utc>::from_nanos(utc_ns).as_unix_nanos()
}

/// Nanoseconds since the Unix epoch of a moment of UTC, at most `i64::MAX`.
pub open spec fn unix_nanos_of(utc_ns: int) -> int {
    let exact = utc_ns + UNIX_TO_UTC_EPOCH_S * SECOND_NS;
    if exact <= i64::MAX {
        exact
    } else {
        i64::MAX as int
    }
}

/// The text that `gnss_time` gives for a moment of UTC.
pub uninterp spec fn civil_text(utc_ns: u64) -> Seq<char>;

/// `gnss_time::Time::<Utc>::to_civil` and the `Display` of its result: the date
/// and time `YYYY-MM-DDThh:mm:ss.nnnnnnnnnZ` of a moment of UTC. The 64 bits of
/// nanoseconds end in the year 2556, so the text has always the same length.
#[verifier::external_body]
fn time_civil_text(utc_ns: u64) -> (text: String)
    ensures
        text@ == civil_text(utc_ns),
        text@.len() == 30,
        text@[4] == '-',
        text@[7] == '-',
        text@[10] == 'T',
        text@[13] == ':',
        text@[16] == ':',
        text@[19] == '.',
        text@[29] == 'Z',
{
    format!("{}", Time::<Utc>::from_nanos(utc_ns).to_civil())
}

impl GpsTime {
    /// The moment `nanos` after the GPS epoch.
    pub fn from_nanos(nanos: u64) -> (t: Self)
        ensures
            t.nanos == nanos,
    {
        GpsTime { nanos }
    }

    /// Nanoseconds since the GPS epoch.
    pub fn as_nanos(self) -> (nanos: u64)
        ensures
            nanos == self.nanos,
    {
        self.nanos
    }

    /// The moment `seconds` and `nanos` into the GPS week `week`.
    pub fn from_week_tow(week: u16, seconds: u64, nanos: u32) -> (t: Result<Self, GnssTimeError>)
        ensures
            t is Ok <==> seconds < 604_800 && nanos < SECOND_NS && week_tow_nanos(
                week as int,
                seconds as int,
                nanos as int,
            ) <= u64::MAX,
            t matches Ok(time) ==> time.nanos == week_tow_nanos(
                week as int,
                seconds as int,
                nanos as int,
            ),
            t matches Err(e) ==> e == if seconds >= 604_800 {
                GnssTimeError::InvalidInput(SECONDS_OUT_OF_RANGE)
            } else if nanos >= SECOND_NS {
                GnssTimeError::InvalidInput(NANOS_OUT_OF_RANGE)
            } else {
                GnssTimeError::Overflow
            },
    {
        match time_from_week_tow(week, seconds, nanos) {
            Ok(total) => Ok(GpsTime { nanos: total }),
            Err(e) => Err(e),
        }
    }

    /// GPS week, counted without wrapping.
    pub fn week(self) -> (week: u32)
        ensures
            week == self.nanos / GPS_WEEK_NS,
    {
        time_week(self.nanos)
    }

    /// Whole seconds since the week began.
    pub fn tow_seconds(self) -> (tow: u32)
        ensures
            tow == (self.nanos % GPS_WEEK_NS) / SECOND_NS,
            tow < 604_800,
    {
        time_tow_seconds(self.nanos)
    }

    /// Nanoseconds since the second began.
    pub fn sub_second_nanos(self) -> (nanos: u32)
        ensures
            nanos == self.nanos % SECOND_NS,
            nanos < 1_000_000_000,
    {
        time_sub_second_nanos(self.nanos)
    }
}

/// Week, seconds and nanoseconds name a moment of GPS time uniquely: a moment
/// made of them has these parts.
pub proof fn law_week_and_tow_name_a_moment(week: u16, seconds: u64, nanos: u32)
    requires
        seconds < 604_800,
        nanos < SECOND_NS,
    ensures
        ({
            let total = week_tow_nanos(week as int, seconds as int, nanos as int);
            &&& total / (GPS_WEEK_NS as int) == week
            &&& (total % (GPS_WEEK_NS as int)) / (SECOND_NS as int) == seconds
            &&& total % (SECOND_NS as int) == nanos
        }),
{
    let within = seconds * SECOND_NS + nanos;
    assert(within < GPS_WEEK_NS);
    vstd::arithmetic::div_mod::lemma_fundamental_div_mod_converse(
        week * GPS_WEEK_NS + within,
        GPS_WEEK_NS as int,
        week as int,
        within,
    );
    vstd::arithmetic::div_mod::lemma_fundamental_div_mod_converse(
        within,
        SECOND_NS as int,
        seconds as int,
        nanos as int,
    );
    vstd::arithmetic::div_mod::lemma_fundamental_div_mod_converse(
        week * GPS_WEEK_NS + within,
        SECOND_NS as int,
        week * 604_800 + seconds,
        nanos as int,
    );
}

/// Width of the week number in the navigation message, in bits.
pub const GPS_WEEK_FIELD_BITS: u32 = 10;

/// Modulus of the week number in the navigation message.
pub const GPS_WEEK_FIELD_MODULUS: u32 = 1024;

/// Distance of two integers.
pub open spec fn distance(a: int, b: int) -> int {
    if a >= b {
        a - b
    } else {
        b - a
    }
}

/// Whether `week` is the full week that a transmitted week number stands for:
/// of the weeks with that number, the nearest to the approximate one, and the
/// earlier of two at the same distance.
pub open spec fn is_nearest_week(week: int, transmitted: int, approx: int) -> bool {
    &&& 0 <= week
    &&& week % 1024 == transmitted
    &&& forall|other: int|
        0 <= other && #[trigger] (other % 1024) == transmitted ==> distance(week, approx)
            < distance(other, approx) || distance(week, approx) == distance(other, approx) && week
            <= other
}

/// Recovery of the full week from the truncated number in the navigation
/// message, which starts over every 1024 weeks.
#[derive(Debug, Clone, Copy)]
pub struct WeekRollover;

impl WeekRollover {
    /// The full week nearest to `approx_full_week` whose number modulo 1024 was
    /// transmitted.
    pub fn resolve_week(transmitted_week_mod_1024: u32, approx_full_week: u32) -> (week: u32)
        requires
            transmitted_week_mod_1024 < GPS_WEEK_FIELD_MODULUS,
            approx_full_week < 0xFFFF_FC00,
        ensures
            is_nearest_week(
                week as int,
                transmitted_week_mod_1024 as int,
                approx_full_week as int,
            ),
            approx_full_week >= 512 ==> distance(week as int, approx_full_week as int) <= 512,
    {
        let base: u32 = approx_full_week - approx_full_week % GPS_WEEK_FIELD_MODULUS;
        let same: u32 = base + transmitted_week_mod_1024;
        let week: u32 = if same >= approx_full_week {
            if same >= GPS_WEEK_FIELD_MODULUS && approx_full_week - (same - GPS_WEEK_FIELD_MODULUS)
                <= same - approx_full_week {
                same - GPS_WEEK_FIELD_MODULUS
            } else {
                same
            }
        } else if same + GPS_WEEK_FIELD_MODULUS - approx_full_week < approx_full_week - same {
            same + GPS_WEEK_FIELD_MODULUS
        } else {
            same
        };
        assert forall|other: int|
            0 <= other && #[trigger] (other % 1024) == transmitted_week_mod_1024 implies distance(
            week as int,
            approx_full_week as int,
        ) < distance(other, approx_full_week as int) || distance(
            week as int,
            approx_full_week as int,
        ) == distance(other, approx_full_week as int) && week <= other by {
            assert(same as int % 1024 == transmitted_week_mod_1024 as int);
            let k = other / 1024;
            let j = base as int / 1024;
            assert(other == 1024 * k + transmitted_week_mod_1024);
            assert(same == 1024 * j + transmitted_week_mod_1024);
        }
        week
    }

    /// Whether two successive transmitted week numbers pass the end of the
    /// count.
    pub fn detected_rollover(prev_week_mod_1024: u32, curr_week_mod_1024: u32) -> (rollover: bool)
        ensures
            rollover <==> prev_week_mod_1024 == 1023 && curr_week_mod_1024 == 0,
            prev_week_mod_1024 < 1024 && curr_week_mod_1024 < 1024 ==> (rollover <==> (
            prev_week_mod_1024 + 1) % 1024 == curr_week_mod_1024 && curr_week_mod_1024
                < prev_week_mod_1024),
    {
        prev_week_mod_1024 == GPS_WEEK_FIELD_MODULUS - 1 && curr_week_mod_1024 == 0
    }
}

/// The full week is recovered: from its number modulo 1024 and an approximate
/// week less than 512 weeks off, the true week and no other comes back.
pub proof fn law_true_week_is_recovered(true_week: int, approx: int, resolved: int)
    requires
        0 <= true_week,
        distance(true_week, approx) < 512,
        is_nearest_week(resolved, true_week % 1024, approx),
    ensures
        resolved == true_week,
{
    let d = resolved - true_week;
    assert(distance(resolved, approx) <= distance(true_week, approx));
    assert(-1024 < d < 1024);
    assert(d % 1024 == 0) by {
        let a = resolved / 1024;
        let b = true_week / 1024;
        assert(d == 1024 * (a - b));
    }
}

/// Refines times that are aligned to whole milliseconds by the phase of the
/// code, one period of which lasts one millisecond.
#[derive(Debug, Clone, Copy, PartialEq, Eq, Structural)]
pub struct SubMsTowInterpolator {
    code_length_chips: u32,
}

/// How far into its millisecond a code phase lies, in nanoseconds, when one
/// period of the code has `length` chips. The phase is in units of 10^-9 chips;
/// a code without chips has no phase.
pub open spec fn sub_ms_ns(length: int, code_phase_nanochips: int) -> int {
    if length == 0 {
        0
    } else {
        (code_phase_nanochips % (length * 1_000_000_000)) * 1_000_000 / (length * 1_000_000_000)
    }
}

/// A code phase lies within its millisecond, and whole periods do not count.
pub proof fn law_code_phase_stays_within_a_millisecond(
    length: int,
    code_phase_nanochips: int,
    periods: int,
)
    requires
        0 < length,
    ensures
        0 <= sub_ms_ns(length, code_phase_nanochips) < 1_000_000,
        sub_ms_ns(length, code_phase_nanochips + periods * (length * 1_000_000_000)) == sub_ms_ns(
            length,
            code_phase_nanochips,
        ),
{
    let d = length * 1_000_000_000;
    let phase = code_phase_nanochips % d;
    let q = phase * 1_000_000 / d;
    let r = (phase * 1_000_000) % d;
    vstd::arithmetic::div_mod::lemma_mod_bound(code_phase_nanochips, d);
    vstd::arithmetic::div_mod::lemma_fundamental_div_mod(phase * 1_000_000, d);
    vstd::arithmetic::div_mod::lemma_mod_bound(phase * 1_000_000, d);
    assert(0 <= q < 1_000_000) by (nonlinear_arith)
        requires
            0 <= phase < d,
            phase * 1_000_000 == d * q + r,
            0 <= r < d,
    ;
    vstd::arithmetic::div_mod::lemma_mod_multiples_vanish(periods, code_phase_nanochips, d);
    vstd::arithmetic::mul::lemma_mul_is_commutative(periods, d);
}

impl SubMsTowInterpolator {
    /// Chips in one period of the GPS L1 C/A code.
    pub const GPS_CODE_LENGTH_CHIPS: u32 = 1023;

    /// Chips in one period of the code.
    pub closed spec fn length(&self) -> int {
        self.code_length_chips as int
    }

    /// An interpolator for a code of the given length.
    pub fn new(code_length_chips: u32) -> (interpolator: Self)
        ensures
            interpolator.length() == code_length_chips,
    {
        SubMsTowInterpolator { code_length_chips }
    }

    /// An interpolator for the GPS L1 C/A code.
    pub fn for_gps_l1ca() -> (interpolator: Self)
        ensures
            interpolator.length() == 1023,
    {
        Self::new(Self::GPS_CODE_LENGTH_CHIPS)
    }

    /// How far the code phase, in units of 10^-9 chips, lies into the
    /// millisecond: 0 to 999 999 nanoseconds.
    pub fn sub_ms_correction_ns(&self, code_phase_nanochips: i64) -> (ns: u32)
        ensures
            ns == sub_ms_ns(self.length(), code_phase_nanochips as int),
            ns <= 999_999,
    {
        if self.code_length_chips == 0 {
            return 0;
        }
        proof {
            law_code_phase_stays_within_a_millisecond(
                self.length(),
                code_phase_nanochips as int,
                0,
            );
        }
        let period: i128 = self.code_length_chips as i128 * 1_000_000_000;
        proof {
            vstd::arithmetic::div_mod::lemma_mod_bound(code_phase_nanochips as int, period as int);
        }
        let phase: i128 = match (code_phase_nanochips as i128).checked_rem_euclid(period) {
            Some(phase) => phase,
            None => 0,
        };
        (phase * 1_000_000 / period) as u32
    }

    /// The moment of GPS time in week `week`, `whole_ms_tow` milliseconds into
    /// the week and as far into the millisecond as the code phase tells, which
    /// is in units of 10^-9 chips.
    pub fn interpolate(&self, week: u16, whole_ms_tow: u64, code_phase_nanochips: i64) -> (t: Result<
        GpsTime,
        GnssTimeError,
    >)
        ensures
            ({
                let within = sub_ms_ns(self.length(), code_phase_nanochips as int);
                let total = week * GPS_WEEK_NS + whole_ms_tow * 1_000_000 + within;
                &&& t is Ok <==> whole_ms_tow < 604_800_000 && total <= u64::MAX
                &&& t matches Ok(time) ==> time.nanos == total
                &&& t matches Ok(time) ==> time.nanos / 1_000_000 == week * 604_800_000
                    + whole_ms_tow && time.nanos % 1_000_000 == within
                &&& t matches Err(e) ==> e == if whole_ms_tow < 604_800_000 {
                    GnssTimeError::Overflow
                } else {
                    GnssTimeError::InvalidInput(SECONDS_OUT_OF_RANGE)
                }
            }),
    {
        let seconds: u64 = whole_ms_tow / 1000;
        let ms_remainder: u64 = whole_ms_tow % 1000;
        let nanos: u32 = (ms_remainder * 1_000_000) as u32 + self.sub_ms_correction_ns(
            code_phase_nanochips,
        );
        GpsTime::from_week_tow(week, seconds, nanos)
    }
}

/// The time that one channel has measured.
#[derive(Debug, Clone, Copy, PartialEq, Eq, Structural)]
pub struct ChannelTimeSample {
    /// Number of the satellite.
    pub prn: u8,
    /// GPS time measured by the channel.
    pub gps_time: GpsTime,
    /// Weight of the channel, proportional to its carrier to noise density on a
    /// linear scale.
    pub weight: u32,
}

/// A moment on which several channels agree.
#[derive(Debug, Clone, Copy, PartialEq, Eq, Structural)]
pub struct CommonEpoch {
    /// The moment.
    pub gps_time: GpsTime,
    /// Largest distance of a channel from the moment, in nanoseconds.
    pub max_deviation_ns: u64,
    /// Number of channels.
    pub channel_count: usize,
}

/// Weighted sum of the offsets of the samples from a moment.
pub open spec fn weighted_offsets(samples: Seq<ChannelTimeSample>, reference: int) -> int
    decreases samples.len(),
{
    if samples.len() == 0 {
        0
    } else {
        weighted_offsets(samples.drop_last(), reference) + (samples.last().gps_time.nanos
            - reference) * samples.last().weight
    }
}

/// Sum of the weights of the samples.
pub open spec fn total_weight(samples: Seq<ChannelTimeSample>) -> int
    decreases samples.len(),
{
    if samples.len() == 0 {
        0
    } else {
        total_weight(samples.drop_last()) + samples.last().weight
    }
}

/// The weighted mean of the measured times, or the first of them where all
/// weights are zero.
pub open spec fn mean_time(samples: Seq<ChannelTimeSample>) -> int {
    let reference = samples[0].gps_time.nanos as int;
    if total_weight(samples) > 0 {
        reference + rounded_quotient(
            weighted_offsets(samples, reference),
            total_weight(samples),
        )
    } else {
        reference
    }
}

/// Whether `d` is the largest distance of a sample from a moment.
pub open spec fn is_max_deviation(samples: Seq<ChannelTimeSample>, moment: int, d: int) -> bool {
    &&& forall|i: int|
        0 <= i < samples.len() ==> distance(
            (#[trigger] samples[i]).gps_time.nanos as int,
            moment,
        ) <= d
    &&& exists|i: int|
        0 <= i < samples.len() && distance((#[trigger] samples[i]).gps_time.nanos as int, moment)
            == d
}

/// Number of channels within `threshold` of a time.
pub open spec fn channels_near(samples: Seq<ChannelTimeSample>, time: int, threshold: int) -> int
    decreases samples.len(),
{
    if samples.len() == 0 {
        0
    } else {
        channels_near(samples.drop_last(), time, threshold) + if distance(
            samples.last().gps_time.nanos as int,
            time,
        ) <= threshold {
            1int
        } else {
            0int
        }
    }
}

/// Whether a channel that has measured `time` is a stray: it is farther than
/// `threshold` from the common moment, and fewer than half of the other channels
/// are within `threshold` of it.
pub open spec fn is_stray(
    samples: Seq<ChannelTimeSample>,
    time: int,
    moment: int,
    threshold: int,
) -> bool {
    let others = samples.len() - 1;
    let companions = channels_near(samples, time, threshold) - 1;
    distance(time, moment) > threshold && (others == 0 || 2 * companions < others)
}

/// The channels that are not strays, in order.
pub open spec fn steady_channels(
    samples: Seq<ChannelTimeSample>,
    moment: int,
    threshold: int,
) -> Seq<ChannelTimeSample> {
    samples.filter(
        |c: ChannelTimeSample| !is_stray(samples, c.gps_time.nanos as int, moment, threshold),
    )
}

/// Whether a moment is the common epoch of the channels themselves.
pub open spec fn is_own_epoch(samples: Seq<ChannelTimeSample>, moment: int) -> bool {
    0 < samples.len() < 0x8000_0000 && mean_time(samples) == moment
}

/// Whether a channel that has measured `time` is far from the common moment only
/// because strays have dragged the moment away: the moment is the common epoch of
/// the channels, the channel is no stray, and it is within `threshold` of the
/// common epoch of the channels that are not strays.
pub open spec fn is_excused(
    samples: Seq<ChannelTimeSample>,
    time: int,
    moment: int,
    threshold: int,
) -> bool {
    &&& is_own_epoch(samples, moment)
    &&& !is_stray(samples, time, moment, threshold)
    &&& distance(time, mean_time(steady_channels(samples, moment, threshold))) <= threshold
}

/// Whether a channel that has measured `time` diverges.
pub open spec fn diverges(
    samples: Seq<ChannelTimeSample>,
    time: int,
    moment: int,
    threshold: int,
) -> bool {
    distance(time, moment) > threshold && !is_excused(samples, time, moment, threshold)
}

/// Number of those of the channels `part` that diverge among `samples`.
pub open spec fn outliers_among(
    samples: Seq<ChannelTimeSample>,
    part: Seq<ChannelTimeSample>,
    moment: int,
    threshold: int,
) -> int
    decreases part.len(),
{
    if part.len() == 0 {
        0
    } else {
        outliers_among(samples, part.drop_last(), moment, threshold) + if diverges(
            samples,
            part.last().gps_time.nanos as int,
            moment,
            threshold,
        ) {
            1int
        } else {
            0int
        }
    }
}

/// Number of channels that diverge: those farther than `threshold` from the common
/// moment, but for those that are so only because of strays.
pub open spec fn outliers(samples: Seq<ChannelTimeSample>, moment: int, threshold: int) -> int {
    outliers_among(samples, samples, moment, threshold)
}

/// Bounds of the sums over samples whose offsets lie between `lo` and `hi`.
proof fn lemma_weighted_bounds(samples: Seq<ChannelTimeSample>, reference: int, lo: int, hi: int)
    requires
        forall|i: int|
            0 <= i < samples.len() ==> lo <= (#[trigger] samples[i]).gps_time.nanos - reference
                <= hi,
    ensures
        0 <= total_weight(samples) <= samples.len() * u32::MAX,
        lo * total_weight(samples) <= weighted_offsets(samples, reference) <= hi * total_weight(
            samples,
        ),
    decreases samples.len(),
{
    if samples.len() > 0 {
        let head = samples.drop_last();
        let last = samples.last();
        assert forall|i: int| 0 <= i < head.len() implies lo <= (#[trigger] head[i]).gps_time.nanos
            - reference <= hi by {
            assert(head[i] == samples[i]);
        }
        lemma_weighted_bounds(head, reference, lo, hi);
        assert(last == samples[samples.len() - 1]);
        let offset = last.gps_time.nanos - reference;
        let w = last.weight as int;
        let t = total_weight(head);
        assert(lo * w <= offset * w <= hi * w) by (nonlinear_arith)
            requires
                lo <= offset <= hi,
                w >= 0,
        ;
        assert(lo * (t + w) == lo * t + lo * w) by (nonlinear_arith);
        assert(hi * (t + w) == hi * t + hi * w) by (nonlinear_arith);
    } else {
        assert(lo * 0 == 0 && hi * 0 == 0) by (nonlinear_arith);
    }
}

/// A rounded quotient stays between whole bounds of the exact one.
proof fn lemma_rounded_quotient_bounds(a: int, b: int, lo: int, hi: int)
    requires
        b > 0,
        lo * b <= a <= hi * b,
    ensures
        lo <= rounded_quotient(a, b) <= hi,
{
    if a >= 0 {
        let q = (2 * a + b) / (2 * b);
        let r = (2 * a + b) % (2 * b);
        vstd::arithmetic::div_mod::lemma_fundamental_div_mod(2 * a + b, 2 * b);
        assert(2 * a + b == 2 * b * q + r);
        assert(lo <= q <= hi) by (nonlinear_arith)
            requires
                b > 0,
                lo * b <= a <= hi * b,
                2 * a + b == 2 * b * q + r,
                0 <= r < 2 * b,
        ;
    } else {
        let q = (-2 * a + b) / (2 * b);
        let r = (-2 * a + b) % (2 * b);
        vstd::arithmetic::div_mod::lemma_fundamental_div_mod(-2 * a + b, 2 * b);
        assert(lo <= -q <= hi) by (nonlinear_arith)
            requires
                b > 0,
                lo * b <= a <= hi * b,
                -2 * a + b == 2 * b * q + r,
                0 <= r < 2 * b,
        ;
    }
}

/// The common epoch lies among the channels: not before the earliest of the
/// measured times and not after the latest.
pub proof fn law_common_epoch_lies_among_channels(
    samples: Seq<ChannelTimeSample>,
    earliest: int,
    latest: int,
)
    requires
        samples.len() > 0,
        forall|i: int|
            0 <= i < samples.len() ==> earliest <= (#[trigger] samples[i]).gps_time.nanos <= latest,
    ensures
        earliest <= mean_time(samples) <= latest,
{
    let reference = samples[0].gps_time.nanos as int;
    lemma_weighted_bounds(samples, reference, earliest - reference, latest - reference);
    if total_weight(samples) > 0 {
        lemma_rounded_quotient_bounds(
            weighted_offsets(samples, reference),
            total_weight(samples),
            earliest - reference,
            latest - reference,
        );
    }
}

/// Sum of the measured times, each as often as its weight says.
pub open spec fn weighted_times(samples: Seq<ChannelTimeSample>) -> int
    decreases samples.len(),
{
    if samples.len() == 0 {
        0
    } else {
        weighted_times(samples.drop_last()) + samples.last().weight * samples.last().gps_time.nanos
    }
}

/// Offsets are times less the moment that they are counted from.
proof fn lemma_offsets_of_times(samples: Seq<ChannelTimeSample>, reference: int)
    ensures
        weighted_offsets(samples, reference) == weighted_times(samples) - total_weight(samples)
            * reference,
        total_weight(samples) >= 0,
    decreases samples.len(),
{
    if samples.len() > 0 {
        let head = samples.drop_last();
        lemma_offsets_of_times(head, reference);
        let t = samples.last().gps_time.nanos as int;
        let w = samples.last().weight as int;
        let total = total_weight(head);
        assert((t - reference) * w == w * t - w * reference) by (nonlinear_arith);
        assert((total + w) * reference == total * reference + w * reference) by (nonlinear_arith);
    } else {
        assert(total_weight(samples) * reference == 0) by (nonlinear_arith)
            requires
                total_weight(samples) == 0,
        ;
    }
}

/// The common epoch is the weighted mean of the measured times: the total weight
/// times the epoch is the sum of the times, each times its weight, to within half
/// the total weight.
pub proof fn law_common_epoch_is_the_weighted_mean(samples: Seq<ChannelTimeSample>)
    requires
        samples.len() > 0,
        total_weight(samples) > 0,
    ensures
        -total_weight(samples) <= 2 * (total_weight(samples) * mean_time(samples) - weighted_times(
            samples,
        )) <= total_weight(samples),
{
    let reference = samples[0].gps_time.nanos as int;
    let total = total_weight(samples);
    let offsets = weighted_offsets(samples, reference);
    let q = rounded_quotient(offsets, total);
    lemma_offsets_of_times(samples, reference);
    crate::rounding::lemma_rounding_error(offsets, total);
    assert(total * (reference + q) == total * reference + total * q) by (nonlinear_arith);
}

/// The sums do not depend on the order of the channels.
proof fn lemma_sums_of_removed(samples: Seq<ChannelTimeSample>, i: int)
    requires
        0 <= i < samples.len(),
    ensures
        total_weight(samples) == total_weight(samples.remove(i)) + samples[i].weight,
        weighted_times(samples) == weighted_times(samples.remove(i)) + samples[i].weight
            * samples[i].gps_time.nanos,
    decreases samples.len(),
{
    let rest = samples.remove(i);
    if i == samples.len() - 1 {
        assert(rest =~= samples.drop_last());
    } else {
        let head = samples.drop_last();
        lemma_sums_of_removed(head, i);
        assert(rest.drop_last() =~= head.remove(i));
        assert(rest.last() == samples.last());
        assert(head[i] == samples[i]);
    }
}

/// The same channels in another order have the same sums.
proof fn lemma_sums_of_reordered(a: Seq<ChannelTimeSample>, b: Seq<ChannelTimeSample>)
    requires
        a.to_multiset() == b.to_multiset(),
    ensures
        total_weight(a) == total_weight(b),
        weighted_times(a) == weighted_times(b),
    decreases a.len(),
{
    broadcast use vstd::seq_lib::group_to_multiset_ensures;

    assert(a.len() == a.to_multiset().len());
    assert(b.len() == b.to_multiset().len());
    if a.len() > 0 {
        let last = a.last();
        assert(a.contains(last));
        assert(a.to_multiset().count(last) > 0);
        assert(b.contains(last));
        let i = choose|i: int| 0 <= i < b.len() && b[i] == last;
        assert(a.drop_last() =~= a.remove(a.len() - 1));
        assert(a.drop_last().to_multiset() =~= b.remove(i).to_multiset());
        lemma_sums_of_reordered(a.drop_last(), b.remove(i));
        lemma_sums_of_removed(b, i);
    }
}

/// The order of the channels does not matter: with the same channels in another order
/// the common epoch is the same, but for a nanosecond where the mean lies halfway
/// between two.
pub proof fn law_order_of_channels_does_not_matter(
    a: Seq<ChannelTimeSample>,
    b: Seq<ChannelTimeSample>,
)
    requires
        a.len() > 0,
        total_weight(a) > 0,
        a.to_multiset() == b.to_multiset(),
    ensures
        -1 <= mean_time(a) - mean_time(b) <= 1,
        (2 * weighted_times(a)) % total_weight(a) != 0 ==> mean_time(a) == mean_time(b),
{
    broadcast use vstd::seq_lib::group_to_multiset_ensures;

    assert(b.len() == b.to_multiset().len());
    lemma_sums_of_reordered(a, b);
    law_common_epoch_is_the_weighted_mean(a);
    law_common_epoch_is_the_weighted_mean(b);
    let w = total_weight(a);
    let s = weighted_times(a);
    let x = mean_time(a);
    let y = mean_time(b);
    assert(-1 <= x - y <= 1) by (nonlinear_arith)
        requires
            w > 0,
            -w <= 2 * (w * x - s) <= w,
            -w <= 2 * (w * y - s) <= w,
    ;
    if x != y {
        let k = x + y;
        assert(2 * s == w * k) by (nonlinear_arith)
            requires
                w > 0,
                -w <= 2 * (w * x - s) <= w,
                -w <= 2 * (w * y - s) <= w,
                x - y == 1 || x - y == -1,
                k == x + y,
        ;
        vstd::arithmetic::mul::lemma_mul_is_commutative(w, k);
        vstd::arithmetic::div_mod::lemma_mod_multiples_basic(k, w);
    }
}

/// Distance of two times in nanoseconds.
fn time_distance(a: u64, b: u64) -> (d: u64)
    ensures
        d == distance(a as int, b as int),
{
    if a >= b {
        a - b
    } else {
        b - a
    }
}

/// Agreement of several channels on one moment.
#[derive(Debug, Clone, Copy)]
pub struct ChannelEpochSync;

impl ChannelEpochSync {
    /// Weighted sum of the offsets of all samples from the first, and the sum of
    /// the weights.
    fn weighted_sums(samples: &[ChannelTimeSample]) -> (sums: (i128, u64))
        requires
            0 < samples@.len() < 0x8000_0000,
        ensures
            sums.0 == weighted_offsets(samples@, samples@[0].gps_time.nanos as int),
            sums.1 == total_weight(samples@),
            sums.0 > i128::MIN,
    {
        let reference: u64 = samples[0].gps_time.nanos;
        let mut sum: i128 = 0;
        let mut weight: u64 = 0;
        let mut i: usize = 0;
        while i < samples.len()
            invariant
                i <= samples@.len() < 0x8000_0000,
                reference == samples@[0].gps_time.nanos,
                sum == weighted_offsets(samples@.take(i as int), reference as int),
                weight == total_weight(samples@.take(i as int)),
                0 <= weight <= i * u32::MAX,
                -(i * 0x1_0000_0000_0000_0000_0000_0000) <= sum <= i
                    * 0x1_0000_0000_0000_0000_0000_0000,
            decreases samples@.len() - i,
        {
            let ghost before = samples@.take(i as int);
            let ghost after = samples@.take(i + 1);
            let sample = samples[i];
            let offset: i128 = sample.gps_time.nanos as i128 - reference as i128;
            let w: i128 = sample.weight as i128;
            proof {
                assert(after.drop_last() =~= before);
                assert(-0x1_0000_0000_0000_0000_0000_0000 <= offset * w
                    <= 0x1_0000_0000_0000_0000_0000_0000) by (nonlinear_arith)
                    requires
                        -0x1_0000_0000_0000_0000 < offset < 0x1_0000_0000_0000_0000,
                        0 <= w < 0x1_0000_0000,
                ;
            }
            sum = sum + offset * w;
            weight = weight + sample.weight as u64;
            i = i + 1;
        }
        assert(samples@.take(i as int) =~= samples@);
        (sum, weight)
    }

    /// The moment on which the channels agree: the mean of their times, weighted
    /// by the quality of their signals.
    pub fn common_epoch(samples: &[ChannelTimeSample]) -> (epoch: Result<CommonEpoch, GnssTimeError>)
        requires
            samples@.len() < 0x8000_0000,
        ensures
            epoch is Err <==> samples@.len() == 0,
            epoch matches Err(e) ==> e == GnssTimeError::InvalidInput("samples must not be empty"),
            epoch matches Ok(c) ==> {
                &&& c.gps_time.nanos == mean_time(samples@)
                &&& total_weight(samples@) > 0 ==> -total_weight(samples@) <= 2 * (total_weight(
                    samples@,
                ) * c.gps_time.nanos - weighted_times(samples@)) <= total_weight(samples@)
                &&& total_weight(samples@) == 0 ==> c.gps_time == samples@[0].gps_time
                &&& c.channel_count == samples@.len()
                &&& is_max_deviation(samples@, mean_time(samples@), c.max_deviation_ns as int)
            },
    {
        if samples.len() == 0 {
            return Err(GnssTimeError::InvalidInput("samples must not be empty"));
        }
        let reference: u64 = samples[0].gps_time.nanos;
        let (sum, weight) = Self::weighted_sums(samples);
        proof {
            law_common_epoch_lies_among_channels(samples@, 0, u64::MAX as int);
            lemma_offsets_of_times(samples@, reference as int);
            if total_weight(samples@) > 0 {
                law_common_epoch_is_the_weighted_mean(samples@);
            }
        }
        let nanos: u64 = if weight > 0 {
            (reference as i128 + round_quotient(sum, weight as i128)) as u64
        } else {
            reference
        };
        let mut max_deviation_ns: u64 = 0;
        let ghost mut witness: int = 0;
        let mut i: usize = 0;
        while i < samples.len()
            invariant
                i <= samples@.len(),
                samples@.len() > 0,
                forall|j: int|
                    0 <= j < i ==> distance(
                        (#[trigger] samples@[j]).gps_time.nanos as int,
                        nanos as int,
                    ) <= max_deviation_ns,
                i == 0 ==> max_deviation_ns == 0,
                i > 0 ==> 0 <= witness < i && distance(
                    samples@[witness].gps_time.nanos as int,
                    nanos as int,
                ) == max_deviation_ns,
            decreases samples@.len() - i,
        {
            let d: u64 = time_distance(samples[i].gps_time.nanos, nanos);
            if d > max_deviation_ns || i == 0 {
                max_deviation_ns = d;
                proof {
                    witness = i as int;
                }
            }
            i = i + 1;
        }
        Ok(
            CommonEpoch {
                gps_time: GpsTime { nanos },
                max_deviation_ns,
                channel_count: samples.len(),
            },
        )
    }

    /// Number of channels within `threshold_ns` of a time.
    fn near_count(samples: &[ChannelTimeSample], time: u64, threshold_ns: u64) -> (n: usize)
        ensures
            n == channels_near(samples@, time as int, threshold_ns as int),
            n <= samples@.len(),
    {
        let mut n: usize = 0;
        let mut i: usize = 0;
        while i < samples.len()
            invariant
                n <= i <= samples@.len(),
                n == channels_near(samples@.take(i as int), time as int, threshold_ns as int),
            decreases samples@.len() - i,
        {
            assert(samples@.take(i + 1).drop_last() =~= samples@.take(i as int));
            if time_distance(samples[i].gps_time.nanos, time) <= threshold_ns {
                n = n + 1;
            }
            i = i + 1;
        }
        assert(samples@.take(i as int) =~= samples@);
        n
    }

    /// Whether channel `i` is a stray.
    fn is_stray_channel(
        samples: &[ChannelTimeSample],
        i: usize,
        moment: u64,
        threshold_ns: u64,
    ) -> (stray: bool)
        requires
            i < samples@.len(),
        ensures
            stray == is_stray(
                samples@,
                samples@[i as int].gps_time.nanos as int,
                moment as int,
                threshold_ns as int,
            ),
    {
        let time: u64 = samples[i].gps_time.nanos;
        if time_distance(time, moment) <= threshold_ns {
            return false;
        }
        let others: usize = samples.len() - 1;
        let near: usize = Self::near_count(samples, time, threshold_ns);
        proof {
            lemma_own_channel_is_near(samples@, i as int, threshold_ns as int);
        }
        let companions: usize = near - 1;
        others == 0 || companions < others - companions
    }

    /// The channels that are not strays, in order.
    fn steady(samples: &[ChannelTimeSample], moment: u64, threshold_ns: u64) -> (kept: Vec<
        ChannelTimeSample,
    >)
        ensures
            kept@ == steady_channels(samples@, moment as int, threshold_ns as int),
            kept@.len() <= samples@.len(),
    {
        let ghost keep = |c: ChannelTimeSample|
            !is_stray(samples@, c.gps_time.nanos as int, moment as int, threshold_ns as int);
        let mut kept: Vec<ChannelTimeSample> = Vec::new();
        let mut i: usize = 0;
        while i < samples.len()
            invariant
                i <= samples@.len(),
                kept@.len() <= i,
                keep == (|c: ChannelTimeSample|
                    !is_stray(
                        samples@,
                        c.gps_time.nanos as int,
                        moment as int,
                        threshold_ns as int,
                    )),
                kept@ == samples@.take(i as int).filter(keep),
            decreases samples@.len() - i,
        {
            proof {
                reveal(Seq::filter);
                assert(samples@.take(i + 1).drop_last() =~= samples@.take(i as int));
            }
            if !Self::is_stray_channel(samples, i, moment, threshold_ns) {
                kept.push(samples[i]);
            }
            i = i + 1;
        }
        assert(samples@.take(i as int) =~= samples@);
        kept
    }

    /// The common epoch that the channels would have without strays, when the given
    /// moment is the one that they have with them.
    fn undragged_epoch(samples: &[ChannelTimeSample], moment: u64, threshold_ns: u64) -> (epoch:
        Option<u64>)
        ensures
            ({
                let steady = steady_channels(samples@, moment as int, threshold_ns as int);
                &&& epoch is Some <==> is_own_epoch(samples@, moment as int) && steady.len() > 0
                &&& epoch matches Some(e) ==> e == mean_time(steady)
            }),
    {
        if samples.len() >= 0x8000_0000 {
            return None;
        }
        match Self::common_epoch(samples) {
            Ok(own) => {
                if own.gps_time.nanos != moment {
                    return None;
                }
            },
            Err(_) => {
                return None;
            },
        }
        let kept = Self::steady(samples, moment, threshold_ns);
        match Self::common_epoch(&kept) {
            Ok(epoch) => Some(epoch.gps_time.nanos),
            Err(_) => None,
        }
    }

    /// Number of channels whose time is farther than `threshold_ns` from the common
    /// epoch. Where that epoch is the one of these very channels, strays among them
    /// may have dragged it away from channels that agree. A stray is a channel
    /// farther than `threshold_ns` from the common epoch with fewer than half of the
    /// other channels within `threshold_ns` of it. A channel that is no stray, and
    /// that is within `threshold_ns` of the common epoch without the strays, does
    /// not count.
    pub fn outlier_count(
        samples: &[ChannelTimeSample],
        common: &CommonEpoch,
        threshold_ns: u64,
    ) -> (n: usize)
        ensures
            n == outliers(samples@, common.gps_time.nanos as int, threshold_ns as int),
    {
        let moment: u64 = common.gps_time.nanos;
        let undragged: Option<u64> = Self::undragged_epoch(samples, moment, threshold_ns);
        let mut n: usize = 0;
        let mut i: usize = 0;
        while i < samples.len()
            invariant
                n <= i <= samples@.len(),
                ({
                    let steady = steady_channels(samples@, moment as int, threshold_ns as int);
                    &&& undragged is Some <==> is_own_epoch(samples@, moment as int) && steady.len()
                        > 0
                    &&& undragged matches Some(e) ==> e == mean_time(steady)
                }),
                n == outliers_among(
                    samples@,
                    samples@.take(i as int),
                    moment as int,
                    threshold_ns as int,
                ),
            decreases samples@.len() - i,
        {
            assert(samples@.take(i + 1).drop_last() =~= samples@.take(i as int));
            let time: u64 = samples[i].gps_time.nanos;
            if time_distance(time, moment) > threshold_ns {
                let stray: bool = Self::is_stray_channel(samples, i, moment, threshold_ns);
                proof {
                    if !stray {
                        lemma_steady_channel(samples@, i as int, moment as int, threshold_ns as int);
                    }
                }
                let near_undragged: bool = match undragged {
                    Some(epoch) => time_distance(time, epoch) <= threshold_ns,
                    None => false,
                };
                if stray || !near_undragged {
                    n = n + 1;
                }
            }
            i = i + 1;
        }
        assert(samples@.take(i as int) =~= samples@);
        n
    }
}

/// A channel that is no stray is among the steady ones.
proof fn lemma_steady_channel(
    samples: Seq<ChannelTimeSample>,
    i: int,
    moment: int,
    threshold: int,
)
    requires
        0 <= i < samples.len(),
        !is_stray(samples, samples[i].gps_time.nanos as int, moment, threshold),
    ensures
        steady_channels(samples, moment, threshold).contains(samples[i]),
{
    broadcast use vstd::seq_lib::group_filter_ensures;

    assert(samples.contains(samples[i]));
}

/// A channel is near its own time.
proof fn lemma_own_channel_is_near(samples: Seq<ChannelTimeSample>, i: int, threshold: int)
    requires
        0 <= i < samples.len(),
        threshold >= 0,
    ensures
        1 <= channels_near(samples, samples[i].gps_time.nanos as int, threshold) <= samples.len(),
    decreases samples.len(),
{
    let time = samples[i].gps_time.nanos as int;
    lemma_near_bound(samples.drop_last(), time, threshold);
    if i < samples.len() - 1 {
        assert(samples.drop_last()[i] == samples[i]);
        lemma_own_channel_is_near(samples.drop_last(), i, threshold);
    }
}

/// No more channels are near a time than there are.
proof fn lemma_near_bound(samples: Seq<ChannelTimeSample>, time: int, threshold: int)
    ensures
        0 <= channels_near(samples, time, threshold) <= samples.len(),
    decreases samples.len(),
{
    if samples.len() > 0 {
        lemma_near_bound(samples.drop_last(), time, threshold);
    }
}

/// The offsets do not change when all times move by the same amount.
proof fn lemma_offsets_move(
    samples: Seq<ChannelTimeSample>,
    moved: Seq<ChannelTimeSample>,
    reference: int,
    by: int,
)
    requires
        moved.len() == samples.len(),
        forall|i: int|
            0 <= i < samples.len() ==> (#[trigger] moved[i]).gps_time.nanos
                == samples[i].gps_time.nanos + by && moved[i].weight == samples[i].weight,
    ensures
        weighted_offsets(moved, reference + by) == weighted_offsets(samples, reference),
        total_weight(moved) == total_weight(samples),
    decreases samples.len(),
{
    if samples.len() > 0 {
        let n = samples.len() as int;
        assert forall|i: int| 0 <= i < n - 1 implies (#[trigger] moved.drop_last()[i]).gps_time.nanos
            == samples.drop_last()[i].gps_time.nanos + by && moved.drop_last()[i].weight
            == samples.drop_last()[i].weight by {
            assert(moved.drop_last()[i] == moved[i]);
        }
        lemma_offsets_move(samples.drop_last(), moved.drop_last(), reference, by);
        assert(moved.last() == moved[n - 1]);
        assert(samples.last() == samples[n - 1]);
    }
}

/// Only differences of times count: when the times of all channels move by the
/// same amount, so does the common epoch.
pub proof fn law_common_epoch_moves_with_the_channels(
    samples: Seq<ChannelTimeSample>,
    moved: Seq<ChannelTimeSample>,
    by: int,
)
    requires
        samples.len() > 0,
        moved.len() == samples.len(),
        forall|i: int|
            0 <= i < samples.len() ==> (#[trigger] moved[i]).gps_time.nanos
                == samples[i].gps_time.nanos + by && moved[i].weight == samples[i].weight,
    ensures
        mean_time(moved) == mean_time(samples) + by,
{
    assert(moved[0].gps_time.nanos == samples[0].gps_time.nanos + by);
    lemma_offsets_move(samples, moved, samples[0].gps_time.nanos as int, by);
}

/// Channels that have measured the common moment are near it and do not diverge.
proof fn lemma_no_outliers(
    samples: Seq<ChannelTimeSample>,
    part: Seq<ChannelTimeSample>,
    t: int,
    threshold: int,
)
    requires
        threshold >= 0,
        forall|i: int| 0 <= i < part.len() ==> (#[trigger] part[i]).gps_time.nanos == t,
    ensures
        outliers_among(samples, part, t, threshold) == 0,
    decreases part.len(),
{
    if part.len() > 0 {
        let head = part.drop_last();
        assert forall|i: int| 0 <= i < head.len() implies (#[trigger] head[i]).gps_time.nanos
            == t by {
            assert(head[i] == part[i]);
        }
        lemma_no_outliers(samples, head, t, threshold);
        assert(part.last() == part[part.len() - 1]);
    }
}

/// Channels that agree leave no doubt: when all have measured the same time, it
/// is the common epoch, with no deviation and no outlier.
pub proof fn law_agreeing_channels(samples: Seq<ChannelTimeSample>, t: int, threshold: int)
    requires
        samples.len() > 0,
        threshold >= 0,
        forall|i: int| 0 <= i < samples.len() ==> (#[trigger] samples[i]).gps_time.nanos == t,
    ensures
        mean_time(samples) == t,
        forall|d: int| is_max_deviation(samples, t, d) ==> d == 0,
        outliers(samples, t, threshold) == 0,
{
    law_common_epoch_lies_among_channels(samples, t, t);
    lemma_no_outliers(samples, samples, t, threshold);
}

/// How many of some channels diverge: none that is near the common moment, and all
/// the others where none of them is excused.
proof fn lemma_outliers_are_far(
    samples: Seq<ChannelTimeSample>,
    part: Seq<ChannelTimeSample>,
    moment: int,
    threshold: int,
)
    ensures
        0 <= outliers_among(samples, part, moment, threshold) <= part.len() - channels_near(
            part,
            moment,
            threshold,
        ),
        (forall|i: int|
            0 <= i < part.len() ==> distance((#[trigger] part[i]).gps_time.nanos as int, moment)
                <= threshold || diverges(
                samples,
                part[i].gps_time.nanos as int,
                moment,
                threshold,
            )) ==> outliers_among(samples, part, moment, threshold) == part.len() - channels_near(
            part,
            moment,
            threshold,
        ),
    decreases part.len(),
{
    if part.len() > 0 {
        let head = part.drop_last();
        lemma_outliers_are_far(samples, head, moment, threshold);
        assert(part.last() == part[part.len() - 1]);
        if forall|i: int|
            0 <= i < part.len() ==> distance((#[trigger] part[i]).gps_time.nanos as int, moment)
                <= threshold || diverges(
                samples,
                part[i].gps_time.nanos as int,
                moment,
                threshold,
            ) {
            assert forall|i: int| 0 <= i < head.len() implies distance(
                (#[trigger] head[i]).gps_time.nanos as int,
                moment,
            ) <= threshold || diverges(
                samples,
                head[i].gps_time.nanos as int,
                moment,
                threshold,
            ) by {
                assert(head[i] == part[i]);
            }
        }
    }
}

/// A channel that diverges is counted.
proof fn lemma_diverging_channel_counts(
    samples: Seq<ChannelTimeSample>,
    part: Seq<ChannelTimeSample>,
    moment: int,
    threshold: int,
    i: int,
)
    requires
        0 <= i < part.len(),
        diverges(samples, part[i].gps_time.nanos as int, moment, threshold),
    ensures
        outliers_among(samples, part, moment, threshold) >= 1,
    decreases part.len(),
{
    let head = part.drop_last();
    lemma_outliers_are_far(samples, head, moment, threshold);
    lemma_near_bound(head, moment, threshold);
    if i < part.len() - 1 {
        assert(head[i] == part[i]);
        lemma_diverging_channel_counts(samples, head, moment, threshold, i);
    }
}

/// Without strays all channels are steady.
proof fn lemma_all_steady(samples: Seq<ChannelTimeSample>, moment: int, threshold: int)
    requires
        forall|i: int|
            0 <= i < samples.len() ==> !is_stray(
                samples,
                (#[trigger] samples[i]).gps_time.nanos as int,
                moment,
                threshold,
            ),
    ensures
        steady_channels(samples, moment, threshold) == samples,
{
    let keep = |c: ChannelTimeSample|
        !is_stray(samples, c.gps_time.nanos as int, moment, threshold);
    assert forall|j: int| 0 <= j <= samples.len() implies #[trigger] samples.take(j).filter(keep)
        == samples.take(j) by {
        lemma_all_kept(samples, keep, j);
    }
    assert(samples.take(samples.len() as int) =~= samples);
}

/// A filter that every element passes keeps all.
proof fn lemma_all_kept(
    samples: Seq<ChannelTimeSample>,
    keep: spec_fn(ChannelTimeSample) -> bool,
    j: int,
)
    requires
        0 <= j <= samples.len(),
        forall|i: int| 0 <= i < samples.len() ==> keep(#[trigger] samples[i]),
    ensures
        samples.take(j).filter(keep) == samples.take(j),
    decreases j,
{
    reveal(Seq::filter);
    if j > 0 {
        lemma_all_kept(samples, keep, j - 1);
        assert(samples.take(j).drop_last() =~= samples.take(j - 1));
        assert(samples.take(j).last() == samples[j - 1]);
        assert(samples.take(j - 1).push(samples[j - 1]) =~= samples.take(j));
    } else {
        assert(samples.take(0).filter(keep) =~= samples.take(0));
    }
}

/// Only channels farther than the threshold from the common moment count as
/// outliers, and where there are such channels, at least one does.
pub proof fn law_outliers_are_far_channels(
    samples: Seq<ChannelTimeSample>,
    moment: int,
    threshold: int,
)
    ensures
        0 <= outliers(samples, moment, threshold) <= samples.len() - channels_near(
            samples,
            moment,
            threshold,
        ),
        outliers(samples, moment, threshold) == 0 <==> channels_near(samples, moment, threshold)
            == samples.len(),
{
    lemma_outliers_are_far(samples, samples, moment, threshold);
    if outliers(samples, moment, threshold) == 0 {
        assert forall|i: int| 0 <= i < samples.len() implies !diverges(
            samples,
            (#[trigger] samples[i]).gps_time.nanos as int,
            moment,
            threshold,
        ) by {
            if diverges(samples, samples[i].gps_time.nanos as int, moment, threshold) {
                lemma_diverging_channel_counts(samples, samples, moment, threshold, i);
            }
        }
        lemma_all_steady(samples, moment, threshold);
    }
}

/// A common moment that is not the epoch of the channels themselves is held
/// against all of them: every channel farther than the threshold from it counts.
pub proof fn law_foreign_moment_excuses_no_channel(
    samples: Seq<ChannelTimeSample>,
    moment: int,
    threshold: int,
)
    requires
        !is_own_epoch(samples, moment),
    ensures
        outliers(samples, moment, threshold) == samples.len() - channels_near(
            samples,
            moment,
            threshold,
        ),
{
    lemma_outliers_are_far(samples, samples, moment, threshold);
}

/// How many of the first `j` channels are near the time of the others and near
/// that of the stray channel `k`.
proof fn lemma_near_but_one(
    samples: Seq<ChannelTimeSample>,
    k: int,
    t: int,
    threshold: int,
    j: int,
)
    requires
        0 <= k < samples.len(),
        0 <= j <= samples.len(),
        threshold >= 0,
        forall|i: int|
            0 <= i < samples.len() && i != k ==> (#[trigger] samples[i]).gps_time.nanos == t,
        distance(samples[k].gps_time.nanos as int, t) > threshold,
    ensures
        channels_near(samples.take(j), t, threshold) == if k < j {
            j - 1
        } else {
            j
        },
        channels_near(samples.take(j), samples[k].gps_time.nanos as int, threshold) == if k < j {
            1int
        } else {
            0int
        },
    decreases j,
{
    if j > 0 {
        lemma_near_but_one(samples, k, t, threshold, j - 1);
        assert(samples.take(j).drop_last() =~= samples.take(j - 1));
        assert(samples.take(j).last() == samples[j - 1]);
    }
}

/// Of the first `j` channels, only the stray channel `k` diverges.
proof fn lemma_outliers_but_one(
    samples: Seq<ChannelTimeSample>,
    k: int,
    t: int,
    threshold: int,
    j: int,
)
    requires
        3 <= samples.len() < 0x8000_0000,
        0 <= k < samples.len(),
        0 <= j <= samples.len(),
        threshold >= 0,
        forall|i: int|
            0 <= i < samples.len() && i != k ==> (#[trigger] samples[i]).gps_time.nanos == t,
        distance(samples[k].gps_time.nanos as int, t) > threshold,
        distance(samples[k].gps_time.nanos as int, mean_time(samples)) > threshold,
        mean_time(steady_channels(samples, mean_time(samples), threshold)) == t,
    ensures
        outliers_among(samples, samples.take(j), mean_time(samples), threshold) == if k < j {
            1int
        } else {
            0int
        },
    decreases j,
{
    if j > 0 {
        lemma_outliers_but_one(samples, k, t, threshold, j - 1);
        assert(samples.take(j).drop_last() =~= samples.take(j - 1));
        assert(samples.take(j).last() == samples[j - 1]);
        lemma_near_but_one(samples, k, t, threshold, samples.len() as int);
        assert(samples.take(samples.len() as int) =~= samples);
    }
}

/// A stray channel is found: when all channels but one agree and that one is
/// farther than the threshold from them and from the common epoch of all, it is
/// the only outlier, however far it has dragged the epoch.
pub proof fn law_stray_channel_is_the_only_outlier(
    samples: Seq<ChannelTimeSample>,
    k: int,
    t: int,
    threshold: int,
)
    requires
        3 <= samples.len() < 0x8000_0000,
        0 <= k < samples.len(),
        threshold >= 0,
        forall|i: int|
            0 <= i < samples.len() && i != k ==> (#[trigger] samples[i]).gps_time.nanos == t,
        distance(samples[k].gps_time.nanos as int, t) > threshold,
        distance(samples[k].gps_time.nanos as int, mean_time(samples)) > threshold,
    ensures
        outliers(samples, mean_time(samples), threshold) == 1,
{
    broadcast use vstd::seq_lib::group_filter_ensures;

    let moment = mean_time(samples);
    let steady = steady_channels(samples, moment, threshold);
    lemma_near_but_one(samples, k, t, threshold, samples.len() as int);
    assert(samples.take(samples.len() as int) =~= samples);
    assert forall|i: int| 0 <= i < steady.len() implies t <= (#[trigger] steady[i]).gps_time.nanos
        <= t by {
        let c = steady[i];
        assert(steady.contains(c));
        assert(!is_stray(samples, c.gps_time.nanos as int, moment, threshold));
        samples.lemma_filter_contains_rev(
            |c: ChannelTimeSample| !is_stray(samples, c.gps_time.nanos as int, moment, threshold),
            c,
        );
        let j = choose|j: int| 0 <= j < samples.len() && samples[j] == c;
        assert(j != k);
    }
    let other = if k == 0 {
        1int
    } else {
        0int
    };
    assert(samples[other].gps_time.nanos == t);
    lemma_steady_channel(samples, other, moment, threshold);
    law_common_epoch_lies_among_channels(steady, t, t);
    lemma_outliers_but_one(samples, k, t, threshold, samples.len() as int);
}

/// A moment, as GPS time, as UTC and as Unix time.
#[derive(Debug, Clone, Copy, PartialEq, Eq, Structural)]
pub struct ReceiverTimestamp {
    /// GPS time.
    pub gpst: GpsTime,
    /// UTC.
    pub utc: UtcTime,
    /// Nanoseconds since the Unix epoch.
    pub unix_nanos: i64,
}

impl ReceiverTimestamp {
    /// The timestamp of a moment whose GPS time and UTC are known.
    pub fn from_gps_and_utc(gpst: GpsTime, utc: UtcTime) -> (ts: Self)
        ensures
            ts.gpst == gpst,
            ts.utc == utc,
            ts.unix_nanos == unix_nanos_of(utc.nanos as int),
    {
        ReceiverTimestamp { gpst, utc, unix_nanos: time_as_unix_nanos(utc.nanos) }
    }

    /// The timestamp of a moment of GPS time, with the built-in table of leap
    /// seconds.
    pub fn from_gps(gpst: GpsTime) -> (ts: Result<Self, GnssTimeError>)
        ensures
            ts is Ok <==> utc_of_gps(gpst.nanos as int) <= u64::MAX,
            ts matches Ok(t) ==> {
                &&& t.gpst == gpst
                &&& t.utc.nanos == utc_of_gps(gpst.nanos as int)
                &&& t.unix_nanos == unix_nanos_of(utc_of_gps(gpst.nanos as int))
            },
            ts matches Err(e) ==> e == GnssTimeError::Overflow,
    {
        match gps_to_utc(gpst) {
            Ok(utc) => Ok(Self::from_gps_and_utc(gpst, utc)),
            Err(e) => Err(e),
        }
    }

    /// GPS week, counted without wrapping.
    pub fn gps_week(&self) -> (week: u32)
        ensures
            week == self.gpst.nanos / GPS_WEEK_NS,
    {
        self.gpst.week()
    }

    /// Whole seconds since the GPS week began.
    pub fn gps_tow_seconds(&self) -> (tow: u32)
        ensures
            tow == (self.gpst.nanos % GPS_WEEK_NS) / SECOND_NS,
    {
        self.gpst.tow_seconds()
    }

    /// Nanoseconds since the second began.
    pub fn gps_tow_sub_second_nanos(&self) -> (nanos: u32)
        ensures
            nanos == self.gpst.nanos % SECOND_NS,
    {
        self.gpst.sub_second_nanos()
    }

    /// Date and time of the moment in UTC, `YYYY-MM-DDThh:mm:ss.nnnnnnnnnZ`.
    pub fn utc_iso8601(&self) -> (text: String)
        ensures
            text@ == civil_text(self.utc.nanos),
            text@.len() == 30,
            text@[10] == 'T',
            text@[29] == 'Z',
    {
        time_civil_text(self.utc.nanos)
    }

    /// Whole seconds since the Unix epoch, cut off towards zero.
    pub fn unix_seconds(&self) -> (seconds: i64)
        ensures
            self.unix_nanos >= 0 ==> seconds == self.unix_nanos as int / 1_000_000_000,
            self.unix_nanos < 0 ==> seconds == -((-self.unix_nanos) / 1_000_000_000),
            -1_000_000_000 < self.unix_nanos - seconds * 1_000_000_000 < 1_000_000_000,
            self.unix_nanos >= 0 ==> 0 <= seconds * 1_000_000_000 <= self.unix_nanos,
            self.unix_nanos <= 0 ==> self.unix_nanos <= seconds * 1_000_000_000 <= 0,
    {
        if self.unix_nanos >= 0 {
            self.unix_nanos / 1_000_000_000
        } else {
            let magnitude: u64 = (-(self.unix_nanos as i128)) as u64;
            -((magnitude / 1_000_000_000) as i64)
        }
    }
}

/// A code phase is scaled to the millisecond: without whole periods, the code phase
/// is to the length of the code as the nanoseconds are to a million, rounded down.
pub proof fn law_code_phase_is_scaled_to_the_millisecond(length: int, code_phase_nanochips: int)
    requires
        0 < length,
        0 <= code_phase_nanochips < length * 1_000_000_000,
    ensures
        ({
            let ns = sub_ms_ns(length, code_phase_nanochips);
            length * 1_000_000_000 * ns <= code_phase_nanochips * 1_000_000 < length * 1_000_000_000
                * (ns + 1)
        }),
{
    let d = length * 1_000_000_000;
    let x = code_phase_nanochips * 1_000_000;
    vstd::arithmetic::div_mod::lemma_small_mod(code_phase_nanochips as nat, d as nat);
    vstd::arithmetic::div_mod::lemma_fundamental_div_mod(x, d);
    vstd::arithmetic::div_mod::lemma_mod_bound(x, d);
    let q = x / d;
    assert(d * (q + 1) == d * q + d) by (nonlinear_arith);
}

/// UTC falls behind GPS time by the leap seconds: by whole seconds, none before the
/// first leap second, eighteen from the last one on, and never less as time goes on.
pub proof fn law_utc_falls_behind_by_leap_seconds(gps_ns: int, later_ns: int) -> (leaps: int)
    requires
        gps_ns <= later_ns,
    ensures
        0 <= leaps <= 18,
        utc_of_gps(gps_ns) == gps_ns + 252_892_800_000_000_000 - leaps * 1_000_000_000,
        gps_ns < 46_828_801_000_000_000 ==> leaps == 0,
        gps_ns >= 1_167_264_018_000_000_000 ==> leaps == 18,
        utc_of_gps(later_ns) - utc_of_gps(gps_ns) <= later_ns - gps_ns,
{
    let a = lemma_leaps_at(tai_of_gps(gps_ns));
    let b = lemma_leaps_at(tai_of_gps(later_ns));
    if a > 1 {
        lemma_leap_events_apart(1, a);
    }
    if a < 17 {
        lemma_leap_events_apart(a + 1, 18);
    }
    if b < a {
        if b + 1 < a {
            lemma_leap_events_apart(b + 1, a);
        }
    }
    a
}

/// Every channel adds its weight, and its time as often as its weight says: the sums
/// over two groups of channels are those over both together.
pub proof fn law_every_channel_adds_its_weight(
    a: Seq<ChannelTimeSample>,
    b: Seq<ChannelTimeSample>,
    sample: ChannelTimeSample,
)
    ensures
        total_weight(a + b) == total_weight(a) + total_weight(b),
        weighted_times(a + b) == weighted_times(a) + weighted_times(b),
        total_weight(seq![sample]) == sample.weight,
        weighted_times(seq![sample]) == sample.weight * sample.gps_time.nanos,
    decreases b.len(),
{
    assert(seq![sample].drop_last() =~= Seq::<ChannelTimeSample>::empty());
    assert(total_weight(Seq::<ChannelTimeSample>::empty()) == 0);
    assert(weighted_times(Seq::<ChannelTimeSample>::empty()) == 0);
    if b.len() == 0 {
        assert(a + b =~= a);
    } else {
        law_every_channel_adds_its_weight(a, b.drop_last(), sample);
        assert((a + b).drop_last() =~= a + b.drop_last());
        assert((a + b).last() == b.last());
    }
}

/// A channel without weight that comes behind others does not count, and one that is
/// alone decides in spite of that.
pub proof fn law_weightless_channel_does_not_count(
    samples: Seq<ChannelTimeSample>,
    sample: ChannelTimeSample,
)
    requires
        samples.len() > 0,
        sample.weight == 0,
    ensures
        mean_time(samples.push(sample)) == mean_time(samples),
        mean_time(seq![sample]) == sample.gps_time.nanos,
{
    let all = samples.push(sample);
    assert(all.drop_last() =~= samples);
    assert(all[0] == samples[0]);
    let reference = samples[0].gps_time.nanos as int;
    assert((sample.gps_time.nanos - reference) * sample.weight == 0) by (nonlinear_arith)
        requires
            sample.weight == 0,
    ;
    law_every_channel_adds_its_weight(samples, seq![sample], sample);
}

/// The largest deviation is that of a channel, and no channel deviates more, to
/// either side.
pub proof fn law_no_channel_deviates_more(
    samples: Seq<ChannelTimeSample>,
    moment: int,
    d: int,
    i: int,
)
    requires
        is_max_deviation(samples, moment, d),
        0 <= i < samples.len(),
    ensures
        -d <= samples[i].gps_time.nanos - moment <= d,
        exists|k: int|
            0 <= k < samples.len() && ((#[trigger] samples[k]).gps_time.nanos - moment == d
                || moment - samples[k].gps_time.nanos == d),
{
    let k = choose|k: int|
        0 <= k < samples.len() && distance((#[trigger] samples[k]).gps_time.nanos as int, moment)
            == d;
    assert(distance(samples[i].gps_time.nanos as int, moment) <= d);
    assert(samples[k].gps_time.nanos - moment == d || moment - samples[k].gps_time.nanos == d);
}

/// Every channel whose time lies within the threshold, to either side, counts as near
/// once.
pub proof fn law_near_channels_add_up(
    a: Seq<ChannelTimeSample>,
    b: Seq<ChannelTimeSample>,
    sample: ChannelTimeSample,
    time: int,
    threshold: int,
)
    ensures
        channels_near(a + b, time, threshold) == channels_near(a, time, threshold) + channels_near(
            b,
            time,
            threshold,
        ),
        channels_near(seq![sample], time, threshold) == if -threshold <= sample.gps_time.nanos - time
            <= threshold {
            1int
        } else {
            0int
        },
    decreases b.len(),
{
    assert(seq![sample].drop_last() =~= Seq::<ChannelTimeSample>::empty());
    assert(channels_near(Seq::<ChannelTimeSample>::empty(), time, threshold) == 0);
    if b.len() == 0 {
        assert(a + b =~= a);
    } else {
        law_near_channels_add_up(a, b.drop_last(), sample, time, threshold);
        assert((a + b).drop_last() =~= a + b.drop_last());
        assert((a + b).last() == b.last());
    }
}

/// Who counts as an outlier: a channel farther than the threshold from the moment
/// that is alone, or has fewer than half of the others near it, or whose moment is not
/// that of the channels, or that is far also from the mean of those that are no strays;
/// every such channel counts once, and no other.
pub proof fn law_outliers_add_up(
    samples: Seq<ChannelTimeSample>,
    a: Seq<ChannelTimeSample>,
    b: Seq<ChannelTimeSample>,
    sample: ChannelTimeSample,
    moment: int,
    threshold: int,
)
    requires
        threshold >= 0,
    ensures
        outliers_among(samples, a + b, moment, threshold) == outliers_among(
            samples,
            a,
            moment,
            threshold,
        ) + outliers_among(samples, b, moment, threshold),
        ({
            let time = sample.gps_time.nanos as int;
            let far = time - moment > threshold || moment - time > threshold;
            let companions = channels_near(samples, time, threshold) - 1;
            let lonely = samples.len() == 1 || 2 * companions < samples.len() - 1;
            let rest = mean_time(steady_channels(samples, moment, threshold));
            let dragged = is_own_epoch(samples, moment) && -threshold <= time - rest <= threshold;
            &&& outliers_among(samples, seq![sample], moment, threshold) == if far && (lonely
                || !dragged) {
                1int
            } else {
                0int
            }
            &&& is_stray(samples, time, moment, threshold) <==> far && lonely
        }),
    decreases b.len(),
{
    assert(seq![sample].drop_last() =~= Seq::<ChannelTimeSample>::empty());
    assert(outliers_among(samples, Seq::<ChannelTimeSample>::empty(), moment, threshold) == 0);
    if b.len() == 0 {
        assert(a + b =~= a);
    } else {
        law_outliers_add_up(samples, a, b.drop_last(), sample, moment, threshold);
        assert((a + b).drop_last() =~= a + b.drop_last());
        assert((a + b).last() == b.last());
    }
}

/// The channels that are no strays keep their order, and none of them is left out.
pub proof fn law_steady_channels_are_no_strays(
    samples: Seq<ChannelTimeSample>,
    moment: int,
    threshold: int,
    sample: ChannelTimeSample,
)
    ensures
        steady_channels(samples, moment, threshold).contains(sample) <==> samples.contains(sample)
            && !is_stray(samples, sample.gps_time.nanos as int, moment, threshold),
        steady_channels(samples, moment, threshold).len() <= samples.len(),
{
    let keep = |c: ChannelTimeSample|
        !is_stray(samples, c.gps_time.nanos as int, moment, threshold);
    let kept = samples.filter(keep);
    samples.lemma_filter_len(keep);
    if kept.contains(sample) {
        samples.lemma_filter_contains_rev(keep, sample);
        samples.lemma_filter_pred(keep, kept.index_of(sample));
    }
    if samples.contains(sample) && keep(sample) {
        samples.lemma_filter_contains(keep, samples.index_of(sample));
    }
}

/// Unix time runs on with UTC, two years of 365 days ahead, until it has no room left.
pub proof fn law_unix_time_runs_with_utc(utc_ns: int, later_ns: int)
    requires
        utc_ns <= later_ns,
    ensures
        later_ns + 63_072_000_000_000_000 <= i64::MAX ==> unix_nanos_of(later_ns) - unix_nanos_of(
            utc_ns,
        ) == later_ns - utc_ns && unix_nanos_of(utc_ns) == utc_ns + 2 * 365 * 86_400_000_000_000,
        unix_nanos_of(utc_ns) <= unix_nanos_of(later_ns) <= i64::MAX,
{
}

} // verus!
