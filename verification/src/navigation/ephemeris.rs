//! Broadcast ephemerides: the fields of subframes 1, 2 and 3.
//!
//! Every field keeps the integer that is transmitted, together with the unit
//! that one step of it stands for; the two reference times are in seconds. The
//! conversion to physical quantities is left to the application.

use crate::navigation::bits::{
    bits_to_u32, bits_value, lemma_bits_value_bound, lemma_leading_bit, lemma_signed_value_bound,
    signed_value,
};
use crate::navigation::frame_decoder::DecodedSubframe;
use crate::rounding::{lemma_rounding_error, round_quotient, rounded_quotient};
use vstd::arithmetic::power2::{lemma2_to64, lemma_pow2_strictly_increases, pow2};
use vstd::prelude::*;

verus! {

/// Speed of light in metres per second.
pub const SPEED_OF_LIGHT: i64 = 299_792_458;

/// Seconds in a GPS week.
pub const SECONDS_PER_WEEK: u32 = 604800;

/// Why a set of ephemerides must not be used.
#[derive(Debug, Clone, Copy, PartialEq, Eq, Structural)]
pub enum EphemerisValidationError {
    /// The satellite is marked as unhealthy.
    UnhealthySatellite {
        /// Value of the health field.
        health: u8,
    },
    /// Subframes 2 and 3 belong to different issues of data.
    IodeMismatch {
        /// Issue of data of subframe 2.
        iode_sf2: u8,
        /// Issue of data of subframe 3.
        iode_sf3: u8,
    },
    /// The clock data of subframe 1 belong to another issue than the orbit.
    IodcIodeMismatch {
        /// The eight low bits of the issue of the clock data.
        iodc_low8: u8,
        /// Issue of the orbit data.
        iode: u8,
    },
}

/// Clock of the satellite, from subframe 1.
#[derive(Debug, Clone, Copy, PartialEq, Eq, Structural)]
pub struct ClockParams {
    /// GPS week, modulo 1024.
    pub week_number: u16,
    /// Index of the user range accuracy.
    pub ura_index: u8,
    /// Health of the satellite; zero means healthy.
    pub sv_health: u8,
    /// Issue of the clock data, ten bits.
    pub iodc: u16,
    /// Reference time of the clock, seconds of the week.
    pub toc: u32,
    /// Quadratic clock coefficient, in 2^-55 s/s^2.
    pub af2: i32,
    /// Linear clock coefficient, in 2^-43 s/s.
    pub af1: i32,
    /// Clock offset, in 2^-31 s.
    pub af0: i32,
}

/// First part of the orbit, from subframe 2.
#[derive(Debug, Clone, Copy, PartialEq, Eq, Structural)]
pub struct OrbitPart1 {
    /// Issue of the orbit data.
    pub iode: u8,
    /// Sine correction of the orbit radius, in 2^-5 m.
    pub crs: i32,
    /// Correction of the mean motion, in 2^-43 semicircles/s.
    pub delta_n: i32,
    /// Mean anomaly at the reference time, in 2^-31 semicircles.
    pub m0: i32,
    /// Cosine correction of the argument of latitude, in 2^-29 rad.
    pub cuc: i32,
    /// Eccentricity, in 2^-33.
    pub e: u32,
    /// Sine correction of the argument of latitude, in 2^-29 rad.
    pub cus: i32,
    /// Square root of the semi-major axis, in 2^-19 m^(1/2).
    pub sqrt_a: u32,
    /// Reference time of the ephemerides, seconds of the week.
    pub toe: u32,
}

/// Second part of the orbit, from subframe 3.
#[derive(Debug, Clone, Copy, PartialEq, Eq, Structural)]
pub struct OrbitPart2 {
    /// Cosine correction of the inclination, in 2^-29 rad.
    pub cic: i32,
    /// Longitude of the ascending node, in 2^-31 semicircles.
    pub omega0: i32,
    /// Sine correction of the inclination, in 2^-29 rad.
    pub cis: i32,
    /// Inclination at the reference time, in 2^-31 semicircles.
    pub i0: i32,
    /// Cosine correction of the orbit radius, in 2^-5 m.
    pub crc: i32,
    /// Argument of perigee, in 2^-31 semicircles.
    pub omega: i32,
    /// Rate of the right ascension, in 2^-43 semicircles/s.
    pub omega_dot: i32,
    /// Issue of the orbit data.
    pub iode: u8,
    /// Rate of the inclination, in 2^-43 semicircles/s.
    pub idot: i32,
}

/// A complete set of ephemerides of one satellite.
#[derive(Debug, Clone, Copy, PartialEq, Eq, Structural)]
pub struct Ephemeris {
    /// Number of the satellite.
    pub prn: u8,
    /// Clock and health, from subframe 1.
    pub clock: ClockParams,
    /// First part of the orbit, from subframe 2.
    pub orbit1: OrbitPart1,
    /// Second part of the orbit, from subframe 3.
    pub orbit2: OrbitPart2,
}

/// The unsigned field of `len` bits at `offset`.
pub open spec fn unsigned_field(bits: Seq<bool>, offset: int, len: int) -> nat {
    bits_value(bits.subrange(offset, offset + len))
}

/// The two's complement field of `len` bits at `offset`.
pub open spec fn signed_field(bits: Seq<bool>, offset: int, len: int) -> int {
    signed_value(bits.subrange(offset, offset + len))
}

/// The information bits of the words behind the handover word, in order.
pub open spec fn data_bits(words: Seq<Seq<bool>>) -> Seq<bool> {
    Seq::new(192, |i: int| words[2 + i / 24][i % 24])
}

/// The clock data in the data bits of subframe 1.
pub open spec fn clock_of(bits: Seq<bool>) -> ClockParams {
    ClockParams {
        week_number: unsigned_field(bits, 0, 10) as u16,
        ura_index: unsigned_field(bits, 12, 4) as u8,
        sv_health: unsigned_field(bits, 16, 6) as u8,
        iodc: (256 * unsigned_field(bits, 22, 2) + unsigned_field(bits, 32, 8)) as u16,
        toc: (16 * unsigned_field(bits, 40, 16)) as u32,
        af2: signed_field(bits, 56, 8) as i32,
        af1: signed_field(bits, 64, 16) as i32,
        af0: signed_field(bits, 80, 22) as i32,
    }
}

/// The orbit data in the data bits of subframe 2.
pub open spec fn orbit1_of(bits: Seq<bool>) -> OrbitPart1 {
    OrbitPart1 {
        iode: unsigned_field(bits, 0, 8) as u8,
        crs: signed_field(bits, 8, 16) as i32,
        delta_n: signed_field(bits, 24, 16) as i32,
        m0: signed_field(bits, 40, 32) as i32,
        cuc: signed_field(bits, 72, 16) as i32,
        e: unsigned_field(bits, 88, 32) as u32,
        cus: signed_field(bits, 120, 16) as i32,
        sqrt_a: unsigned_field(bits, 136, 32) as u32,
        toe: (16 * unsigned_field(bits, 168, 16)) as u32,
    }
}

/// The orbit data in the data bits of subframe 3.
pub open spec fn orbit2_of(bits: Seq<bool>) -> OrbitPart2 {
    OrbitPart2 {
        cic: signed_field(bits, 0, 16) as i32,
        omega0: signed_field(bits, 16, 32) as i32,
        cis: signed_field(bits, 48, 16) as i32,
        i0: signed_field(bits, 64, 32) as i32,
        crc: signed_field(bits, 96, 16) as i32,
        omega: signed_field(bits, 112, 32) as i32,
        omega_dot: signed_field(bits, 144, 24) as i32,
        iode: unsigned_field(bits, 168, 8) as u8,
        idot: signed_field(bits, 176, 14) as i32,
    }
}

/// A field of `len` bits is below two to the power of `len`.
proof fn lemma_unsigned_field(bits: Seq<bool>, offset: int, len: int)
    requires
        0 <= offset,
        0 <= len,
        offset + len <= bits.len(),
    ensures
        unsigned_field(bits, offset, len) < pow2(len as nat),
{
    lemma_bits_value_bound(bits.subrange(offset, offset + len));
}

/// Reads fields out of a row of bits.
pub struct BitCursor<'a> {
    bits: &'a [bool],
}

impl<'a> BitCursor<'a> {
    /// The bits that the cursor reads.
    pub closed spec fn view(&self) -> Seq<bool> {
        self.bits@
    }

    /// A cursor over `bits`.
    pub fn new(bits: &'a [bool]) -> (cursor: Self)
        ensures
            cursor@ == bits@,
    {
        BitCursor { bits }
    }

    /// The unsigned number in the `len` bits from `offset` on, most significant
    /// bit first. Of a field longer than 32 bits the last 32 count.
    pub fn unsigned(&self, offset: usize, len: usize) -> (value: u32)
        requires
            offset + len <= self@.len(),
        ensures
            value == unsigned_field(self@, offset as int, len as int) % 0x1_0000_0000,
            len <= 32 ==> value == unsigned_field(self@, offset as int, len as int),
    {
        let total: usize = self.bits.len();
        assert(offset + len <= total);
        bits_to_u32(vstd::slice::slice_subrange(self.bits, offset, offset + len))
    }

    /// The two's complement number in the `len` bits from `offset` on.
    pub fn signed(&self, offset: usize, len: usize) -> (value: i32)
        requires
            0 < len <= 32,
            offset + len <= self@.len(),
        ensures
            value == signed_field(self@, offset as int, len as int),
    {
        let raw: u32 = self.unsigned(offset, len);
        let ghost field = self@.subrange(offset as int, offset + len);
        proof {
            lemma_bits_value_bound(field);
            lemma_leading_bit(field);
            lemma_signed_value_bound(field);
            vstd::arithmetic::power2::lemma_pow2_unfold(len as nat);
            lemma2_to64();
            if len < 32 {
                lemma_pow2_strictly_increases(len as nat, 32);
            }
            vstd::bits::lemma_u64_shl_is_mul(1, len as u64);
        }
        if self.bits[offset] {
            let full: u64 = 1u64 << (len as u64);
            (raw as i64 - full as i64) as i32
        } else {
            raw as i32
        }
    }
}

/// The information bits of the eight words behind the handover word.
pub fn concat_data_words(subframe: &DecodedSubframe) -> (bits: [bool; 192])
    ensures
        bits@ == data_bits(subframe@.words),
{
    let mut bits: [bool; 192] = [false; 192];
    let mut i: usize = 0;
    while i < 192
        invariant
            i <= 192,
            forall|j: int| 0 <= j < i ==> #[trigger] bits@[j] == subframe.words@[2 + j / 24]@[j % 24],
        decreases 192 - i,
    {
        bits[i] = subframe.words[2 + i / 24][i % 24];
        i = i + 1;
    }
    assert(bits@ =~= data_bits(subframe@.words));
    bits
}

/// Reads subframe 1: clock, health and issue of the clock data. `None` for any
/// other subframe.
pub fn parse_subframe1(subframe: &DecodedSubframe) -> (clock: Option<ClockParams>)
    ensures
        clock == (if subframe.subframe_id == 1 {
            Some(clock_of(data_bits(subframe@.words)))
        } else {
            None
        }),
{
    if subframe.subframe_id != 1 {
        return None;
    }
    let bits = concat_data_words(subframe);
    let c = BitCursor::new(&bits);
    proof {
        lemma2_to64();
        lemma_unsigned_field(bits@, 0, 10);
        lemma_unsigned_field(bits@, 12, 4);
        lemma_unsigned_field(bits@, 16, 6);
        lemma_unsigned_field(bits@, 22, 2);
        lemma_unsigned_field(bits@, 32, 8);
        lemma_unsigned_field(bits@, 40, 16);
    }
    let iodc_msb: u32 = c.unsigned(22, 2);
    let iodc_lsb: u32 = c.unsigned(32, 8);
    Some(
        ClockParams {
            week_number: c.unsigned(0, 10) as u16,
            ura_index: c.unsigned(12, 4) as u8,
            sv_health: c.unsigned(16, 6) as u8,
            iodc: (256 * iodc_msb + iodc_lsb) as u16,
            toc: 16 * c.unsigned(40, 16),
            af2: c.signed(56, 8),
            af1: c.signed(64, 16),
            af0: c.signed(80, 22),
        },
    )
}

/// Reads subframe 2, the first part of the orbit. `None` for any other subframe.
pub fn parse_subframe2(subframe: &DecodedSubframe) -> (orbit: Option<OrbitPart1>)
    ensures
        orbit == (if subframe.subframe_id == 2 {
            Some(orbit1_of(data_bits(subframe@.words)))
        } else {
            None
        }),
{
    if subframe.subframe_id != 2 {
        return None;
    }
    let bits = concat_data_words(subframe);
    let c = BitCursor::new(&bits);
    proof {
        lemma2_to64();
        lemma_unsigned_field(bits@, 0, 8);
        lemma_unsigned_field(bits@, 168, 16);
    }
    Some(
        OrbitPart1 {
            iode: c.unsigned(0, 8) as u8,
            crs: c.signed(8, 16),
            delta_n: c.signed(24, 16),
            m0: c.signed(40, 32),
            cuc: c.signed(72, 16),
            e: c.unsigned(88, 32),
            cus: c.signed(120, 16),
            sqrt_a: c.unsigned(136, 32),
            toe: 16 * c.unsigned(168, 16),
        },
    )
}

/// Reads subframe 3, the second part of the orbit. `None` for any other
/// subframe.
pub fn parse_subframe3(subframe: &DecodedSubframe) -> (orbit: Option<OrbitPart2>)
    ensures
        orbit == (if subframe.subframe_id == 3 {
            Some(orbit2_of(data_bits(subframe@.words)))
        } else {
            None
        }),
{
    if subframe.subframe_id != 3 {
        return None;
    }
    let bits = concat_data_words(subframe);
    let c = BitCursor::new(&bits);
    proof {
        lemma2_to64();
        lemma_unsigned_field(bits@, 168, 8);
    }
    Some(
        OrbitPart2 {
            cic: c.signed(0, 16),
            omega0: c.signed(16, 32),
            cis: c.signed(48, 16),
            i0: c.signed(64, 32),
            crc: c.signed(96, 16),
            omega: c.signed(112, 32),
            omega_dot: c.signed(144, 24),
            iode: c.unsigned(168, 8) as u8,
            idot: c.signed(176, 14),
        },
    )
}

/// No field is cut short: the integers read from a subframe are the numbers
/// that its bits are written as, each within the range of its width.
pub proof fn law_fields_are_exact(bits: Seq<bool>)
    requires
        bits.len() == 192,
    ensures
        ({
            let c = clock_of(bits);
            &&& c.week_number == unsigned_field(bits, 0, 10) && c.week_number < 1024
            &&& c.ura_index == unsigned_field(bits, 12, 4) && c.ura_index < 16
            &&& c.sv_health == unsigned_field(bits, 16, 6) && c.sv_health < 64
            &&& c.iodc == 256 * unsigned_field(bits, 22, 2) + unsigned_field(bits, 32, 8)
            &&& c.iodc < 1024
            &&& c.toc == 16 * unsigned_field(bits, 40, 16) && c.toc < 0x10_0000
            &&& c.af2 == signed_field(bits, 56, 8) && -0x80 <= c.af2 < 0x80
            &&& c.af1 == signed_field(bits, 64, 16) && -0x8000 <= c.af1 < 0x8000
            &&& c.af0 == signed_field(bits, 80, 22) && -0x20_0000 <= c.af0 < 0x20_0000
        }),
        ({
            let o = orbit1_of(bits);
            &&& o.iode == unsigned_field(bits, 0, 8)
            &&& o.crs == signed_field(bits, 8, 16) && -0x8000 <= o.crs < 0x8000
            &&& o.delta_n == signed_field(bits, 24, 16) && -0x8000 <= o.delta_n < 0x8000
            &&& o.m0 == signed_field(bits, 40, 32)
            &&& o.cuc == signed_field(bits, 72, 16) && -0x8000 <= o.cuc < 0x8000
            &&& o.e == unsigned_field(bits, 88, 32)
            &&& o.cus == signed_field(bits, 120, 16) && -0x8000 <= o.cus < 0x8000
            &&& o.sqrt_a == unsigned_field(bits, 136, 32)
            &&& o.toe == 16 * unsigned_field(bits, 168, 16) && o.toe < 0x10_0000
        }),
        ({
            let o = orbit2_of(bits);
            &&& o.cic == signed_field(bits, 0, 16) && -0x8000 <= o.cic < 0x8000
            &&& o.omega0 == signed_field(bits, 16, 32)
            &&& o.cis == signed_field(bits, 48, 16) && -0x8000 <= o.cis < 0x8000
            &&& o.i0 == signed_field(bits, 64, 32)
            &&& o.crc == signed_field(bits, 96, 16) && -0x8000 <= o.crc < 0x8000
            &&& o.omega == signed_field(bits, 112, 32)
            &&& o.omega_dot == signed_field(bits, 144, 24) && -0x80_0000 <= o.omega_dot < 0x80_0000
            &&& o.iode == unsigned_field(bits, 168, 8)
            &&& o.idot == signed_field(bits, 176, 14) && -0x2000 <= o.idot < 0x2000
        }),
{
    lemma2_to64();
    assert forall|offset: int, len: int| 0 <= offset && 0 < len && offset + len <= 192 implies {
        &&& #[trigger] unsigned_field(bits, offset, len) < pow2(len as nat)
    } by {
        lemma_unsigned_field(bits, offset, len);
    }
    assert forall|offset: int, len: int| 0 <= offset && 0 < len && offset + len <= 192 implies {
        &&& -(pow2((len - 1) as nat) as int) <= #[trigger] signed_field(bits, offset, len) < pow2(
            (len - 1) as nat,
        )
    } by {
        lemma_signed_value_bound(bits.subrange(offset, offset + len));
    }
}

/// What is wrong with a set of ephemerides, the first of: an unhealthy
/// satellite, two issues of orbit data, a clock of another issue.
pub open spec fn validation_of(eph: Ephemeris) -> Result<(), EphemerisValidationError> {
    if eph.clock.sv_health != 0 {
        Err(EphemerisValidationError::UnhealthySatellite { health: eph.clock.sv_health })
    } else if eph.orbit1.iode != eph.orbit2.iode {
        Err(
            EphemerisValidationError::IodeMismatch {
                iode_sf2: eph.orbit1.iode,
                iode_sf3: eph.orbit2.iode,
            },
        )
    } else if eph.clock.iodc % 256 != eph.orbit1.iode {
        Err(
            EphemerisValidationError::IodcIodeMismatch {
                iodc_low8: (eph.clock.iodc % 256) as u8,
                iode: eph.orbit1.iode,
            },
        )
    } else {
        Ok(())
    }
}

/// Ephemerides are valid exactly when the satellite is healthy and the clock and both
/// parts of the orbit are of one issue; the reason that is given for the others is
/// true of them.
pub proof fn law_valid_means_healthy_and_of_one_issue(eph: Ephemeris)
    ensures
        validation_of(eph) is Ok <==> eph.clock.sv_health == 0 && eph.orbit1.iode
            == eph.orbit2.iode && eph.clock.iodc % 256 == eph.orbit1.iode,
        validation_of(eph) matches Err(EphemerisValidationError::UnhealthySatellite { health })
            ==> health == eph.clock.sv_health && health != 0,
        validation_of(eph) matches Err(
            EphemerisValidationError::IodeMismatch { iode_sf2, iode_sf3 },
        ) ==> eph.clock.sv_health == 0 && iode_sf2 == eph.orbit1.iode && iode_sf3
            == eph.orbit2.iode && iode_sf2 != iode_sf3,
        validation_of(eph) matches Err(
            EphemerisValidationError::IodcIodeMismatch { iodc_low8, iode },
        ) ==> eph.clock.sv_health == 0 && eph.orbit1.iode == eph.orbit2.iode && iodc_low8
            == eph.clock.iodc % 256 && iode == eph.orbit1.iode && iodc_low8 != iode,
{
}

impl Ephemeris {
    /// A set of ephemerides made of its three parts, not yet validated.
    pub fn new(prn: u8, clock: ClockParams, orbit1: OrbitPart1, orbit2: OrbitPart2) -> (eph: Self)
        ensures
            eph == (Ephemeris { prn, clock, orbit1, orbit2 }),
    {
        Ephemeris { prn, clock, orbit1, orbit2 }
    }

    /// Checks the health of the satellite and that the three parts belong to
    /// the same issue of data.
    pub fn validate(&self) -> (verdict: Result<(), EphemerisValidationError>)
        ensures
            verdict == validation_of(*self),
            verdict is Ok <==> self.clock.sv_health == 0 && self.orbit1.iode == self.orbit2.iode
                && self.clock.iodc % 256 == self.orbit1.iode,
            verdict is Err && verdict->Err_0 is UnhealthySatellite <==> self.clock.sv_health != 0,
            verdict is Err && verdict->Err_0 is IodeMismatch <==> self.clock.sv_health == 0
                && self.orbit1.iode != self.orbit2.iode,
            verdict matches Err(EphemerisValidationError::UnhealthySatellite { health }) ==> health
                == self.clock.sv_health,
            verdict matches Err(EphemerisValidationError::IodeMismatch { iode_sf2, iode_sf3 })
                ==> iode_sf2 == self.orbit1.iode && iode_sf3 == self.orbit2.iode,
            verdict matches Err(EphemerisValidationError::IodcIodeMismatch { iodc_low8, iode })
                ==> iodc_low8 == self.clock.iodc % 256 && iode == self.orbit1.iode,
    {
        if self.clock.sv_health != 0 {
            return Err(
                EphemerisValidationError::UnhealthySatellite { health: self.clock.sv_health },
            );
        }
        if self.orbit1.iode != self.orbit2.iode {
            return Err(
                EphemerisValidationError::IodeMismatch {
                    iode_sf2: self.orbit1.iode,
                    iode_sf3: self.orbit2.iode,
                },
            );
        }
        let iodc_low8: u8 = (self.clock.iodc % 256) as u8;
        if iodc_low8 != self.orbit1.iode {
            return Err(
                EphemerisValidationError::IodcIodeMismatch {
                    iodc_low8,
                    iode: self.orbit1.iode,
                },
            );
        }
        Ok(())
    }

    /// Correction of the satellite's clock at `t_ns` nanoseconds of the week, in
    /// attoseconds: offset, rate and drift from the reference time on.
    pub fn clock_correction(&self, t_ns: i64) -> (correction_as: i64)
        requires
            clock_in_range(self.clock),
            -2 * WEEK_NS <= t_ns <= 2 * WEEK_NS,
        ensures
            correction_as == clock_correction_as(self.clock, t_ns as int),
            ({
                let dt = corrected_diff(t_ns as int, self.clock.toc * 1_000_000_000);
                is_clock_offset(correction_as as int, self.clock, dt)
            }),
    {
        proof {
            let dt = corrected_diff(t_ns as int, self.clock.toc * 1_000_000_000);
            law_clock_follows_its_polynomial(self.clock, t_ns as int, dt);
        }
        let toc_ns: i64 = self.clock.toc as i64 * 1_000_000_000;
        let dt: i128 = Self::corrected_time_diff(t_ns, toc_ns);
        let offset: i128 = self.clock.af0 as i128 * 16_777_216_000_000_000_000_000_000;
        proof {
            lemma_polynomial_bound(self.clock, dt as int);
        }
        let rate: i128 = self.clock.af1 as i128 * 4_096_000_000_000 + self.clock.af2 as i128 * dt;
        let sum: i128 = offset + rate * dt;
        proof {
            lemma_rounding_error(sum as int, 36_028_797_018_963_968);
        }
        round_quotient(sum, 36_028_797_018_963_968) as i64
    }

    /// Time from `t0_ns` to `t_ns`, both nanoseconds of a week, corrected for
    /// the passage from one week to the next.
    pub fn corrected_time_diff(t_ns: i64, t0_ns: i64) -> (dt: i128)
        ensures
            dt == corrected_diff(t_ns as int, t0_ns as int),
            -302_400_000_000_000 <= t_ns - t0_ns <= 302_400_000_000_000 ==> dt == t_ns - t0_ns,
            t_ns - t0_ns > 302_400_000_000_000 ==> dt == t_ns - t0_ns - 604_800_000_000_000,
            t_ns - t0_ns < -302_400_000_000_000 ==> dt == t_ns - t0_ns + 604_800_000_000_000,
    {
        let dt: i128 = t_ns as i128 - t0_ns as i128;
        if dt > HALF_WEEK_NS as i128 {
            dt - WEEK_NS as i128
        } else if dt < -(HALF_WEEK_NS as i128) {
            dt + WEEK_NS as i128
        } else {
            dt
        }
    }
}

/// Whether clock data lie within the widths of their fields.
pub open spec fn clock_in_range(clock: ClockParams) -> bool {
    &&& clock.toc < 0x10_0000
    &&& -0x80 <= clock.af2 < 0x80
    &&& -0x8000 <= clock.af1 < 0x8000
    &&& -0x20_0000 <= clock.af0 < 0x20_0000
}

/// The clock polynomial at `dt_ns` nanoseconds from the reference time, in units
/// of 2^-55 attoseconds: the offset has steps of 2^-31 s, the rate of 2^-43, the
/// drift of 2^-55 per second.
pub open spec fn clock_polynomial(clock: ClockParams, dt_ns: int) -> int {
    clock.af0 * 16_777_216_000_000_000_000_000_000 + (clock.af1 * 4_096_000_000_000 + clock.af2
        * dt_ns) * dt_ns
}

/// The correction of the satellite's clock at a time of the week, in attoseconds,
/// rounded to the nearest.
pub open spec fn clock_correction_as(clock: ClockParams, t_ns: int) -> int {
    rounded_quotient(
        clock_polynomial(clock, corrected_diff(t_ns, clock.toc * 1_000_000_000)),
        36_028_797_018_963_968,
    )
}

/// The clock polynomial of clock data in range stays small.
proof fn lemma_polynomial_bound(clock: ClockParams, dt: int)
    requires
        clock_in_range(clock),
        -2_260_000_000_000_000 <= dt <= 2_260_000_000_000_000,
    ensures
        -1_200_000_000_000_000_000_000_000_000_000_000 <= clock_polynomial(clock, dt)
            <= 1_200_000_000_000_000_000_000_000_000_000_000,
        -300_000_000_000_000_000 <= clock.af2 * dt <= 300_000_000_000_000_000,
        -1_100_000_000_000_000_000_000_000_000_000_000 <= (clock.af1 * 4_096_000_000_000 + clock.af2
            * dt) * dt <= 1_100_000_000_000_000_000_000_000_000_000_000,
{
    let af2 = clock.af2 as int;
    assert(-300_000_000_000_000_000 <= af2 * dt <= 300_000_000_000_000_000) by (nonlinear_arith)
        requires
            -0x80 <= af2 < 0x80,
            -2_260_000_000_000_000 <= dt <= 2_260_000_000_000_000,
    ;
    let rate = clock.af1 * 4_096_000_000_000 + af2 * dt;
    assert(-1_100_000_000_000_000_000_000_000_000_000_000 <= rate * dt
        <= 1_100_000_000_000_000_000_000_000_000_000_000) by (nonlinear_arith)
        requires
            -440_000_000_000_000_000 <= rate <= 440_000_000_000_000_000,
            -2_260_000_000_000_000 <= dt <= 2_260_000_000_000_000,
    ;
}

/// Whether a correction in attoseconds is, to within half of one, the offset plus the
/// rate times `dt_ns` plus the drift times its square: the offset in steps of 2^-31
/// seconds, the rate in steps of 2^-43, the drift in steps of 2^-55 per second, all
/// in units of 2^-55 attoseconds.
pub open spec fn is_clock_offset(correction_as: int, clock: ClockParams, dt_ns: int) -> bool {
    let offset = clock.af0 * 16_777_216_000_000_000_000_000_000;
    let rate = clock.af1 * dt_ns * 4_096_000_000_000;
    let drift = clock.af2 * (dt_ns * dt_ns);
    -36_028_797_018_963_968 <= 2 * (36_028_797_018_963_968 * correction_as - (offset + rate + drift))
        <= 36_028_797_018_963_968
}

/// Before and after its reference time the clock follows its polynomial, with the
/// signed time from the reference time: the plain difference, or where that is more
/// than half a week, the one to the same time of the week before or after.
pub proof fn law_clock_follows_its_polynomial(clock: ClockParams, t_ns: int, dt_ns: int)
    requires
        ({
            let plain = t_ns - clock.toc * 1_000_000_000;
            ||| dt_ns == plain && -302_400_000_000_000 <= plain <= 302_400_000_000_000
            ||| dt_ns == plain - 604_800_000_000_000 && plain > 302_400_000_000_000
            ||| dt_ns == plain + 604_800_000_000_000 && plain < -302_400_000_000_000
        }),
    ensures
        is_clock_offset(clock_correction_as(clock, t_ns), clock, dt_ns),
{
    lemma_rounding_error(clock_polynomial(clock, dt_ns), 36_028_797_018_963_968);
    let a = clock.af1 as int;
    let b = clock.af2 as int;
    assert((a * 4_096_000_000_000 + b * dt_ns) * dt_ns == a * dt_ns * 4_096_000_000_000 + b * (dt_ns
        * dt_ns)) by (nonlinear_arith);
}

/// A clock without rate and drift has the same correction at all times, to within
/// half an attosecond its offset.
pub proof fn law_steady_clock_has_one_correction(clock: ClockParams, t_ns: int, other_ns: int)
    requires
        clock.af1 == 0,
        clock.af2 == 0,
    ensures
        clock_correction_as(clock, t_ns) == clock_correction_as(clock, other_ns),
        -36_028_797_018_963_968 <= 2 * (36_028_797_018_963_968 * clock_correction_as(clock, t_ns)
            - clock.af0 * 16_777_216_000_000_000_000_000_000) <= 36_028_797_018_963_968,
{
    let d = corrected_diff(t_ns, clock.toc * 1_000_000_000);
    let e = corrected_diff(other_ns, clock.toc * 1_000_000_000);
    assert(clock.af2 * d == 0 && clock.af2 * e == 0) by (nonlinear_arith)
        requires
            clock.af2 == 0,
    ;
    assert((clock.af1 * 4_096_000_000_000 + clock.af2 * d) * d == 0) by (nonlinear_arith)
        requires
            clock.af1 == 0,
            clock.af2 * d == 0,
    ;
    assert((clock.af1 * 4_096_000_000_000 + clock.af2 * e) * e == 0) by (nonlinear_arith)
        requires
            clock.af1 == 0,
            clock.af2 * e == 0,
    ;
    lemma_rounding_error(clock_polynomial(clock, d), 36_028_797_018_963_968);
}

/// At its reference time the clock is corrected by its offset alone.
pub proof fn law_clock_offset_at_reference(clock: ClockParams)
    ensures
        clock_correction_as(clock, clock.toc * 1_000_000_000) == rounded_quotient(
            clock.af0 * 16_777_216_000_000_000_000_000_000,
            36_028_797_018_963_968,
        ),
{
    let rate = clock.af1 * 4_096_000_000_000 + clock.af2 * 0;
    assert(rate * 0 == 0) by (nonlinear_arith);
}

/// Nanoseconds in a week.
pub const WEEK_NS: i64 = 604_800_000_000_000;

/// Nanoseconds in half a week.
pub const HALF_WEEK_NS: i64 = 302_400_000_000_000;

/// Difference of two times of the week, brought back by one week when it is
/// larger than half a week.
pub open spec fn corrected_diff(t: int, t0: int) -> int {
    if t - t0 > HALF_WEEK_NS {
        t - t0 - WEEK_NS
    } else if t - t0 < -HALF_WEEK_NS {
        t - t0 + WEEK_NS
    } else {
        t - t0
    }
}

/// Between two times of the week, the corrected difference is the shortest way
/// from one to the other: at most half a week, and a whole number of weeks away
/// from the plain difference.
pub proof fn law_corrected_diff_is_shortest(t: int, t0: int)
    requires
        0 <= t < WEEK_NS,
        0 <= t0 < WEEK_NS,
    ensures
        -HALF_WEEK_NS <= corrected_diff(t, t0) <= HALF_WEEK_NS,
        (corrected_diff(t, t0) - (t - t0)) % (WEEK_NS as int) == 0,
        corrected_diff(t0, t) == -corrected_diff(t, t0),
        -302_400_000_000_000 <= t - t0 <= 302_400_000_000_000 ==> corrected_diff(t, t0) == t - t0,
{
}

/// A field is read in place: its binary digits are the bits from its offset on, most
/// significant first, and a signed one is negative exactly when its first bit is one.
pub proof fn law_field_is_read_in_place(bits: Seq<bool>, offset: int, len: int, i: int)
    requires
        0 <= offset,
        0 <= i < len,
        offset + len <= bits.len(),
    ensures
        bits[offset + i] <==> (unsigned_field(bits, offset, len) / pow2((len - 1 - i) as nat)) % 2
            == 1,
        unsigned_field(bits, offset, len) < pow2(len as nat),
        signed_field(bits, offset, len) == unsigned_field(bits, offset, len) - (if bits[offset] {
            pow2(len as nat)
        } else {
            0
        }),
{
    let field = bits.subrange(offset, offset + len);
    crate::navigation::bits::law_bits_are_binary_digits(field, i);
    assert(field[i] == bits[offset + i]);
    assert(field[0] == bits[offset]);
}

/// The data bits are the information bits of the third to the tenth word, one word
/// after the other.
pub proof fn law_data_bits_are_those_of_the_words(words: Seq<Seq<bool>>, w: int, j: int)
    requires
        2 <= w < 10,
        0 <= j < 24,
    ensures
        data_bits(words).len() == 192,
        data_bits(words)[24 * (w - 2) + j] == words[w][j],
{
    assert((24 * (w - 2) + j) / 24 == w - 2);
    assert((24 * (w - 2) + j) % 24 == j);
}

} // verus!
