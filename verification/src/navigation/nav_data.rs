//! Navigation data of the receiver: ephemerides by satellite, the ionospheric
//! model, almanac entries and the UTC correction.

use std::collections::HashMap;

use crate::navigation::ephemeris::{
    clock_of, concat_data_words, corrected_diff, data_bits, orbit1_of, orbit2_of, parse_subframe1,
    parse_subframe2, parse_subframe3, signed_field, validation_of, BitCursor, ClockParams,
    Ephemeris, EphemerisValidationError, OrbitPart1, OrbitPart2,
};
use crate::navigation::frame_decoder::{DecodedSubframe, SubframeModel};
use vstd::prelude::*;

verus! {

broadcast use vstd::std_specs::hash::group_hash_axioms;

/// Why the ephemerides of a satellite cannot be used.
#[derive(Debug, Clone, Copy, PartialEq, Eq, Structural)]
pub enum EphemerisLookupError {
    /// Not all of the subframes 1, 2 and 3 have been received.
    NotYetAvailable,
    /// The ephemerides are complete but failed the validation.
    Invalid(EphemerisValidationError),
}

/// Coefficients of the Klobuchar model, from page 18 of subframe 4.
#[derive(Debug, Clone, Copy, PartialEq, Eq)]
pub struct IonosphericModel {
    /// Amplitude coefficients, in steps of 2^-30, 2^-27, 2^-24 and 2^-24 s.
    pub alpha: [i32; 4],
    /// Period coefficients, in steps of 2^12, 2^14, 2^16 and 2^16 s.
    pub beta: [i32; 4],
}

/// Difference between GPS time and UTC, as transmitted.
#[derive(Debug, Clone, Copy, PartialEq, Eq, Structural)]
pub struct UtcCorrection {
    /// Leap seconds now in force.
    pub delta_t_ls: i8,
    /// Leap seconds after the announced event.
    pub delta_t_lsf: i8,
    /// Week of the announced event.
    pub wn_lsf: u8,
    /// Day of the announced event within its week.
    pub dn: u8,
}

/// Almanac entry of one satellite.
#[derive(Debug, Clone, Copy, PartialEq, Eq, Structural)]
pub struct AlmanacEntry {
    /// Health of the satellite.
    pub health: u8,
    /// Issue of the almanac data.
    pub ioda: u8,
}

impl Default for AlmanacEntry {
    fn default() -> (entry: Self)
        ensures
            entry.health == 0,
            entry.ioda == 0,
    {
        AlmanacEntry { health: 0, ioda: 0 }
    }
}

/// The parts of an ephemeris received so far.
#[derive(Debug, Clone, Copy, PartialEq, Eq)]
pub struct PendingEphemeris {
    /// Clock, from subframe 1.
    pub clock: Option<ClockParams>,
    /// First part of the orbit, from subframe 2.
    pub orbit1: Option<OrbitPart1>,
    /// Second part of the orbit, from subframe 3.
    pub orbit2: Option<OrbitPart2>,
}

/// No part received.
pub open spec fn pending_none() -> PendingEphemeris {
    PendingEphemeris { clock: None, orbit1: None, orbit2: None }
}

/// Whether all three parts have been received.
pub open spec fn pending_complete(p: PendingEphemeris) -> bool {
    p.clock is Some && p.orbit1 is Some && p.orbit2 is Some
}

/// The ephemerides made of three received parts.
pub open spec fn assembled(prn: u8, p: PendingEphemeris) -> Ephemeris {
    Ephemeris { prn, clock: p.clock->0, orbit1: p.orbit1->0, orbit2: p.orbit2->0 }
}

/// Whether a subframe carries a part of the ephemerides.
pub open spec fn carries_ephemeris(subframe: SubframeModel) -> bool {
    1 <= subframe.subframe_id <= 3
}

/// The received parts after one more subframe.
pub open spec fn pending_with(p: PendingEphemeris, subframe: SubframeModel) -> PendingEphemeris {
    let bits = data_bits(subframe.words);
    if subframe.subframe_id == 1 {
        PendingEphemeris { clock: Some(clock_of(bits)), ..p }
    } else if subframe.subframe_id == 2 {
        PendingEphemeris { orbit1: Some(orbit1_of(bits)), ..p }
    } else if subframe.subframe_id == 3 {
        PendingEphemeris { orbit2: Some(orbit2_of(bits)), ..p }
    } else {
        p
    }
}

impl Default for PendingEphemeris {
    fn default() -> (p: Self)
        ensures
            p == pending_none(),
    {
        PendingEphemeris { clock: None, orbit1: None, orbit2: None }
    }
}

impl PendingEphemeris {
    /// The complete ephemerides, when all three parts have been received.
    pub fn try_assemble(&self, prn: u8) -> (eph: Option<Ephemeris>)
        ensures
            eph == (if pending_complete(*self) {
                Some(assembled(prn, *self))
            } else {
                None
            }),
    {
        match (self.clock, self.orbit1, self.orbit2) {
            (Some(clock), Some(orbit1), Some(orbit2)) => Some(
                Ephemeris::new(prn, clock, orbit1, orbit2),
            ),
            _ => None,
        }
    }
}

impl IonosphericModel {
    /// Reads the model from page 18 of subframe 4; the caller has made sure of
    /// the page. `None` for any other subframe.
    pub fn parse_page18(subframe: &DecodedSubframe) -> (model: Option<Self>)
        ensures
            model is Some <==> subframe.subframe_id == 4,
            model matches Some(m) ==> forall|k: int|
                0 <= k < 4 ==> {
                    &&& #[trigger] m.alpha@[k] == signed_field(
                        data_bits(subframe@.words),
                        8 * k,
                        8,
                    )
                    &&& m.beta@[k] == signed_field(data_bits(subframe@.words), 32 + 8 * k, 8)
                },
    {
        if subframe.subframe_id != 4 {
            return None;
        }
        let bits = concat_data_words(subframe);
        let c = BitCursor::new(&bits);
        Some(
            IonosphericModel {
                alpha: [c.signed(0, 8), c.signed(8, 8), c.signed(16, 8), c.signed(24, 8)],
                beta: [c.signed(32, 8), c.signed(40, 8), c.signed(48, 8), c.signed(56, 8)],
            },
        )
    }
}

/// What is stored, as mathematical maps.
#[verifier::ext_equal]
pub struct NavModel {
    /// Complete ephemerides by satellite.
    pub ephemeris: Map<u8, Ephemeris>,
    /// Parts received by satellite.
    pub pending: Map<u8, PendingEphemeris>,
    /// Ionospheric model.
    pub iono: Option<IonosphericModel>,
    /// Almanac entries by satellite.
    pub almanac: Map<u8, AlmanacEntry>,
    /// UTC correction.
    pub utc_correction: Option<UtcCorrection>,
}

/// Nothing stored.
pub open spec fn nav_empty() -> NavModel {
    NavModel {
        ephemeris: Map::empty(),
        pending: Map::empty(),
        iono: None,
        almanac: Map::empty(),
        utc_correction: None,
    }
}

/// The parts received for a satellite.
pub open spec fn parts_of(m: NavModel, prn: u8) -> PendingEphemeris {
    if m.pending.contains_key(prn) {
        m.pending[prn]
    } else {
        pending_none()
    }
}

/// What is stored after a subframe of satellite `prn`.
pub open spec fn nav_ingest(m: NavModel, prn: u8, subframe: SubframeModel) -> NavModel {
    let parts = pending_with(parts_of(m, prn), subframe);
    NavModel {
        pending: m.pending.insert(prn, parts),
        ephemeris: if carries_ephemeris(subframe) && pending_complete(parts) {
            m.ephemeris.insert(prn, assembled(prn, parts))
        } else {
            m.ephemeris
        },
        ..m
    }
}

/// What is stored after satellite `prn` was dropped.
pub open spec fn nav_clear(m: NavModel, prn: u8) -> NavModel {
    NavModel {
        ephemeris: m.ephemeris.remove(prn),
        pending: m.pending.remove(prn),
        almanac: m.almanac.remove(prn),
        ..m
    }
}

/// Store of the navigation data of a receiver.
#[derive(Debug)]
pub struct NavData {
    /// Complete ephemerides by satellite.
    pub ephemeris: HashMap<u8, Ephemeris>,
    /// Parts received by satellite.
    pub pending: HashMap<u8, PendingEphemeris>,
    /// Ionospheric model, common to all satellites.
    pub iono: Option<IonosphericModel>,
    /// Almanac entries by satellite.
    pub almanac: HashMap<u8, AlmanacEntry>,
    /// UTC correction, once received.
    pub utc_correction: Option<UtcCorrection>,
}

impl Default for NavData {
    fn default() -> (nav: Self)
        ensures
            nav@ == nav_empty(),
    {
        NavData {
            ephemeris: HashMap::new(),
            pending: HashMap::new(),
            iono: None,
            almanac: HashMap::new(),
            utc_correction: None,
        }
    }
}

impl NavData {
    /// What is stored.
    pub open spec fn view(&self) -> NavModel {
        NavModel {
            ephemeris: self.ephemeris@,
            pending: self.pending@,
            iono: self.iono,
            almanac: self.almanac@,
            utc_correction: self.utc_correction,
        }
    }

    /// An empty store.
    pub fn new() -> (nav: Self)
        ensures
            nav@ == nav_empty(),
    {
        Self::default()
    }

    /// Takes a subframe of satellite `prn`. Subframes 1, 2 and 3 may come in any
    /// order. Returns whether the subframe made a set of ephemerides available
    /// or replaced it.
    pub fn ingest_subframe(&mut self, prn: u8, subframe: &DecodedSubframe) -> (available: bool)
        ensures
            final(self)@ == nav_ingest(old(self)@, prn, subframe@),
            available <==> carries_ephemeris(subframe@) && pending_complete(
                parts_of(final(self)@, prn),
            ),
            available ==> final(self)@.ephemeris.contains_key(prn),
            !available ==> final(self)@.ephemeris == old(self)@.ephemeris,
    {
        let mut entry = match self.pending.get(&prn) {
            Some(p) => *p,
            None => PendingEphemeris::default(),
        };
        let updated = match subframe.subframe_id {
            1 => {
                entry.clock = parse_subframe1(subframe);
                true
            },
            2 => {
                entry.orbit1 = parse_subframe2(subframe);
                true
            },
            3 => {
                entry.orbit2 = parse_subframe3(subframe);
                true
            },
            _ => false,
        };
        self.pending.insert(prn, entry);
        if !updated {
            return false;
        }
        match entry.try_assemble(prn) {
            Some(eph) => {
                self.ephemeris.insert(prn, eph);
                true
            },
            None => false,
        }
    }

    /// Stores the ionospheric model.
    pub fn set_ionospheric_model(&mut self, model: IonosphericModel)
        ensures
            final(self)@ == (NavModel { iono: Some(model), ..old(self)@ }),
    {
        self.iono = Some(model);
    }

    /// Stores the UTC correction.
    pub fn set_utc_correction(&mut self, correction: UtcCorrection)
        ensures
            final(self)@ == (NavModel { utc_correction: Some(correction), ..old(self)@ }),
    {
        self.utc_correction = Some(correction);
    }

    /// The ephemerides of a satellite, not validated.
    pub fn ephemeris(&self, prn: u8) -> (eph: Option<&Ephemeris>)
        ensures
            eph is Some <==> self@.ephemeris.contains_key(prn),
            eph matches Some(e) ==> *e == self@.ephemeris[prn],
    {
        self.ephemeris.get(&prn)
    }

    /// The parts of the ephemerides received for a satellite.
    pub fn pending(&self, prn: u8) -> (parts: Option<PendingEphemeris>)
        ensures
            parts is Some <==> self@.pending.contains_key(prn),
            parts matches Some(p) ==> p == self@.pending[prn],
    {
        match self.pending.get(&prn) {
            Some(p) => Some(*p),
            None => None,
        }
    }

    /// The ephemerides of a satellite, when they are complete, healthy and of
    /// one issue.
    pub fn ephemeris_validated(&self, prn: u8) -> (eph: Result<&Ephemeris, EphemerisLookupError>)
        ensures
            !self@.ephemeris.contains_key(prn) <==> eph == Err::<&Ephemeris, EphemerisLookupError>(
                EphemerisLookupError::NotYetAvailable,
            ),
            self@.ephemeris.contains_key(prn) ==> match validation_of(self@.ephemeris[prn]) {
                Ok(()) => eph == Ok::<&Ephemeris, EphemerisLookupError>(&self@.ephemeris[prn]),
                Err(e) => eph == Err::<&Ephemeris, EphemerisLookupError>(
                    EphemerisLookupError::Invalid(e),
                ),
            },
    {
        match self.ephemeris.get(&prn) {
            None => Err(EphemerisLookupError::NotYetAvailable),
            Some(eph) => match eph.validate() {
                Ok(()) => Ok(eph),
                Err(e) => Err(EphemerisLookupError::Invalid(e)),
            },
        }
    }

    /// Whether the ephemerides of a satellite are at most `max_age_ns` away from
    /// the time of the week `current_tow_ns`, across the end of the week too.
    pub fn is_ephemeris_fresh(&self, prn: u8, current_tow_ns: i64, max_age_ns: i64) -> (fresh: bool)
        ensures
            fresh <==> self@.ephemeris.contains_key(prn) && -max_age_ns <= corrected_diff(
                current_tow_ns as int,
                self@.ephemeris[prn].orbit1.toe * 1_000_000_000,
            ) <= max_age_ns,
            fresh <==> is_fresh(self@, prn, current_tow_ns as int, max_age_ns as int),
    {
        match self.ephemeris.get(&prn) {
            None => false,
            Some(eph) => {
                let toe_ns: i64 = eph.orbit1.toe as i64 * 1_000_000_000;
                let dt: i128 = Ephemeris::corrected_time_diff(current_tow_ns, toe_ns);
                -(max_age_ns as i128) <= dt && dt <= max_age_ns as i128
            },
        }
    }

    /// Drops everything known of a satellite.
    pub fn clear_prn(&mut self, prn: u8)
        ensures
            final(self)@ == nav_clear(old(self)@, prn),
    {
        self.ephemeris.remove(&prn);
        self.pending.remove(&prn);
        self.almanac.remove(&prn);
    }

    /// Number of satellites with complete ephemerides.
    pub fn ephemeris_count(&self) -> (n: usize)
        ensures
            n == self@.ephemeris.dom().len(),
    {
        self.ephemeris.len()
    }
}

/// Whether the ephemerides of a satellite are at most `max_age_ns` away from a time of
/// the week.
pub open spec fn is_fresh(m: NavModel, prn: u8, tow_ns: int, max_age_ns: int) -> bool {
    m.ephemeris.contains_key(prn) && -max_age_ns <= corrected_diff(
        tow_ns,
        m.ephemeris[prn].orbit1.toe * 1_000_000_000,
    ) <= max_age_ns
}

/// Ephemerides are fresh before their reference time as well as after it, and across
/// the end of the week: exactly when the time of the week, or the same time a week
/// before or after, whichever is nearest, lies at most the age from the reference time.
pub proof fn law_fresh_means_near_the_reference_time(
    m: NavModel,
    prn: u8,
    tow_ns: int,
    max_age_ns: int,
)
    requires
        m.ephemeris.contains_key(prn),
        0 <= tow_ns < 604_800_000_000_000,
        m.ephemeris[prn].orbit1.toe < 604_800,
    ensures
        ({
            let apart = tow_ns - m.ephemeris[prn].orbit1.toe * 1_000_000_000;
            let within = |d: int| -max_age_ns <= d <= max_age_ns;
            &&& 0 <= max_age_ns < 302_400_000_000_000 ==> (is_fresh(m, prn, tow_ns, max_age_ns)
                <==> within(apart) || within(apart - 604_800_000_000_000) || within(
                apart + 604_800_000_000_000,
            ))
            &&& 302_400_000_000_000 <= max_age_ns ==> is_fresh(m, prn, tow_ns, max_age_ns)
            &&& max_age_ns < 0 ==> !is_fresh(m, prn, tow_ns, max_age_ns)
        }),
        !is_fresh(nav_clear(m, prn), prn, tow_ns, max_age_ns),
{
}

/// Whether the complete ephemerides are exactly those whose three parts have
/// been received, made of these parts.
pub open spec fn nav_consistent(m: NavModel) -> bool {
    forall|prn: u8|
        {
            &&& #[trigger] m.ephemeris.contains_key(prn) <==> pending_complete(parts_of(m, prn))
            &&& m.ephemeris.contains_key(prn) ==> m.ephemeris[prn] == assembled(
                prn,
                parts_of(m, prn),
            )
        }
}

/// A set of ephemerides is available exactly when subframes 1, 2 and 3 have been
/// received, and is made of the latest of each: this holds of an empty store
/// and is kept by every subframe and by dropping a satellite.
pub proof fn law_available_means_three_parts(m: NavModel, prn: u8, subframe: SubframeModel)
    requires
        nav_consistent(m),
    ensures
        nav_consistent(nav_empty()),
        nav_consistent(nav_ingest(m, prn, subframe)),
        nav_consistent(nav_clear(m, prn)),
{
    let after = nav_ingest(m, prn, subframe);
    assert forall|q: u8|
        {
            &&& #[trigger] after.ephemeris.contains_key(q) <==> pending_complete(
                parts_of(after, q),
            )
            &&& after.ephemeris.contains_key(q) ==> after.ephemeris[q] == assembled(
                q,
                parts_of(after, q),
            )
        } by {
        assert(m.ephemeris.contains_key(q) <==> pending_complete(parts_of(m, q)));
        if q != prn {
            assert(parts_of(after, q) == parts_of(m, q));
        }
    }
    let cleared = nav_clear(m, prn);
    assert forall|q: u8|
        {
            &&& #[trigger] cleared.ephemeris.contains_key(q) <==> pending_complete(
                parts_of(cleared, q),
            )
            &&& cleared.ephemeris.contains_key(q) ==> cleared.ephemeris[q] == assembled(
                q,
                parts_of(cleared, q),
            )
        } by {
        assert(m.ephemeris.contains_key(q) <==> pending_complete(parts_of(m, q)));
        if q != prn {
            assert(parts_of(cleared, q) == parts_of(m, q));
        }
    }
}

/// Subframes of different numbers may come in either order.
pub proof fn law_order_does_not_matter(
    m: NavModel,
    prn: u8,
    a: SubframeModel,
    b: SubframeModel,
)
    requires
        a.subframe_id != b.subframe_id,
    ensures
        nav_ingest(nav_ingest(m, prn, a), prn, b) == nav_ingest(nav_ingest(m, prn, b), prn, a),
{
    let ab = nav_ingest(nav_ingest(m, prn, a), prn, b);
    let ba = nav_ingest(nav_ingest(m, prn, b), prn, a);
    assert(ab.pending =~= ba.pending);
    assert(ab.ephemeris =~= ba.ephemeris);
}

/// Satellites do not interfere: a subframe of one, or dropping one, changes
/// nothing that is stored of another, and subframes of two satellites may come
/// in either order.
pub proof fn law_satellites_are_independent(
    m: NavModel,
    p: u8,
    q: u8,
    a: SubframeModel,
    b: SubframeModel,
)
    requires
        p != q,
    ensures
        parts_of(nav_ingest(m, p, a), q) == parts_of(m, q),
        nav_ingest(m, p, a).ephemeris.contains_key(q) <==> m.ephemeris.contains_key(q),
        m.ephemeris.contains_key(q) ==> nav_ingest(m, p, a).ephemeris[q] == m.ephemeris[q],
        parts_of(nav_clear(m, p), q) == parts_of(m, q),
        nav_clear(m, p).ephemeris.contains_key(q) <==> m.ephemeris.contains_key(q),
        m.ephemeris.contains_key(q) ==> nav_clear(m, p).ephemeris[q] == m.ephemeris[q],
        nav_ingest(nav_ingest(m, p, a), q, b) == nav_ingest(nav_ingest(m, q, b), p, a),
{
    let ab = nav_ingest(nav_ingest(m, p, a), q, b);
    let ba = nav_ingest(nav_ingest(m, q, b), p, a);
    assert(ab.pending =~= ba.pending);
    assert(ab.ephemeris =~= ba.ephemeris);
}

/// Three subframes make the ephemerides available, whatever was stored before:
/// afterwards those of the satellite are made of these three subframes.
pub proof fn law_three_subframes_make_an_ephemeris(
    m: NavModel,
    prn: u8,
    s1: SubframeModel,
    s2: SubframeModel,
    s3: SubframeModel,
)
    requires
        s1.subframe_id == 1,
        s2.subframe_id == 2,
        s3.subframe_id == 3,
    ensures
        ({
            let after = nav_ingest(nav_ingest(nav_ingest(m, prn, s1), prn, s2), prn, s3);
            &&& after.ephemeris.contains_key(prn)
            &&& after.ephemeris[prn] == (Ephemeris {
                prn,
                clock: clock_of(data_bits(s1.words)),
                orbit1: orbit1_of(data_bits(s2.words)),
                orbit2: orbit2_of(data_bits(s3.words)),
            })
        }),
{
}

/// After a satellite was dropped, nothing of it is left.
pub proof fn law_clear_leaves_nothing(m: NavModel, prn: u8)
    ensures
        !nav_clear(m, prn).ephemeris.contains_key(prn),
        !nav_clear(m, prn).pending.contains_key(prn),
        !nav_clear(m, prn).almanac.contains_key(prn),
        parts_of(nav_clear(m, prn), prn) == pending_none(),
{
}

/// The latest part of each kind counts, and a subframe changes no other part: only
/// subframe 1 changes the clock, only subframe 2 the first part of the orbit and only
/// subframe 3 the second, whatever is stored, and none of them what is stored of the
/// ionosphere, the almanac and UTC.
pub proof fn law_latest_part_counts(m: NavModel, prn: u8, subframe: SubframeModel)
    ensures
        ({
            let before = parts_of(m, prn);
            let after = parts_of(nav_ingest(m, prn, subframe), prn);
            let bits = data_bits(subframe.words);
            &&& after.clock == if subframe.subframe_id == 1 {
                Some(clock_of(bits))
            } else {
                before.clock
            }
            &&& after.orbit1 == if subframe.subframe_id == 2 {
                Some(orbit1_of(bits))
            } else {
                before.orbit1
            }
            &&& after.orbit2 == if subframe.subframe_id == 3 {
                Some(orbit2_of(bits))
            } else {
                before.orbit2
            }
        }),
        nav_ingest(m, prn, subframe).iono == m.iono,
        nav_ingest(m, prn, subframe).almanac == m.almanac,
        nav_ingest(m, prn, subframe).utc_correction == m.utc_correction,
        nav_clear(m, prn).iono == m.iono,
        nav_clear(m, prn).utc_correction == m.utc_correction,
{
}

/// A subframe makes ephemerides available, or replaces them, exactly when it carries
/// a part of them and the other two parts have been received; they then hold the
/// number of the satellite and its three parts. Otherwise those stored stay as they
/// are.
pub proof fn law_third_part_completes(m: NavModel, prn: u8, subframe: SubframeModel)
    ensures
        ({
            let after = nav_ingest(m, prn, subframe);
            let parts = parts_of(after, prn);
            let complete = parts.clock is Some && parts.orbit1 is Some && parts.orbit2 is Some;
            if 1 <= subframe.subframe_id <= 3 && complete {
                &&& after.ephemeris.contains_key(prn)
                &&& after.ephemeris[prn].prn == prn
                &&& Some(after.ephemeris[prn].clock) == parts.clock
                &&& Some(after.ephemeris[prn].orbit1) == parts.orbit1
                &&& Some(after.ephemeris[prn].orbit2) == parts.orbit2
            } else {
                after.ephemeris == m.ephemeris
            }
        }),
{
}

} // verus!
