//! Sets of measurements and whether they suffice for a position.

use crate::navigation::ephemeris::Ephemeris;
use crate::observables::cn0::{quality_of, SignalQuality, LOST_SIGNAL_CN0_THRESHOLD};
use crate::observables::doppler::{compute_doppler, is_doppler, DopplerInput, DopplerObservable};
use crate::observables::pseudorange::{
    compute_pseudorange, is_pseudorange, subframe_start, tow_count_to_seconds, transmission_time,
    PseudorangeInput, PseudorangeResult,
};
use crate::rounding::{lemma_rounding_error, round_quotient, rounded_quotient};
use vstd::prelude::*;

verus! {

/// What a tracking channel hands over.
#[derive(Debug, Clone, Copy, PartialEq, Eq, Structural)]
pub struct ObservableInput {
    /// Number of the satellite.
    pub prn: u8,
    /// Code phase in units of 10^-9 chips.
    pub code_phase_nanochips: i64,
    /// Chip rate in millihertz; the nominal one is used unless it is positive.
    pub chip_rate_mhz: i64,
    /// Frequency of the received carrier in millihertz.
    pub carrier_freq_mhz: i64,
    /// Carrier to noise density in thousandths of a dB-Hz, when it is known.
    pub cn0_mdb_hz: Option<i32>,
    /// Count of the last handover word.
    pub tow_count: u32,
    /// Time of reception within the week, in picoseconds.
    pub receiver_time_ps: i64,
}

/// All measurements of one satellite at one moment.
#[derive(Debug, Clone, Copy, PartialEq, Eq, Structural)]
pub struct Observable {
    /// Number of the satellite.
    pub prn: u8,
    /// The pseudorange.
    pub pseudorange: PseudorangeResult,
    /// The Doppler shift.
    pub doppler: DopplerObservable,
    /// Carrier to noise density in thousandths of a dB-Hz; zero when it is not
    /// known.
    pub cn0_mdb_hz: i32,
    /// Time of reception within the week, in picoseconds.
    pub timestamp_ps: i64,
}

/// What the pseudorange of a channel is computed from.
pub open spec fn pseudorange_input_of(input: ObservableInput) -> PseudorangeInput {
    PseudorangeInput {
        prn: input.prn,
        code_phase_nanochips: input.code_phase_nanochips,
        chip_rate_mhz: input.chip_rate_mhz,
        receiver_time_ps: input.receiver_time_ps,
        tow_us: (subframe_start(input.tow_count as int) * 1_000_000) as i64,
    }
}

/// Time of transmission of a channel in nanoseconds of the week.
pub open spec fn sent_ns(input: ObservableInput, clock_correction_ps: int) -> int {
    rounded_quotient(transmission_time(pseudorange_input_of(input)) - clock_correction_ps, 1000)
}

impl ObservableInput {
    /// What the pseudorange of the channel is computed from.
    pub fn pseudorange_input(&self) -> (input: PseudorangeInput)
        ensures
            input == pseudorange_input_of(*self),
            input.tow_us == subframe_start(self.tow_count as int) * 1_000_000,
    {
        PseudorangeInput {
            prn: self.prn,
            code_phase_nanochips: self.code_phase_nanochips,
            chip_rate_mhz: self.chip_rate_mhz,
            receiver_time_ps: self.receiver_time_ps,
            tow_us: tow_count_to_seconds(self.tow_count) as i64 * 1_000_000,
        }
    }
}

/// Whether measurements can be used.
pub open spec fn usable(o: Observable) -> bool {
    o.pseudorange.valid && o.cn0_mdb_hz >= 25_000
}

impl Observable {
    /// Computes the measurements of a channel from the correction of the
    /// satellite's clock in picoseconds and the corrections for the atmosphere in
    /// micrometres, which are added to the raw pseudorange. The time of transmission has to fit in 64 bits of
    /// nanoseconds.
    pub fn from_channel(
        input: &ObservableInput,
        eph: &Ephemeris,
        clock_correction_ps: i64,
        ionosphere_um: i64,
        troposphere_um: i64,
    ) -> (obs: Self)
        requires
            i64::MIN <= sent_ns(*input, clock_correction_ps as int) <= i64::MAX,
        ensures
            obs.prn == input.prn,
            obs.timestamp_ps == input.receiver_time_ps,
            is_pseudorange(
                obs.pseudorange,
                pseudorange_input_of(*input),
                clock_correction_ps as int,
                ionosphere_um as int,
                troposphere_um as int,
            ),
            is_doppler(
                obs.doppler,
                (DopplerInput {
                    prn: input.prn,
                    carrier_freq_mhz: input.carrier_freq_mhz,
                    t_tx_ns: sent_ns(*input, clock_correction_ps as int) as i64,
                }),
                *eph,
            ),
            obs.cn0_mdb_hz == (match input.cn0_mdb_hz {
                Some(cn0) => cn0,
                None => 0i32,
            }),
            input.cn0_mdb_hz is None ==> !usable(obs),
            1_575_420_000_000 + obs.doppler.doppler_mhz == input.carrier_freq_mhz,
            obs.pseudorange.prn == input.prn && obs.doppler.prn == input.prn,
            obs.pseudorange.t_rx_ps == input.receiver_time_ps,
            obs.pseudorange.valid <==> 20_000_000_000_000 <= obs.pseudorange.corrected_um
                <= 27_000_000_000_000,
    {
        let pseudorange = compute_pseudorange(
            &input.pseudorange_input(),
            clock_correction_ps,
            ionosphere_um,
            troposphere_um,
        );
        proof {
            lemma_rounding_error(pseudorange.t_tx_ps as int, 1000);
        }
        let doppler = compute_doppler(
            &DopplerInput {
                prn: input.prn,
                carrier_freq_mhz: input.carrier_freq_mhz,
                t_tx_ns: round_quotient(pseudorange.t_tx_ps, 1000) as i64,
            },
            eph,
        );
        Observable {
            prn: input.prn,
            pseudorange,
            doppler,
            cn0_mdb_hz: match input.cn0_mdb_hz {
                Some(cn0) => cn0,
                None => 0,
            },
            timestamp_ps: input.receiver_time_ps,
        }
    }

    /// Quality of the signal.
    pub fn signal_quality(&self) -> (quality: SignalQuality)
        ensures
            quality == quality_of(self.cn0_mdb_hz as int),
    {
        SignalQuality::of(self.cn0_mdb_hz)
    }

    /// Whether the measurements can be used: the pseudorange makes sense and the
    /// signal is not lost.
    pub fn is_usable(&self) -> (yes: bool)
        ensures
            yes <==> usable(*self),
    {
        self.pseudorange.valid && self.cn0_mdb_hz >= 1000 * LOST_SIGNAL_CN0_THRESHOLD
    }
}

/// Measurements of one moment.
#[derive(Debug)]
pub struct ObservableSet {
    /// The measurements.
    pub observables: Vec<Observable>,
}

impl ObservableSet {
    /// The measurements.
    pub open spec fn view(&self) -> Seq<Observable> {
        self.observables@
    }

    /// No measurements.
    pub fn new() -> (set: Self)
        ensures
            set@ == Seq::<Observable>::empty(),
    {
        ObservableSet { observables: Vec::new() }
    }

    /// Adds the measurements of a satellite.
    pub fn push(&mut self, obs: Observable)
        ensures
            final(self)@ == old(self)@.push(obs),
    {
        self.observables.push(obs);
    }

    /// Number of measurements.
    pub fn len(&self) -> (n: usize)
        ensures
            n == self@.len(),
    {
        self.observables.len()
    }

    /// Whether there are no measurements.
    pub fn is_empty(&self) -> (empty: bool)
        ensures
            empty <==> self@.len() == 0,
    {
        self.observables.len() == 0
    }

    /// The measurements that can be used, in order.
    pub fn usable(&self) -> (kept: Vec<Observable>)
        ensures
            kept@ == self@.filter(|o: Observable| usable(o)),
    {
        let mut kept: Vec<Observable> = Vec::new();
        let mut i: usize = 0;
        while i < self.observables.len()
            invariant
                i <= self@.len(),
                kept@ == self@.take(i as int).filter(|o: Observable| usable(o)),
            decreases self@.len() - i,
        {
            proof {
                reveal(Seq::filter);
                assert(self@.take(i + 1).drop_last() =~= self@.take(i as int));
            }
            if self.observables[i].is_usable() {
                kept.push(self.observables[i]);
            }
            i = i + 1;
        }
        assert(self@.take(i as int) =~= self@);
        kept
    }

    /// Number of measurements that can be used.
    pub fn usable_count(&self) -> (n: usize)
        ensures
            n == self@.filter(|o: Observable| usable(o)).len(),
    {
        self.usable().len()
    }

    /// Whether there are enough measurements for a position: four that can be
    /// used.
    pub fn sufficient_for_fix(&self) -> (enough: bool)
        ensures
            enough <==> self@.filter(|o: Observable| usable(o)).len() >= 4,
    {
        self.usable_count() >= 4
    }
}

/// The measurements that can be used are those with a pseudorange that makes sense
/// and a signal that is not lost.
pub proof fn law_lost_signals_are_not_used(o: Observable)
    ensures
        usable(o) <==> o.pseudorange.valid && quality_of(o.cn0_mdb_hz as int)
            != SignalQuality::Lost,
{
}

/// Further measurements do no harm: what suffices for a position still does.
pub proof fn law_enough_stays_enough(observables: Seq<Observable>, obs: Observable)
    ensures
        ({
            let before = observables.filter(|o: Observable| usable(o)).len();
            let after = observables.push(obs).filter(|o: Observable| usable(o)).len();
            after == before + if usable(obs) {
                1int
            } else {
                0int
            }
        }),
{
    reveal(Seq::filter);
    assert(observables.push(obs).drop_last() =~= observables);
}

/// Measurements can be used exactly when the pseudorange makes sense and the density
/// is known to be 25 dB-Hz or more; and there are as many that can be used in two sets
/// as in the set of both.
pub proof fn law_usable_measurements(o: Observable, a: Seq<Observable>, b: Seq<Observable>)
    ensures
        usable(o) <==> o.pseudorange.valid && 25_000 <= o.cn0_mdb_hz,
        (a + b).filter(|o: Observable| usable(o)) == a.filter(|o: Observable| usable(o)) + b.filter(
            |o: Observable| usable(o),
        ),
{
    Seq::filter_distributes_over_add(a, b, |o: Observable| usable(o));
}

/// A channel is handed over as it is: its satellite, its code phase, its chip rate and
/// its time of reception enter the pseudorange, with the start of the subframe; and
/// the time of transmission that the Doppler shift is taken at is that of the
/// pseudorange, to within half a nanosecond.
pub proof fn law_channel_is_handed_over(input: ObservableInput, clock_correction_ps: int)
    ensures
        ({
            let p = pseudorange_input_of(input);
            &&& p.prn == input.prn
            &&& p.code_phase_nanochips == input.code_phase_nanochips
            &&& p.chip_rate_mhz == input.chip_rate_mhz
            &&& p.receiver_time_ps == input.receiver_time_ps
            &&& p.tow_us == subframe_start(input.tow_count as int) * 1_000_000
            &&& -1000 <= 2 * (1000 * sent_ns(input, clock_correction_ps) - (transmission_time(p)
                - clock_correction_ps)) <= 1000
        }),
{
    lemma_rounding_error(
        transmission_time(pseudorange_input_of(input)) - clock_correction_ps,
        1000,
    );
}

} // verus!
