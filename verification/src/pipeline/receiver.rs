//! State machine of the receiver: from a cold start over acquisition to tracking.
//!
//! The caller reads blocks of samples and runs the verification of satellites;
//! the receiver decides which satellites are searched and what follows from the
//! verdicts.

use crate::acquisition::verification::{
    all_handed_on, handed_on, law_every_confirmed_satellite_is_handed_on, AcquisitionResult,
    VerificationVerdict,
};
use vstd::prelude::*;

verus! {

/// State of the receiver.
#[derive(Debug, Clone, Copy, PartialEq, Eq, Structural)]
pub enum ReceiverState {
    /// No samples were processed yet.
    ColdStart,
    /// Satellites are searched.
    Acquiring,
    /// Enough satellites are tracked.
    Tracking,
    /// Ephemerides are decoded.
    Navigating,
    /// A position is known.
    Fixed,
}

/// What happened in the receiver.
#[derive(Debug, Clone, Copy, PartialEq, Eq, Structural)]
pub enum ReceiverEvent {
    /// The state has changed.
    StateChanged {
        /// State before.
        from: ReceiverState,
        /// State after.
        to: ReceiverState,
    },
    /// A satellite was confirmed.
    SatelliteAcquired {
        /// The satellite.
        result: AcquisitionResult,
    },
    /// A satellite was lost.
    SatelliteLost {
        /// Number of the satellite.
        prn: u8,
    },
    /// A search over all satellites has ended.
    AcquisitionEpochDone {
        /// Number of satellites searched.
        prns_searched: usize,
        /// Number of satellites confirmed.
        newly_confirmed: usize,
        /// Time taken, in milliseconds.
        elapsed_ms: u32,
    },
}

/// A satellite that is tracked.
#[derive(Debug, Clone, Copy, PartialEq, Eq, Structural)]
pub struct TrackedSatellite {
    /// What the acquisition has found.
    pub acquisition: AcquisitionResult,
    /// Block in which it was acquired.
    pub acuired_at_epoch: u64,
}

/// Configuration of the receiver.
#[derive(Debug)]
pub struct ReceiverConfig {
    /// Samples of one block.
    pub block_size: usize,
    /// Satellites that have to be tracked before the search ends.
    pub min_satellites_for_tracking: usize,
    /// Satellites that are searched.
    pub search_prns: Vec<u8>,
}

/// The satellites of GPS.
pub open spec fn gps_prns() -> Seq<u8> {
    Seq::new(32, |i: int| (i + 1) as u8)
}

impl Default for ReceiverConfig {
    fn default() -> (config: Self)
        ensures
            config.block_size == 2048,
            config.min_satellites_for_tracking == 1,
            config.search_prns@ == gps_prns(),
            config.search_prns@.len() == 32,
            forall|i: int| 0 <= i < 32 ==> #[trigger] config.search_prns@[i] == i + 1,
    {
        let mut search_prns: Vec<u8> = Vec::with_capacity(32);
        let mut prn: u8 = 1;
        while prn <= 32
            invariant
                1 <= prn <= 33,
                search_prns@.len() == prn - 1,
                forall|i: int| 0 <= i < prn - 1 ==> #[trigger] search_prns@[i] == i + 1,
            decreases 33 - prn,
        {
            search_prns.push(prn);
            prn = prn + 1;
        }
        assert(search_prns@ =~= gps_prns());
        ReceiverConfig { block_size: 2048, min_satellites_for_tracking: 1, search_prns }
    }
}

/// What a receiver knows.
#[verifier::ext_equal]
pub struct ReceiverModel {
    /// Satellites that have to be tracked before the search ends.
    pub min_satellites: int,
    /// Satellites that are searched.
    pub search_prns: Seq<u8>,
    /// State.
    pub state: ReceiverState,
    /// Tracked satellites, in the order of their acquisition.
    pub satellites: Seq<TrackedSatellite>,
    /// Blocks processed.
    pub epoch: int,
    /// Searches run.
    pub acq_epochs: int,
    /// Satellites confirmed.
    pub confirmed_total: int,
}

/// Whether a satellite is tracked.
pub open spec fn is_tracked(satellites: Seq<TrackedSatellite>, prn: u8) -> bool {
    exists|i: int| 0 <= i < satellites.len() && (#[trigger] satellites[i]).acquisition.prn == prn
}

/// Whether the next block is searched for satellites.
pub open spec fn is_searching(m: ReceiverModel) -> bool {
    m.state == ReceiverState::ColdStart || m.state == ReceiverState::Acquiring
}

/// The satellites to be searched in the next block: those that are not tracked,
/// while the receiver is acquiring.
pub open spec fn to_search(m: ReceiverModel) -> Seq<u8> {
    if is_searching(m) {
        m.search_prns.filter(|prn: u8| !is_tracked(m.satellites, prn))
    } else {
        Seq::empty()
    }
}

/// The records of acquired satellites.
pub open spec fn records(results: Seq<AcquisitionResult>, epoch: int) -> Seq<TrackedSatellite> {
    Seq::new(
        results.len(),
        |i: int| TrackedSatellite { acquisition: results[i], acuired_at_epoch: epoch as u64 },
    )
}

/// The events of acquired satellites.
pub open spec fn acquired_events(results: Seq<AcquisitionResult>) -> Seq<ReceiverEvent> {
    Seq::new(
        results.len(),
        |i: int| ReceiverEvent::SatelliteAcquired { result: results[i] },
    )
}

/// The event of a change of state, if there is one.
pub open spec fn state_events(from: ReceiverState, to: ReceiverState) -> Seq<ReceiverEvent> {
    if from == to {
        Seq::empty()
    } else {
        seq![ReceiverEvent::StateChanged { from, to }]
    }
}

/// A block of samples: the receiver afterwards and what has happened, given the
/// verdicts on the satellites searched.
pub open spec fn receiver_step(
    m: ReceiverModel,
    verdicts: Seq<VerificationVerdict>,
    elapsed_ms: u32,
) -> (ReceiverModel, Seq<ReceiverEvent>) {
    if !is_searching(m) {
        (ReceiverModel { epoch: m.epoch + 1, ..m }, Seq::empty())
    } else {
        let found = all_handed_on(verdicts);
        let satellites = m.satellites + records(found, m.epoch);
        let state = if satellites.len() >= m.min_satellites {
            ReceiverState::Tracking
        } else {
            ReceiverState::Acquiring
        };
        (
            ReceiverModel {
                state,
                satellites,
                epoch: m.epoch + 1,
                acq_epochs: m.acq_epochs + 1,
                confirmed_total: m.confirmed_total + found.len(),
                ..m
            },
            state_events(m.state, ReceiverState::Acquiring) + acquired_events(found).push(
                ReceiverEvent::AcquisitionEpochDone {
                    prns_searched: to_search(m).len() as usize,
                    newly_confirmed: found.len() as usize,
                    elapsed_ms,
                },
            ) + state_events(ReceiverState::Acquiring, state),
        )
    }
}

/// The receiver.
pub struct Receiver {
    config: ReceiverConfig,
    state: ReceiverState,
    satellites: Vec<TrackedSatellite>,
    epoch: u64,
    acq_epochs: u64,
    acq_confirmed_total: u64,
}

impl Receiver {
    /// What the receiver knows.
    pub closed spec fn view(&self) -> ReceiverModel {
        ReceiverModel {
            min_satellites: self.config.min_satellites_for_tracking as int,
            search_prns: self.config.search_prns@,
            state: self.state,
            satellites: self.satellites@,
            epoch: self.epoch as int,
            acq_epochs: self.acq_epochs as int,
            confirmed_total: self.acq_confirmed_total as int,
        }
    }

    /// A receiver at a cold start.
    pub fn new(config: ReceiverConfig) -> (r: Self)
        ensures
            r@ == (ReceiverModel {
                min_satellites: config.min_satellites_for_tracking as int,
                search_prns: config.search_prns@,
                state: ReceiverState::ColdStart,
                satellites: Seq::empty(),
                epoch: 0,
                acq_epochs: 0,
                confirmed_total: 0,
            }),
    {
        let r = Receiver {
            config,
            state: ReceiverState::ColdStart,
            satellites: Vec::new(),
            epoch: 0,
            acq_epochs: 0,
            acq_confirmed_total: 0,
        };
        assert(r@.satellites =~= Seq::empty());
        r
    }

    /// State of the receiver.
    pub fn state(&self) -> (state: ReceiverState)
        ensures
            state == self@.state,
    {
        self.state
    }

    /// The tracked satellites, in the order of their acquisition.
    pub fn satellites(&self) -> (satellites: &[TrackedSatellite])
        ensures
            satellites@ == self@.satellites,
    {
        self.satellites.as_slice()
    }

    /// Whether a satellite is tracked.
    fn tracks(&self, prn: u8) -> (yes: bool)
        ensures
            yes <==> is_tracked(self@.satellites, prn),
    {
        let mut i: usize = 0;
        while i < self.satellites.len()
            invariant
                i <= self.satellites@.len(),
                forall|j: int|
                    0 <= j < i ==> (#[trigger] self.satellites@[j]).acquisition.prn != prn,
            decreases self.satellites@.len() - i,
        {
            if self.satellites[i].acquisition.prn == prn {
                return true;
            }
            i = i + 1;
        }
        false
    }

    /// The satellites to be searched in the next block.
    pub fn prns_to_search(&self) -> (prns: Vec<u8>)
        ensures
            prns@ == to_search(self@),
    {
        let mut prns: Vec<u8> = Vec::new();
        let searching = match self.state {
            ReceiverState::ColdStart => true,
            ReceiverState::Acquiring => true,
            _ => false,
        };
        if !searching {
            assert(prns@ =~= to_search(self@));
            return prns;
        }
        let ghost m = self@;
        let ghost all = self.config.search_prns@;
        let mut i: usize = 0;
        while i < self.config.search_prns.len()
            invariant
                i <= all.len(),
                all == self.config.search_prns@,
                m == self@,
                prns@ == all.take(i as int).filter(|prn: u8| !is_tracked(m.satellites, prn)),
            decreases all.len() - i,
        {
            proof {
                reveal(Seq::filter);
                assert(all.take(i + 1).drop_last() =~= all.take(i as int));
            }
            let prn: u8 = self.config.search_prns[i];
            if !self.tracks(prn) {
                prns.push(prn);
            }
            i = i + 1;
        }
        assert(all.take(i as int) =~= all);
        prns
    }

    /// Processes a block of samples: takes the verdicts on the satellites that
    /// were to be searched, one for each and in order, and the time that the
    /// search took.
    pub fn process_block(&mut self, verdicts: &[VerificationVerdict], elapsed_ms: u32) -> (events:
        Vec<ReceiverEvent>)
        requires
            verdicts@.len() == to_search(old(self)@).len(),
            old(self)@.epoch < u64::MAX,
            old(self)@.acq_epochs < u64::MAX,
            old(self)@.confirmed_total + verdicts@.len() <= u64::MAX,
        ensures
            (final(self)@, events@) == receiver_step(old(self)@, verdicts@, elapsed_ms),
    {
        let mut events: Vec<ReceiverEvent> = Vec::new();
        let ghost before = self@;
        let epoch: u64 = self.epoch;
        self.epoch = self.epoch + 1;
        if self.state == ReceiverState::ColdStart {
            events.push(self.transition_to(ReceiverState::Acquiring));
            assert(events@ =~= state_events(before.state, ReceiverState::Acquiring));
        }
        if self.state == ReceiverState::Acquiring {
            self.run_acquisition_epoch(verdicts, epoch, elapsed_ms, &mut events);
            if self.satellites.len() >= self.config.min_satellites_for_tracking {
                events.push(self.transition_to(ReceiverState::Tracking));
            }
        }
        assert(events@ =~= receiver_step(before, verdicts@, elapsed_ms).1);
        events
    }

    /// Takes the verdicts of a search.
    fn run_acquisition_epoch(
        &mut self,
        verdicts: &[VerificationVerdict],
        epoch: u64,
        elapsed_ms: u32,
        events: &mut Vec<ReceiverEvent>,
    )
        requires
            old(self)@.acq_epochs < u64::MAX,
            old(self)@.confirmed_total + verdicts@.len() <= u64::MAX,
        ensures
            ({
                let found = all_handed_on(verdicts@);
                &&& final(self)@ == (ReceiverModel {
                    satellites: old(self)@.satellites + records(found, epoch as int),
                    acq_epochs: old(self)@.acq_epochs + 1,
                    confirmed_total: old(self)@.confirmed_total + found.len(),
                    ..old(self)@
                })
                &&& final(events)@ == old(events)@ + acquired_events(found).push(
                    ReceiverEvent::AcquisitionEpochDone {
                        prns_searched: verdicts@.len() as usize,
                        newly_confirmed: found.len() as usize,
                        elapsed_ms,
                    },
                )
            }),
    {
        let ghost before = self@;
        let mut newly_confirmed: usize = 0;
        let mut i: usize = 0;
        assert(self@.satellites + records(Seq::empty(), epoch as int) =~= self@.satellites);
        assert(events@ + acquired_events(Seq::empty()) =~= events@);
        assert(all_handed_on(verdicts@.take(0)) =~= Seq::empty());
        while i < verdicts.len()
            invariant
                i <= verdicts@.len(),
                newly_confirmed <= i,
                before.confirmed_total + verdicts@.len() <= u64::MAX,
                newly_confirmed == all_handed_on(verdicts@.take(i as int)).len(),
                self@ == (ReceiverModel {
                    satellites: before.satellites + records(
                        all_handed_on(verdicts@.take(i as int)),
                        epoch as int,
                    ),
                    confirmed_total: before.confirmed_total + newly_confirmed,
                    ..before
                }),
                events@ == old(events)@ + acquired_events(all_handed_on(verdicts@.take(i as int))),
            decreases verdicts@.len() - i,
        {
            let ghost found = all_handed_on(verdicts@.take(i as int));
            assert(verdicts@.take(i + 1).drop_last() =~= verdicts@.take(i as int));
            match verdicts[i].acquisition_result() {
                Some(result) => {
                    self.satellites.push(
                        TrackedSatellite { acquisition: result, acuired_at_epoch: epoch },
                    );
                    events.push(ReceiverEvent::SatelliteAcquired { result });
                    newly_confirmed = newly_confirmed + 1;
                    self.acq_confirmed_total = self.acq_confirmed_total + 1;
                    assert(records(found.push(result), epoch as int) =~= records(
                        found,
                        epoch as int,
                    ).push(TrackedSatellite { acquisition: result, acuired_at_epoch: epoch }));
                    assert(acquired_events(found.push(result)) =~= acquired_events(found).push(
                        ReceiverEvent::SatelliteAcquired { result },
                    ));
                    assert(self@.satellites =~= before.satellites + records(
                        found.push(result),
                        epoch as int,
                    ));
                },
                None => {},
            }
            i = i + 1;
        }
        assert(verdicts@.take(i as int) =~= verdicts@);
        self.acq_epochs = self.acq_epochs + 1;
        events.push(
            ReceiverEvent::AcquisitionEpochDone {
                prns_searched: verdicts.len(),
                newly_confirmed,
                elapsed_ms,
            },
        );
    }

    fn transition_to(&mut self, new_state: ReceiverState) -> (event: ReceiverEvent)
        ensures
            final(self)@ == (ReceiverModel { state: new_state, ..old(self)@ }),
            event == (ReceiverEvent::StateChanged { from: old(self)@.state, to: new_state }),
    {
        let from = self.state;
        self.state = new_state;
        ReceiverEvent::StateChanged { from, to: new_state }
    }
}

/// A tracked satellite is not searched again.
pub proof fn law_tracked_satellites_are_not_searched(m: ReceiverModel, i: int)
    requires
        0 <= i < to_search(m).len(),
    ensures
        !is_tracked(m.satellites, to_search(m)[i]),
        m.search_prns.contains(to_search(m)[i]),
{
    let pred = |prn: u8| !is_tracked(m.satellites, prn);
    broadcast use vstd::seq_lib::group_filter_ensures;
    let prn = to_search(m)[i];
    assert(m.search_prns.filter(pred).contains(prn));
    m.search_prns.lemma_filter_contains_rev(pred, prn);
}

/// Place of a state on the way from a cold start to a position.
pub open spec fn progress(state: ReceiverState) -> int {
    match state {
        ReceiverState::ColdStart => 0,
        ReceiverState::Acquiring => 1,
        ReceiverState::Tracking => 2,
        ReceiverState::Navigating => 3,
        ReceiverState::Fixed => 4,
    }
}

/// A block never takes the receiver back, leaves no receiver at a cold start,
/// and keeps every tracked satellite; the receiver is tracking once it tracks
/// enough satellites, and not before.
pub proof fn law_receiver_moves_forward(
    m: ReceiverModel,
    verdicts: Seq<VerificationVerdict>,
    elapsed_ms: u32,
)
    ensures
        ({
            let (after, events) = receiver_step(m, verdicts, elapsed_ms);
            &&& progress(m.state) <= progress(after.state)
            &&& after.state != ReceiverState::ColdStart
            &&& m.satellites.len() <= after.satellites.len()
            &&& after.satellites.take(m.satellites.len() as int) == m.satellites
            &&& is_searching(m) ==> (after.state == ReceiverState::Tracking <==> after.satellites.len()
                >= m.min_satellites)
            &&& !is_searching(m) ==> after.state == m.state && after.satellites == m.satellites
                && events.len() == 0
        }),
{
    let (after, events) = receiver_step(m, verdicts, elapsed_ms);
    assert(after.satellites.take(m.satellites.len() as int) =~= m.satellites);
}

/// Only confirmed satellites are tracked: a satellite that a block adds comes
/// from a confirmed verdict.
pub proof fn law_only_confirmed_satellites_are_tracked(
    m: ReceiverModel,
    verdicts: Seq<VerificationVerdict>,
    elapsed_ms: u32,
    i: int,
)
    requires
        m.satellites.len() <= i < receiver_step(m, verdicts, elapsed_ms).0.satellites.len(),
    ensures
        exists|v: int|
            0 <= v < verdicts.len() && handed_on(#[trigger] verdicts[v]) == Some(
                receiver_step(m, verdicts, elapsed_ms).0.satellites[i].acquisition,
            ),
{
    let after = receiver_step(m, verdicts, elapsed_ms).0;
    let found = all_handed_on(verdicts);
    lemma_handed_on_comes_from_verdict(verdicts, i - m.satellites.len());
}

proof fn lemma_handed_on_comes_from_verdict(verdicts: Seq<VerificationVerdict>, k: int)
    requires
        0 <= k < all_handed_on(verdicts).len(),
    ensures
        exists|v: int|
            0 <= v < verdicts.len() && handed_on(#[trigger] verdicts[v]) == Some(
                all_handed_on(verdicts)[k],
            ),
    decreases verdicts.len(),
{
    let rest = verdicts.drop_last();
    let head = all_handed_on(rest);
    if k < head.len() {
        lemma_handed_on_comes_from_verdict(rest, k);
        let v = choose|v: int|
            0 <= v < rest.len() && handed_on(#[trigger] rest[v]) == Some(head[k]);
        assert(verdicts[v] == rest[v]);
    } else {
        assert(verdicts[verdicts.len() - 1] == verdicts.last());
    }
}

/// Whether no satellite is tracked twice.
pub open spec fn tracked_once(satellites: Seq<TrackedSatellite>) -> bool {
    forall|i: int, j: int|
        0 <= i < j < satellites.len() ==> (#[trigger] satellites[i]).acquisition.prn != (
        #[trigger] satellites[j]).acquisition.prn
}

/// Whether every verdict is on the satellite that was searched.
pub open spec fn verdicts_match(verdicts: Seq<VerificationVerdict>, prns: Seq<u8>) -> bool {
    &&& verdicts.len() == prns.len()
    &&& forall|v: int|
        0 <= v < verdicts.len() ==> (handed_on(#[trigger] verdicts[v]) matches Some(r) ==> r.prn
            == prns[v])
}

/// What is handed on are satellites that were searched, each at most once.
proof fn lemma_handed_on_once(verdicts: Seq<VerificationVerdict>, prns: Seq<u8>)
    requires
        verdicts_match(verdicts, prns),
        prns.no_duplicates(),
    ensures
        ({
            let found = all_handed_on(verdicts);
            &&& forall|k: int| 0 <= k < found.len() ==> prns.contains((#[trigger] found[k]).prn)
            &&& forall|k: int, l: int|
                0 <= k < l < found.len() ==> (#[trigger] found[k]).prn != (#[trigger] found[l]).prn
        }),
    decreases verdicts.len(),
{
    if verdicts.len() > 0 {
        let rest = verdicts.drop_last();
        let fewer = prns.drop_last();
        assert forall|v: int| 0 <= v < rest.len() implies (handed_on(
            #[trigger] rest[v],
        ) matches Some(r) ==> r.prn == fewer[v]) by {
            assert(rest[v] == verdicts[v]);
        }
        lemma_handed_on_once(rest, fewer);
        let head = all_handed_on(rest);
        let found = all_handed_on(verdicts);
        let last = verdicts.len() - 1;
        assert(verdicts[last] == verdicts.last());
        assert forall|k: int| 0 <= k < found.len() implies prns.contains(
            (#[trigger] found[k]).prn,
        ) by {
            if k < head.len() {
                assert(found[k] == head[k]);
                let i = choose|i: int| 0 <= i < fewer.len() && fewer[i] == head[k].prn;
                assert(prns[i] == head[k].prn);
            } else {
                assert(prns[last] == found[k].prn);
            }
        }
        assert forall|k: int, l: int| 0 <= k < l < found.len() implies (#[trigger] found[k]).prn
            != (#[trigger] found[l]).prn by {
            assert(found[k] == head[k]);
            if l < head.len() {
                assert(found[l] == head[l]);
            } else {
                let i = choose|i: int| 0 <= i < fewer.len() && fewer[i] == head[k].prn;
                assert(prns[i] == head[k].prn);
                assert(prns[last] == found[l].prn);
            }
        }
    }
}

/// No satellite is tracked twice, when none is listed twice and every verdict is
/// on the satellite that was searched: this is kept by every block.
pub proof fn law_no_satellite_is_tracked_twice(
    m: ReceiverModel,
    verdicts: Seq<VerificationVerdict>,
    elapsed_ms: u32,
)
    requires
        tracked_once(m.satellites),
        m.search_prns.no_duplicates(),
        verdicts_match(verdicts, to_search(m)),
    ensures
        tracked_once(receiver_step(m, verdicts, elapsed_ms).0.satellites),
{
    if is_searching(m) {
        let pred = |prn: u8| !is_tracked(m.satellites, prn);
        lemma_filter_no_duplicates(m.search_prns, pred);
        lemma_handed_on_once(verdicts, to_search(m));
        let found = all_handed_on(verdicts);
        let after = receiver_step(m, verdicts, elapsed_ms).0.satellites;
        let n = m.satellites.len() as int;
        assert forall|i: int, j: int| 0 <= i < j < after.len() implies (
        #[trigger] after[i]).acquisition.prn != (#[trigger] after[j]).acquisition.prn by {
            if i < n {
                assert(after[i] == m.satellites[i]);
                if j < n {
                    assert(after[j] == m.satellites[j]);
                } else {
                    let prn = found[j - n].prn;
                    assert(after[j].acquisition == found[j - n]);
                    assert(to_search(m).contains(prn));
                    let s = choose|s: int| 0 <= s < to_search(m).len() && to_search(m)[s] == prn;
                    law_tracked_satellites_are_not_searched(m, s);
                    assert(m.satellites[i].acquisition.prn != prn);
                }
            } else {
                assert(after[i].acquisition == found[i - n]);
                assert(after[j].acquisition == found[j - n]);
            }
        }
    }
}

/// Leaving items out brings in no duplicates.
proof fn lemma_filter_no_duplicates(items: Seq<u8>, pred: spec_fn(u8) -> bool)
    requires
        items.no_duplicates(),
    ensures
        items.filter(pred).no_duplicates(),
    decreases items.len(),
{
    reveal(Seq::filter);
    if items.len() > 0 {
        let rest = items.drop_last();
        lemma_filter_no_duplicates(rest, pred);
        let kept = rest.filter(pred);
        if pred(items.last()) {
            assert(!kept.contains(items.last())) by {
                if kept.contains(items.last()) {
                    rest.lemma_filter_contains_rev(pred, items.last());
                    let i = choose|i: int| 0 <= i < rest.len() && rest[i] == items.last();
                    assert(items[i] == items[items.len() - 1]);
                }
            }
        }
    }
}

/// Every satellite of the list that is not tracked is searched, as long as the
/// receiver is acquiring, and none otherwise.
pub proof fn law_untracked_satellites_are_searched(m: ReceiverModel, prn: u8)
    requires
        m.search_prns.contains(prn),
        !is_tracked(m.satellites, prn),
    ensures
        to_search(m).contains(prn) <==> m.state == ReceiverState::ColdStart || m.state
            == ReceiverState::Acquiring,
{
    let pred = |p: u8| !is_tracked(m.satellites, p);
    m.search_prns.lemma_filter_contains(pred, m.search_prns.index_of(prn));
    if !is_searching(m) {
        assert(!to_search(m).contains(prn));
    }
}

/// The events tell what a search has changed: first the end of the cold start, if
/// that was the state, then every satellite that is now tracked, in order, then the
/// end of the search with the satellites searched and those confirmed, then the
/// beginning of the tracking, if enough are tracked. The satellites carry the number
/// of the block, and blocks, searches and confirmed satellites are counted.
pub proof fn law_events_tell_what_has_changed(
    m: ReceiverModel,
    verdicts: Seq<VerificationVerdict>,
    elapsed_ms: u32,
    i: int,
)
    requires
        is_searching(m),
        0 <= m.epoch <= u64::MAX,
        to_search(m).len() <= usize::MAX,
        verdicts.len() == to_search(m).len(),
    ensures
        ({
            let (after, events) = receiver_step(m, verdicts, elapsed_ms);
            let new = after.satellites.len() - m.satellites.len();
            let first = if m.state == ReceiverState::ColdStart {
                1int
            } else {
                0int
            };
            let enough = after.satellites.len() >= m.min_satellites;
            &&& after.epoch == m.epoch + 1
            &&& after.acq_epochs == m.acq_epochs + 1
            &&& after.confirmed_total == m.confirmed_total + new
            &&& after.min_satellites == m.min_satellites && after.search_prns == m.search_prns
            &&& events.len() == first + new + 1 + if enough {
                1int
            } else {
                0int
            }
            &&& first == 1 ==> events[0] == (ReceiverEvent::StateChanged {
                from: ReceiverState::ColdStart,
                to: ReceiverState::Acquiring,
            })
            &&& 0 <= i < new ==> after.satellites[m.satellites.len() + i].acuired_at_epoch == m.epoch
                && events[first + i] == (ReceiverEvent::SatelliteAcquired {
                result: after.satellites[m.satellites.len() + i].acquisition,
            })
            &&& events[first + new] matches ReceiverEvent::AcquisitionEpochDone {
                prns_searched,
                newly_confirmed,
                elapsed_ms: taken_ms,
            } && prns_searched == verdicts.len() && newly_confirmed == new && taken_ms == elapsed_ms
            &&& enough ==> events[first + new + 1] == (ReceiverEvent::StateChanged {
                from: ReceiverState::Acquiring,
                to: ReceiverState::Tracking,
            })
            &&& after.state == if enough {
                ReceiverState::Tracking
            } else {
                ReceiverState::Acquiring
            }
        }),
{
    law_every_confirmed_satellite_is_handed_on(verdicts);
    lemma_handed_on_is_no_more(verdicts);
}

/// No more is handed on than there are verdicts.
proof fn lemma_handed_on_is_no_more(verdicts: Seq<VerificationVerdict>)
    ensures
        all_handed_on(verdicts).len() <= verdicts.len(),
    decreases verdicts.len(),
{
    if verdicts.len() > 0 {
        lemma_handed_on_is_no_more(verdicts.drop_last());
    }
}

/// Every confirmed satellite is tracked after the search.
pub proof fn law_confirmed_satellites_are_tracked(
    m: ReceiverModel,
    verdicts: Seq<VerificationVerdict>,
    elapsed_ms: u32,
    v: int,
)
    requires
        is_searching(m),
        0 <= v < verdicts.len(),
        verdicts[v] is Confirmed,
    ensures
        is_tracked(
            receiver_step(m, verdicts, elapsed_ms).0.satellites,
            verdicts[v]->Confirmed_result.prn,
        ),
{
    law_every_confirmed_satellite_is_handed_on(verdicts);
    let found = all_handed_on(verdicts);
    let result = handed_on(verdicts[v])->0;
    assert(found.contains(result));
    let i = found.index_of(result);
    let after = receiver_step(m, verdicts, elapsed_ms).0.satellites;
    assert(after[m.satellites.len() + i].acquisition == result);
}

/// A block that is not searched changes nothing but the number of blocks.
pub proof fn law_tracking_receiver_only_counts_blocks(
    m: ReceiverModel,
    verdicts: Seq<VerificationVerdict>,
    elapsed_ms: u32,
)
    requires
        progress(m.state) >= 2,
    ensures
        ({
            let (after, events) = receiver_step(m, verdicts, elapsed_ms);
            &&& after.epoch == m.epoch + 1
            &&& after.acq_epochs == m.acq_epochs
            &&& after.confirmed_total == m.confirmed_total
            &&& after.state == m.state
            &&& after.satellites == m.satellites
            &&& events.len() == 0
            &&& to_search(m).len() == 0
        }),
{
}

} // verus!
