//! The apply loop of the dataplane: when to program, and what a failure does.
//!
//! Messages mark the dataplane as out of date. A round of programming is due when it is
//! out of date and the throttle lets it through, so a burst of messages costs one round.
//! A failed round keeps the dataplane out of date and is tried again after a growing, but
//! bounded, pause. Time is a number handed in by the caller.

use crate::messages::{ToDataplane, ToDataplaneView};
use vstd::prelude::*;

verus! {

/// A failure to program the dataplane.
#[derive(Debug, PartialEq, Eq)]
pub struct DataplaneError(pub String);

impl DataplaneError {
    /// The failure with the given message.
    pub fn new(msg: &str) -> (r: Self)
        ensures
            r.0@ == msg@,
    {
        DataplaneError(msg.to_owned())
    }

    /// The failure in words.
    pub fn text(&self) -> (r: String)
        ensures
            r@ == "dataplane error: "@ + self.0@,
    {
        let mut s = "dataplane error: ".to_owned();
        s.push_str(self.0.as_str());
        s
    }
}

impl Clone for DataplaneError {
    fn clone(&self) -> (r: Self)
        ensures
            r == *self,
    {
        DataplaneError(self.0.clone())
    }
}

impl From<String> for DataplaneError {
    fn from(s: String) -> (r: Self) {
        DataplaneError(s)
    }
}

impl vstd::std_specs::convert::FromSpecImpl<String> for DataplaneError {
    open spec fn obeys_from_spec() -> bool {
        true
    }

    open spec fn from_spec(s: String) -> Self {
        DataplaneError(s)
    }
}

impl<'a> From<&'a str> for DataplaneError {
    fn from(s: &'a str) -> (r: Self)
        ensures
            r.0@ == s@,
    {
        DataplaneError(s.to_owned())
    }
}

impl<'a> vstd::std_specs::convert::FromSpecImpl<&'a str> for DataplaneError {
    open spec fn obeys_from_spec() -> bool {
        false
    }

    open spec fn from_spec(s: &'a str) -> Self {
        arbitrary()
    }
}

/// A part of the dataplane that is kept in step with the messages.
pub trait Manager: Sized {
    /// All that the manager remembers: what it wants the dataplane to be, and what it has
    /// done about it.
    type State;

    /// What this manager remembers.
    spec fn state(&self) -> Self::State;

    /// What a manager that remembers `state` remembers after a message.
    spec fn absorb(state: Self::State, msg: ToDataplaneView) -> Self::State;

    /// Whether the manager is well-formed.
    spec fn valid(&self) -> bool;

    /// Takes one message in. Nothing is programmed; a message that does not concern the
    /// manager leaves it as it is.
    fn on_update(&mut self, msg: &ToDataplane)
        requires
            old(self).valid(),
        ensures
            final(self).valid(),
            final(self).state() == Self::absorb(old(self).state(), msg.deep_view()),
    ;
}

/// What one round of programming came to.
#[derive(Debug)]
pub struct ApplyOutcome {
    /// The managers that failed, by their position, each with its error.
    pub errors: Vec<(usize, DataplaneError)>,
    /// Whether the dataplane became ready in this round.
    pub became_ready: bool,
}

impl Default for ApplyOutcome {
    fn default() -> (r: Self)
        ensures
            r.errors@.len() == 0,
            !r.became_ready,
    {
        ApplyOutcome { errors: Vec::new(), became_ready: false }
    }
}

impl ApplyOutcome {
    /// Whether every manager succeeded.
    pub fn is_clean(&self) -> (r: bool)
        ensures
            r == (self.errors@.len() == 0),
    {
        self.errors.len() == 0
    }
}

/// The pause after `failures` rounds have failed in a row: it doubles from `base` with
/// each failure and never exceeds `max`.
pub open spec fn backoff(base: nat, max: nat, failures: nat) -> nat {
    let grown = base * vstd::arithmetic::power2::pow2(failures);
    if grown <= max {
        grown
    } else {
        max
    }
}

/// `a + b`, or the largest `u64` where that does not fit.
pub open spec fn later(a: u64, b: nat) -> u64 {
    if a + b <= u64::MAX {
        (a + b) as u64
    } else {
        u64::MAX
    }
}

/// The throttle and the readiness of the apply loop.
#[derive(Debug, Clone, Copy)]
pub struct DataplaneState {
    /// A round is owed.
    pub dirty: bool,
    /// The datastore has been read completely.
    pub datastore_in_sync: bool,
    /// Readiness has been reported.
    pub in_sync_reported: bool,
    /// The next round runs whatever the throttle says.
    pub force: bool,
    /// The least time between two successful rounds.
    pub min_apply_interval: u64,
    /// The pause after the first failed round.
    pub retry_base: u64,
    /// The longest pause.
    pub retry_max: u64,
    /// How many rounds have failed in a row.
    pub consecutive_failures: u32,
    /// The earliest time of the next round.
    pub next_eligible: u64,
}

impl Default for DataplaneState {
    fn default() -> (r: Self)
        ensures
            r == DataplaneState::initial(1),
    {
        DataplaneState::new(1)
    }
}

impl DataplaneState {
    /// The state before any message, with the given least time between rounds.
    pub open spec fn initial(min_apply_interval: u64) -> DataplaneState {
        DataplaneState {
            dirty: false,
            datastore_in_sync: false,
            in_sync_reported: false,
            force: false,
            min_apply_interval: if min_apply_interval == 0 {
                1
            } else {
                min_apply_interval
            },
            retry_base: 1,
            retry_max: 10,
            consecutive_failures: 0,
            next_eligible: 0,
        }
    }

    /// The state after a message other than the end of the initial read.
    pub open spec fn dirtied(self) -> DataplaneState {
        DataplaneState { dirty: true, ..self }
    }

    /// The state after the end of the initial read.
    pub open spec fn synced(self) -> DataplaneState {
        DataplaneState { datastore_in_sync: true, dirty: true, force: true, ..self }
    }

    /// Whether a round is due at `now`.
    pub open spec fn due(self, now: u64) -> bool {
        self.dirty && (self.force || now >= self.next_eligible)
    }

    /// The state after a round at `now` that failed.
    pub open spec fn after_failure(self, now: u64) -> DataplaneState {
        DataplaneState {
            dirty: true,
            force: false,
            consecutive_failures: if self.consecutive_failures == u32::MAX {
                u32::MAX
            } else {
                (self.consecutive_failures + 1) as u32
            },
            next_eligible: later(
                now,
                backoff(
                    self.retry_base as nat,
                    self.retry_max as nat,
                    if self.consecutive_failures < 31 {
                        self.consecutive_failures as nat
                    } else {
                        31
                    },
                ),
            ),
            ..self
        }
    }

    /// Whether a round that succeeds makes the dataplane ready: the first one after the
    /// datastore has been read completely.
    pub open spec fn readies(self) -> bool {
        self.datastore_in_sync && !self.in_sync_reported
    }

    /// The state after a round at `now` that succeeded.
    pub open spec fn after_success(self, now: u64) -> DataplaneState {
        DataplaneState {
            force: false,
            consecutive_failures: 0,
            next_eligible: later(now, self.min_apply_interval as nat),
            in_sync_reported: self.in_sync_reported || self.readies(),
            ..self
        }
    }

    /// A throttle with the given least time between successful rounds; zero counts as
    /// one. The first round may run at once.
    pub fn new(min_apply_interval: u64) -> (r: Self)
        ensures
            r == DataplaneState::initial(min_apply_interval),
    {
        DataplaneState {
            dirty: false,
            datastore_in_sync: false,
            in_sync_reported: false,
            force: false,
            min_apply_interval: if min_apply_interval == 0 {
                1
            } else {
                min_apply_interval
            },
            retry_base: 1,
            retry_max: 10,
            consecutive_failures: 0,
            next_eligible: 0,
        }
    }

    /// Records that a message arrived.
    pub fn mark_dirty(&mut self)
        ensures
            *final(self) == old(self).dirtied(),
    {
        self.dirty = true;
    }

    /// Records that the datastore has been read completely.
    pub fn mark_in_sync(&mut self)
        ensures
            *final(self) == old(self).synced(),
    {
        self.datastore_in_sync = true;
        self.dirty = true;
        self.force = true;
    }

    /// Whether a round is due at `now`.
    pub fn should_apply(&self, now: u64) -> (r: bool)
        ensures
            r == self.due(now),
    {
        self.dirty && (self.force || now >= self.next_eligible)
    }

    /// Whether a round is owed, whatever the throttle says.
    pub fn needs_apply(&self) -> (r: bool)
        ensures
            r == self.dirty,
    {
        self.dirty
    }

    /// Begins a round.
    pub fn begin_apply(&mut self)
        ensures
            *final(self) == (DataplaneState { dirty: false, ..*old(self) }),
    {
        self.dirty = false;
    }

    /// Ends a round at `now`, and tells whether the dataplane became ready by it.
    pub fn end_apply(&mut self, now: u64, failed: bool) -> (r: bool)
        ensures
            failed ==> *final(self) == old(self).after_failure(now) && !r,
            !failed ==> *final(self) == old(self).after_success(now) && r == old(self).readies(),
    {
        self.force = false;
        if failed {
            self.dirty = true;
            let shift: u32 = if self.consecutive_failures < 31 {
                self.consecutive_failures
            } else {
                31
            };
            proof {
                vstd::arithmetic::power2::lemma2_to64();
                vstd::arithmetic::power2::lemma_pow2_strictly_increases(shift as nat, 32);
                vstd::bits::lemma_u64_shl_is_mul(1, shift as u64);
            }
            let factor: u64 = 1u64 << (shift as u64);
            let base: u64 = self.retry_base;
            assert(0 <= base * factor <= 0xffff_ffff_ffff_ffff * 0xffff_ffff_ffff_ffff)
                by (nonlinear_arith)
                requires
                    0 <= base <= 0xffff_ffff_ffff_ffff,
                    0 <= factor <= 0xffff_ffff_ffff_ffff,
            ;
            let grown: u128 = (base as u128) * (factor as u128);
            let pause: u64 = if grown <= self.retry_max as u128 {
                grown as u64
            } else {
                self.retry_max
            };
            self.consecutive_failures = self.consecutive_failures.saturating_add(1);
            self.next_eligible = now.saturating_add(pause);
            return false;
        }
        self.consecutive_failures = 0;
        self.next_eligible = now.saturating_add(self.min_apply_interval);
        if self.datastore_in_sync && !self.in_sync_reported {
            self.in_sync_reported = true;
            return true;
        }
        false
    }
}

/// The managers of a node, with the throttle over them.
pub struct InternalDataplane<M> {
    /// The managers, in the order in which they were added.
    pub managers: Vec<M>,
    /// The throttle.
    pub state: DataplaneState,
}

/// The failed ones of the first `n` results, each with its position.
pub open spec fn failures_first(
    results: Seq<Result<(), DataplaneError>>,
    n: nat,
) -> Seq<(usize, DataplaneError)>
    decreases n,
{
    if n == 0 {
        Seq::empty()
    } else {
        let head = failures_first(results, (n - 1) as nat);
        match results[n - 1] {
            Ok(_) => head,
            Err(e) => head.push(((n - 1) as usize, e)),
        }
    }
}

/// The failed results, each with its position.
pub open spec fn failures(results: Seq<Result<(), DataplaneError>>) -> Seq<(usize, DataplaneError)> {
    failures_first(results, results.len())
}

impl<M: Manager> Default for InternalDataplane<M> {
    fn default() -> (r: Self)
        ensures
            r.wf(),
            r.managers@.len() == 0,
            r.state == DataplaneState::initial(1),
    {
        InternalDataplane { managers: Vec::new(), state: DataplaneState::default() }
    }
}

impl<M: Manager> InternalDataplane<M> {
    /// Every manager is well-formed.
    pub open spec fn wf(&self) -> bool {
        forall|i: int| 0 <= i < self.managers@.len() ==> (#[trigger] self.managers@[i]).valid()
    }

    /// A dataplane without managers, with the default throttle.
    pub fn new() -> (r: Self)
        ensures
            r.wf(),
            r.managers@.len() == 0,
            r.state == DataplaneState::initial(1),
    {
        InternalDataplane::default()
    }

    /// A dataplane without managers, with the given least time between rounds.
    pub fn with_throttle(min_apply_interval: u64) -> (r: Self)
        ensures
            r.wf(),
            r.managers@.len() == 0,
            r.state == DataplaneState::initial(min_apply_interval),
    {
        InternalDataplane { managers: Vec::new(), state: DataplaneState::new(min_apply_interval) }
    }

    /// Adds a manager behind the others.
    pub fn add_manager(&mut self, manager: M)
        requires
            old(self).wf(),
            manager.valid(),
        ensures
            final(self).wf(),
            final(self).managers@ == old(self).managers@.push(manager),
            final(self).state == old(self).state,
    {
        self.managers.push(manager);
    }

    /// The number of managers.
    pub fn manager_count(&self) -> (r: usize)
        ensures
            r == self.managers@.len(),
    {
        self.managers.len()
    }

    /// Hands one message to every manager, in order, and marks the dataplane as out of
    /// date. Nothing is programmed.
    pub fn dispatch(&mut self, msg: &ToDataplane)
        requires
            old(self).wf(),
        ensures
            final(self).wf(),
            final(self).managers@.len() == old(self).managers@.len(),
            forall|i: int|
                0 <= i < final(self).managers@.len() ==> (#[trigger] final(self).managers@[i]).state()
                    == M::absorb(old(self).managers@[i].state(), msg.deep_view()),
            final(self).state == if msg.deep_view() == ToDataplaneView::InSync {
                old(self).state.synced()
            } else {
                old(self).state.dirtied()
            },
    {
        let ghost before = self.managers@;
        let n = self.managers.len();
        let mut i: usize = 0;
        while i < n
            invariant
                i <= n,
                n == self.managers@.len(),
                n == before.len(),
                self.state == old(self).state,
                self.wf(),
                forall|j: int|
                    0 <= j < i ==> (#[trigger] self.managers@[j]).state() == M::absorb(
                        before[j].state(),
                        msg.deep_view(),
                    ),
                forall|j: int| i <= j < n ==> #[trigger] self.managers@[j] == before[j],
            decreases n - i,
        {
            let m = &mut self.managers[i];
            m.on_update(msg);
            i = i + 1;
        }
        match msg {
            ToDataplane::InSync => self.state.mark_in_sync(),
            _ => self.state.mark_dirty(),
        }
    }

    /// Whether a round is due at `now`.
    pub fn should_apply(&self, now: u64) -> (r: bool)
        ensures
            r == self.state.due(now),
    {
        self.state.should_apply(now)
    }

    /// Whether a round is owed, whatever the throttle says.
    pub fn needs_apply(&self) -> (r: bool)
        ensures
            r == self.state.dirty,
    {
        self.state.needs_apply()
    }

    /// Whether readiness has been reported.
    pub fn is_ready(&self) -> (r: bool)
        ensures
            r == self.state.in_sync_reported,
    {
        self.state.in_sync_reported
    }

    /// Closes one round at `now`, given what each manager came to, in order.
    pub fn apply_all(&mut self, now: u64, results: Vec<Result<(), DataplaneError>>) -> (r: ApplyOutcome)
        requires
            old(self).managers@.len() == results@.len(),
        ensures
            final(self).managers == old(self).managers,
            r.errors@ == failures(results@),
            final(self).state == if r.errors@.len() > 0 {
                (DataplaneState { dirty: false, ..old(self).state }).after_failure(now)
            } else {
                (DataplaneState { dirty: false, ..old(self).state }).after_success(now)
            },
            r.became_ready == (r.errors@.len() == 0 && old(self).state.readies()),
    {
        self.state.begin_apply();
        let mut errors: Vec<(usize, DataplaneError)> = Vec::new();
        for i in 0..results.len()
            invariant
                errors@ == failures_first(results@, i as nat),
        {
            if let Err(e) = &results[i] {
                errors.push((i, e.clone()));
            }
        }
        let failed = errors.len() > 0;
        let became_ready = self.state.end_apply(now, failed);
        ApplyOutcome { errors, became_ready }
    }
}

/// A burst of messages costs one round: further messages change nothing about what is
/// owed, and after a round that succeeds nothing is owed until the next message.
pub proof fn law_burst_costs_one_round(s: DataplaneState, now: u64, then: u64)
    ensures
        s.dirtied().dirtied() == s.dirtied(),
        s.dirtied().dirty,
        !(DataplaneState { dirty: false, ..s }).after_success(now).due(then),
{
}

/// Two rounds that succeed are at least the given time apart, unless the second one is
/// forced.
pub proof fn law_rounds_keep_their_distance(s: DataplaneState, now: u64, then: u64)
    requires
        then < later(now, s.min_apply_interval as nat),
    ensures
        !s.after_success(now).dirtied().due(then),
{
}

/// A round that failed stays owed. It is tried again after a pause, and the pause is never
/// longer than the longest one, however many rounds have failed.
pub proof fn law_failed_round_is_tried_again(s: DataplaneState, now: u64, then: u64)
    requires
        then >= later(now, s.retry_max as nat),
    ensures
        s.after_failure(now).dirty,
        s.after_failure(now).due(then),
{
}

/// The end of the initial read forces a round, whatever the throttle says and however many
/// rounds have failed.
pub proof fn law_end_of_read_forces_a_round(s: DataplaneState, now: u64)
    ensures
        s.synced().due(now),
{
}

/// Readiness is reported by the first round that succeeds after the initial read, and
/// never again: neither messages nor later rounds take it back or report it anew.
pub proof fn law_readiness_is_reported_once(s: DataplaneState, now: u64)
    ensures
        s.readies() ==> s.datastore_in_sync,
        s.readies() ==> s.after_success(now).in_sync_reported,
        !s.after_success(now).readies(),
        s.in_sync_reported ==> !s.readies(),
        s.in_sync_reported ==> s.dirtied().in_sync_reported && s.synced().in_sync_reported
            && s.after_success(now).in_sync_reported && s.after_failure(now).in_sync_reported,
        !s.datastore_in_sync && !s.in_sync_reported ==> !s.after_success(now).in_sync_reported,
        s.after_failure(now).in_sync_reported == s.in_sync_reported,
{
}

/// The pause does not shrink as rounds go on failing.
pub proof fn law_pause_grows(base: nat, max: nat, failures: nat)
    ensures
        backoff(base, max, failures) <= backoff(base, max, failures + 1),
        backoff(base, max, failures) <= max,
        base <= max ==> backoff(base, max, 0) == base,
{
    vstd::arithmetic::power2::lemma2_to64();
    vstd::arithmetic::power2::lemma_pow2_strictly_increases(failures, failures + 1);
    let a = vstd::arithmetic::power2::pow2(failures);
    let b = vstd::arithmetic::power2::pow2(failures + 1);
    assert(base * a <= base * b) by (nonlinear_arith)
        requires
            a <= b,
    ;
    assert(base * 1 == base);
}

/// What can happen to the throttle.
pub enum ThrottleEvent {
    /// A message arrived, other than the end of the initial read.
    Message,
    /// The initial read ended.
    EndOfRead,
    /// A round began.
    Begin,
    /// A round ended.
    End { now: u64, failed: bool },
}

impl DataplaneState {
    /// The state after one event.
    pub open spec fn after_event(self, e: ThrottleEvent) -> DataplaneState {
        match e {
            ThrottleEvent::Message => self.dirtied(),
            ThrottleEvent::EndOfRead => self.synced(),
            ThrottleEvent::Begin => DataplaneState { dirty: false, ..self },
            ThrottleEvent::End { now, failed } => if failed {
                self.after_failure(now)
            } else {
                self.after_success(now)
            },
        }
    }

    /// The state after the first `n` events.
    pub open spec fn after_first(self, events: Seq<ThrottleEvent>, n: nat) -> DataplaneState
        decreases n,
    {
        if n == 0 {
            self
        } else {
            self.after_first(events, (n - 1) as nat).after_event(events[n - 1])
        }
    }

    /// Whether an event reports readiness.
    pub open spec fn reports(self, e: ThrottleEvent) -> bool {
        (e matches ThrottleEvent::End { now: _, failed } && !failed) && self.readies()
    }

    /// How many of the first `n` events report readiness.
    pub open spec fn reports_first(self, events: Seq<ThrottleEvent>, n: nat) -> nat
        decreases n,
    {
        if n == 0 {
            0
        } else {
            self.reports_first(events, (n - 1) as nat) + if self.after_first(
                events,
                (n - 1) as nat,
            ).reports(events[n - 1]) {
                1nat
            } else {
                0nat
            }
        }
    }
}

/// How many rounds have failed in a row at the end of the first `n` events.
pub open spec fn failed_in_a_row(events: Seq<ThrottleEvent>, n: nat) -> nat
    decreases n,
{
    if n == 0 {
        0
    } else {
        match events[n - 1] {
            ThrottleEvent::End { now: _, failed } => if failed {
                failed_in_a_row(events, (n - 1) as nat) + 1
            } else {
                0
            },
            _ => failed_in_a_row(events, (n - 1) as nat),
        }
    }
}

/// Whether the initial read has ended within the first `n` events.
pub open spec fn read_within(events: Seq<ThrottleEvent>, n: nat) -> bool {
    exists|i: int| 0 <= i < n && (#[trigger] events[i]) is EndOfRead
}

/// Whether within the first `n` events a round has succeeded after the initial read.
pub open spec fn served_within(events: Seq<ThrottleEvent>, n: nat) -> bool {
    exists|j: int|
        0 <= j < n && ((#[trigger] events[j]) matches ThrottleEvent::End { now: _, failed }
            && !failed) && read_within(events, j as nat)
}

/// What a run keeps count of.
proof fn lemma_run(interval: u64, events: Seq<ThrottleEvent>, n: nat)
    requires
        n <= events.len(),
    ensures
        ({
            let s = DataplaneState::initial(interval).after_first(events, n);
            let k = failed_in_a_row(events, n);
            &&& s.retry_base == 1
            &&& s.retry_max == 10
            &&& s.consecutive_failures == if k <= u32::MAX {
                k
            } else {
                u32::MAX as nat
            }
            &&& s.datastore_in_sync == read_within(events, n)
            &&& s.in_sync_reported == served_within(events, n)
            &&& DataplaneState::initial(interval).reports_first(events, n) == if s.in_sync_reported {
                1nat
            } else {
                0nat
            }
        }),
    decreases n,
{
    if n > 0 {
        let m = (n - 1) as nat;
        lemma_run(interval, events, m);
        let e = events[n - 1];
        assert(read_within(events, n) == (read_within(events, m) || e is EndOfRead)) by {
            if read_within(events, m) {
                let i = choose|i: int| 0 <= i < m && (#[trigger] events[i]) is EndOfRead;
                assert(0 <= i < n && events[i] is EndOfRead);
            }
            if e is EndOfRead {
                assert(events[m as int] is EndOfRead);
            }
        }
        let success = e matches ThrottleEvent::End { now: _, failed } && !failed;
        assert(served_within(events, n) == (served_within(events, m) || (success && read_within(
            events,
            m,
        )))) by {
            if served_within(events, m) {
                let j = choose|j: int|
                    0 <= j < m && ((#[trigger] events[j]) matches ThrottleEvent::End {
                        now: _,
                        failed,
                    } && !failed) && read_within(events, j as nat);
                assert(0 <= j < n && read_within(events, j as nat));
            }
            if success && read_within(events, m) {
                assert(events[m as int] == e);
            }
        }
    }
}

/// Over a whole run: after the k-th failure in a row the round is still owed, and is tried
/// again after a pause that is the smaller of 2 to the power of k - 1 and 10.
pub proof fn law_pause_doubles_over_a_run(
    interval: u64,
    events: Seq<ThrottleEvent>,
    n: nat,
    now: u64,
)
    requires
        0 < n <= events.len(),
        events[n - 1] == (ThrottleEvent::End { now, failed: true }),
    ensures
        ({
            let s = DataplaneState::initial(interval).after_first(events, n);
            let k = failed_in_a_row(events, n);
            let doubled = vstd::arithmetic::power2::pow2((k - 1) as nat);
            &&& k >= 1
            &&& s.dirty
            &&& s.next_eligible == later(
                now,
                if doubled <= 10 {
                    doubled
                } else {
                    10
                },
            )
        }),
{
    lemma_run(interval, events, (n - 1) as nat);
    let before = failed_in_a_row(events, (n - 1) as nat);
    vstd::arithmetic::power2::lemma2_to64();
    if before > 31 {
        vstd::arithmetic::power2::lemma_pow2_strictly_increases(31, before);
    }
}

/// Over a whole run: readiness is reported at most once, and it has been reported exactly
/// where a round has succeeded after the initial read.
pub proof fn law_readiness_over_a_run(interval: u64, events: Seq<ThrottleEvent>, n: nat)
    requires
        n <= events.len(),
    ensures
        ({
            let start = DataplaneState::initial(interval);
            &&& start.reports_first(events, n) <= 1
            &&& start.reports_first(events, n) == 1 <==> served_within(events, n)
            &&& start.after_first(events, n).in_sync_reported == served_within(events, n)
        }),
{
    lemma_run(interval, events, n);
}

/// Every manager that failed is reported with its place and its own words, and no other.
pub proof fn law_every_failure_is_reported(
    results: Seq<Result<(), DataplaneError>>,
    f: (usize, DataplaneError),
)
    requires
        results.len() <= usize::MAX,
    ensures
        failures(results).contains(f) <==> f.0 < results.len() && results[f.0 as int] == Err::<
            (),
            DataplaneError,
        >(f.1),
{
    lemma_failures(results, f, results.len());
}

/// The same of the first `n` managers.
proof fn lemma_failures(
    results: Seq<Result<(), DataplaneError>>,
    f: (usize, DataplaneError),
    n: nat,
)
    requires
        n <= results.len() <= usize::MAX,
    ensures
        failures_first(results, n).contains(f) <==> f.0 < n && results[f.0 as int] == Err::<
            (),
            DataplaneError,
        >(f.1),
    decreases n,
{
    if n > 0 {
        let m = (n - 1) as nat;
        lemma_failures(results, f, m);
        let head = failures_first(results, m);
        let all = failures_first(results, n);
        if all.contains(f) {
            let i = all.index_of(f);
            if i < head.len() {
                assert(head[i] == f);
                assert(head.contains(f));
            }
        }
        if head.contains(f) {
            assert(all[head.index_of(f)] == f);
        }
        if let Err(e) = results[m as int] {
            assert(all[head.len() as int] == (m as usize, e));
        }
    }
}

} // verus!
