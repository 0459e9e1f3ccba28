//! The state of the connection to the daemon, and what to do about it next.

use std::collections::VecDeque;

use vstd::arithmetic::power2::*;
use vstd::prelude::*;

use crate::engine::error::ErrorView;
use crate::engine::{EngineError, EngineEvent, EventView};
use crate::model::format::short_id;

verus! {

/// How many recent events the indicator's menu remembers.
pub const MAX_LOG_ENTRIES: usize = 20;

/// The longest wait between two attempts, in seconds.
pub const BACKOFF_CAP: u64 = 30;

/// The wait before attempt number `attempt`: one second, doubled for every attempt
/// after the first, up to the cap.
pub open spec fn backoff_seconds(attempt: u32) -> u64 {
    let doublings: nat = if attempt == 0 {
        0
    } else {
        (attempt - 1) as nat
    };
    if pow2(doublings) < BACKOFF_CAP {
        pow2(doublings) as u64
    } else {
        BACKOFF_CAP
    }
}

/// Doubling backoff in seconds, capped. Deterministic: no jitter.
#[must_use]
pub fn backoff(attempt: u32) -> (seconds: u64)
    ensures
        seconds == backoff_seconds(attempt),
{
    proof {
        lemma2_to64();
        if attempt > 6 {
            lemma_pow2_strictly_increases(5, (attempt - 1) as nat);
        }
    }
    match attempt {
        0 | 1 => 1,
        2 => 2,
        3 => 4,
        4 => 8,
        5 => 16,
        _ => BACKOFF_CAP,
    }
}

/// Every wait is at least a second and at most the cap, and no wait is shorter than
/// the one before it.
pub proof fn law_backoff_grows_up_to_the_cap(attempt: u32, later: u32)
    requires
        attempt <= later,
    ensures
        1 <= backoff_seconds(attempt) <= backoff_seconds(later) <= BACKOFF_CAP,
{
    let a: nat = if attempt == 0 {
        0
    } else {
        (attempt - 1) as nat
    };
    let b: nat = if later == 0 {
        0
    } else {
        (later - 1) as nat
    };
    lemma_pow2_pos(a);
    lemma_pow2_pos(b);
    if a < b {
        lemma_pow2_strictly_increases(a, b);
    }
}

/// Where the connection stands.
#[derive(Debug, Clone, PartialEq, Eq)]
pub enum ActivityState {
    /// Establishing the connection, including the first attempt.
    Connecting,
    Connected,
    /// Lost, but worth retrying. The delay is in seconds.
    Reconnecting { attempt: u32, delay: u64 },
    /// Lost in a way retrying will not fix.
    Failed { reason: String, hint: Option<String> },
}

/// The value of an [`ActivityState`].
#[verifier::ext_equal]
pub enum StateView {
    Connecting,
    Connected,
    Reconnecting { attempt: u32, delay: u64 },
    Failed { reason: Seq<char>, hint: Option<Seq<char>> },
}

impl DeepView for ActivityState {
    type V = StateView;

    open spec fn deep_view(&self) -> StateView {
        match self {
            ActivityState::Connecting => StateView::Connecting,
            ActivityState::Connected => StateView::Connected,
            ActivityState::Reconnecting { attempt, delay } => StateView::Reconnecting {
                attempt: *attempt,
                delay: *delay,
            },
            ActivityState::Failed { reason, hint } => StateView::Failed {
                reason: reason@,
                hint: hint.deep_view(),
            },
        }
    }
}

impl ActivityState {
    /// Whether the event stream is open.
    #[must_use]
    pub fn is_connected(&self) -> (yes: bool)
        ensures
            yes == (self.deep_view() is Connected),
    {
        matches!(self, ActivityState::Connected)
    }
}

/// One line in the indicator's recent-activity list.
#[derive(Debug, Clone, PartialEq, Eq)]
pub struct ActivityEntry {
    pub time: i64,
    pub text: String,
}

/// The value of an [`ActivityEntry`].
#[verifier::ext_equal]
pub struct EntryView {
    pub time: i64,
    pub text: Seq<char>,
}

impl DeepView for ActivityEntry {
    type V = EntryView;

    open spec fn deep_view(&self) -> EntryView {
        EntryView { time: self.time, text: self.text@ }
    }
}

/// What the runtime tells the monitor.
#[derive(Debug, Clone)]
pub enum Signal {
    /// The event stream is open.
    Connected { at: i64 },
    /// The daemon reported an event.
    Observed(EngineEvent),
    /// The event stream broke, or could not be opened.
    Lost(EngineError),
    /// The backoff wait has finished.
    RetryElapsed,
}

/// The value of a [`Signal`].
#[verifier::ext_equal]
pub enum SignalView {
    Connected { at: i64 },
    Observed(EventView),
    Lost(ErrorView),
    RetryElapsed,
}

impl DeepView for Signal {
    type V = SignalView;

    open spec fn deep_view(&self) -> SignalView {
        match self {
            Signal::Connected { at } => SignalView::Connected { at: *at },
            Signal::Observed(event) => SignalView::Observed(event.deep_view()),
            Signal::Lost(error) => SignalView::Lost(error.deep_view()),
            Signal::RetryElapsed => SignalView::RetryElapsed,
        }
    }
}

/// What the runtime should do next.
#[derive(Debug, Clone, PartialEq, Eq)]
pub enum Effect {
    /// Open, or reopen, the event stream.
    Connect,
    /// Reload the listings.
    Refresh,
    /// Wait this many seconds, then send [`Signal::RetryElapsed`].
    WaitThen(u64),
    /// Stop trying.
    Stop,
}

/// The connection monitor: a state machine fed with signals.
#[derive(Debug, Clone)]
pub struct Activity {
    state: ActivityState,
    log: VecDeque<ActivityEntry>,
    attempt: u32,
    since: Option<i64>,
    last_event_at: Option<i64>,
}

/// The value of an [`Activity`].
#[verifier::ext_equal]
pub struct ActivityView {
    pub state: StateView,
    /// Most recent first.
    pub log: Seq<EntryView>,
    /// How many attempts have failed since the stream was last open.
    pub attempt: u32,
    /// Where a reconnect resumes from.
    pub since: Option<i64>,
    pub last_event_at: Option<i64>,
}

impl View for Activity {
    type V = ActivityView;

    closed spec fn view(&self) -> ActivityView {
        ActivityView {
            state: self.state.deep_view(),
            log: self.log.deep_view(),
            attempt: self.attempt,
            since: self.since,
            last_event_at: self.last_event_at,
        }
    }
}

/// A monitor that has seen nothing yet.
pub open spec fn fresh() -> ActivityView {
    ActivityView {
        state: StateView::Connecting,
        log: seq![],
        attempt: 0,
        since: None,
        last_event_at: None,
    }
}

/// The line that an event is shown as.
pub open spec fn described(event: EventView) -> Seq<char> {
    let subject = match event.actor_name {
        Some(name) => if name.len() > 0 {
            name
        } else {
            crate::model::format::short_text(event.actor_id)
        },
        None => crate::model::format::short_text(event.actor_id),
    };
    let kind = if event.kind.len() == 0 {
        "event"@
    } else {
        event.kind
    };
    let action = if event.action.len() == 0 {
        "changed"@
    } else {
        event.action
    };
    if subject.len() == 0 {
        kind + " "@ + action
    } else {
        kind + " "@ + action + ": "@ + subject
    }
}

/// The log entry that an event becomes.
pub open spec fn entry_of(event: EventView) -> EntryView {
    EntryView { time: event.time, text: described(event) }
}

/// At most the first `MAX_LOG_ENTRIES` entries.
pub open spec fn latest(entries: Seq<EntryView>) -> Seq<EntryView> {
    if entries.len() > MAX_LOG_ENTRIES {
        entries.take(MAX_LOG_ENTRIES as int)
    } else {
        entries
    }
}

/// A count that stays at its largest value.
pub open spec fn next_attempt(attempt: u32) -> u32 {
    if attempt == u32::MAX {
        u32::MAX
    } else {
        (attempt + 1) as u32
    }
}

/// Whether an event makes the listings stale.
pub open spec fn stales_listings(event: EventView) -> bool {
    event.kind == "container"@ || event.kind == "image"@
}

/// The monitor after a signal.
pub open spec fn applied(activity: ActivityView, signal: SignalView) -> ActivityView {
    match signal {
        SignalView::Connected { at } => ActivityView {
            state: StateView::Connected,
            attempt: 0,
            since: if activity.since is Some {
                activity.since
            } else {
                Some(at)
            },
            ..activity
        },
        SignalView::Observed(event) => ActivityView {
            log: latest(seq![entry_of(event)] + activity.log),
            since: Some(event.time),
            last_event_at: Some(event.time),
            ..activity
        },
        SignalView::Lost(error) => if error.transient() {
            ActivityView {
                state: StateView::Reconnecting {
                    attempt: next_attempt(activity.attempt),
                    delay: backoff_seconds(next_attempt(activity.attempt)),
                },
                attempt: next_attempt(activity.attempt),
                ..activity
            }
        } else {
            ActivityView {
                state: StateView::Failed { reason: error.message(), hint: error.advice() },
                ..activity
            }
        },
        SignalView::RetryElapsed => ActivityView { state: StateView::Connecting, ..activity },
    }
}

/// What is to be done after a signal.
pub open spec fn effects_of(activity: ActivityView, signal: SignalView) -> Seq<Effect> {
    match signal {
        SignalView::Connected { .. } => seq![Effect::Refresh],
        SignalView::Observed(event) => if stales_listings(event) {
            seq![Effect::Refresh]
        } else {
            seq![]
        },
        SignalView::Lost(error) => if error.transient() {
            seq![Effect::WaitThen(backoff_seconds(next_attempt(activity.attempt)))]
        } else {
            seq![Effect::Stop]
        },
        SignalView::RetryElapsed => seq![Effect::Connect],
    }
}

/// A monitor that starts afresh and is fed a run of signals.
pub open spec fn after(signals: Seq<SignalView>) -> ActivityView
    decreases signals.len(),
{
    if signals.len() == 0 {
        fresh()
    } else {
        applied(after(signals.drop_last()), signals.last())
    }
}

/// The entries of the events in a run of signals, the latest first.
pub open spec fn entries_in(signals: Seq<SignalView>) -> Seq<EntryView>
    decreases signals.len(),
{
    if signals.len() == 0 {
        seq![]
    } else {
        let earlier = entries_in(signals.drop_last());
        match signals.last() {
            SignalView::Observed(event) => seq![entry_of(event)] + earlier,
            _ => earlier,
        }
    }
}

/// The log always holds the latest events, newest first, and never more than
/// `MAX_LOG_ENTRIES` of them.
pub proof fn law_log_holds_the_latest_events(signals: Seq<SignalView>)
    ensures
        after(signals).log == latest(entries_in(signals)),
        after(signals).log.len() <= MAX_LOG_ENTRIES,
    decreases signals.len(),
{
    if signals.len() > 0 {
        let rest = signals.drop_last();
        law_log_holds_the_latest_events(rest);
        if let SignalView::Observed(event) = signals.last() {
            let all = entries_in(rest);
            let e = seq![entry_of(event)];
            assert(latest(e + latest(all)) =~= latest(e + all));
        }
    }
}

/// Losing the connection and waiting for it, however often, keeps the point that the
/// event stream resumes from, the log, and the time of the last event; opening the
/// stream again keeps them too.
pub proof fn law_reconnecting_loses_nothing(
    activity: ActivityView,
    error: ErrorView,
    at: i64,
    again: i64,
)
    ensures
        ({
            let open = applied(activity, SignalView::Connected { at });
            let lost = applied(open, SignalView::Lost(error));
            let waited = applied(lost, SignalView::RetryElapsed);
            let back = applied(waited, SignalView::Connected { at: again });
            &&& open.since is Some
            &&& lost.since == open.since && lost.log == open.log && lost.last_event_at
                == open.last_event_at
            &&& waited.since == open.since && waited.log == open.log && waited.last_event_at
                == open.last_event_at
            &&& back.since == open.since && back.log == open.log && back.last_event_at
                == open.last_event_at
        }),
{
}

/// Once the stream has been open, every later attempt has a point to resume from.
pub proof fn law_resume_point_stays(signals: Seq<SignalView>, at: int)
    requires
        0 <= at < signals.len(),
        signals[at] is Connected || signals[at] is Observed,
    ensures
        after(signals).since is Some,
    decreases signals.len(),
{
    if at < signals.len() - 1 {
        assert(signals.drop_last()[at] == signals[at]);
        law_resume_point_stays(signals.drop_last(), at);
    }
}

/// A run of `losses` failed attempts, each followed by its wait.
pub open spec fn failed_attempts(activity: ActivityView, error: ErrorView, losses: nat) -> ActivityView
    decreases losses,
{
    if losses == 0 {
        activity
    } else {
        applied(
            applied(
                failed_attempts(activity, error, (losses - 1) as nat),
                SignalView::Lost(error),
            ),
            SignalView::RetryElapsed,
        )
    }
}

proof fn lemma_failed_attempts(activity: ActivityView, error: ErrorView, losses: nat)
    requires
        error.transient(),
        activity.attempt == 0,
        losses <= u32::MAX,
    ensures
        failed_attempts(activity, error, losses).attempt == losses,
    decreases losses,
{
    if losses > 0 {
        lemma_failed_attempts(activity, error, (losses - 1) as nat);
    }
}

/// Each failed attempt in a row waits as long as its number says, and a connection
/// that opens starts the count again.
pub proof fn law_waits_follow_the_attempts(
    activity: ActivityView,
    at: i64,
    error: ErrorView,
    losses: nat,
)
    requires
        error.transient(),
        losses < u32::MAX,
    ensures
        ({
            let open = applied(activity, SignalView::Connected { at });
            let waiting = failed_attempts(open, error, losses);
            effects_of(waiting, SignalView::Lost(error)) == seq![
                Effect::WaitThen(backoff_seconds((losses + 1) as u32)),
            ]
        }),
{
    let open = applied(activity, SignalView::Connected { at });
    lemma_failed_attempts(open, error, losses);
}

impl Default for Activity {
    fn default() -> (activity: Self)
        ensures
            activity@ == fresh(),
    {
        Self::new()
    }
}

impl Activity {
    /// A monitor that has seen nothing yet.
    #[must_use]
    pub fn new() -> (activity: Self)
        ensures
            activity@ == fresh(),
    {
        let log: VecDeque<ActivityEntry> = VecDeque::new();
        assert(log.deep_view() =~= seq![]);
        Self { state: ActivityState::Connecting, log, attempt: 0, since: None, last_event_at: None }
    }

    /// Where the connection stands.
    #[must_use]
    pub fn state(&self) -> (state: &ActivityState)
        ensures
            state.deep_view() == self@.state,
    {
        &self.state
    }

    /// The recent events, most recent first.
    #[must_use]
    pub fn log(&self) -> (log: &VecDeque<ActivityEntry>)
        ensures
            log.deep_view() == self@.log,
    {
        &self.log
    }

    /// When the daemon last reported something.
    #[must_use]
    pub fn last_event_at(&self) -> (time: Option<i64>)
        ensures
            time == self@.last_event_at,
    {
        self.last_event_at
    }

    /// Where a reconnect should resume from, so events in the gap are not lost.
    #[must_use]
    pub fn since(&self) -> (time: Option<i64>)
        ensures
            time == self@.since,
    {
        self.since
    }

    /// Takes a signal in and says what to do next.
    pub fn apply(&mut self, signal: Signal) -> (effects: Vec<Effect>)
        ensures
            final(self)@ == applied(old(self)@, signal.deep_view()),
            effects@ == effects_of(old(self)@, signal.deep_view()),
    {
        let mut effects: Vec<Effect> = Vec::new();
        match signal {
            Signal::Connected { at } => {
                self.state = ActivityState::Connected;
                self.attempt = 0;
                if self.since.is_none() {
                    self.since = Some(at);
                }
                effects.push(Effect::Refresh);
            },
            Signal::Observed(event) => {
                self.record(&event);
                if event.affects_listing() {
                    effects.push(Effect::Refresh);
                }
            },
            Signal::Lost(error) => {
                if error.is_transient() {
                    if self.attempt < u32::MAX {
                        self.attempt = self.attempt + 1;
                    }
                    let delay: u64 = backoff(self.attempt);
                    self.state = ActivityState::Reconnecting { attempt: self.attempt, delay };
                    effects.push(Effect::WaitThen(delay));
                } else {
                    let hint = match error.hint() {
                        Some(hint) => Some(hint.to_owned()),
                        None => None,
                    };
                    self.state = ActivityState::Failed { reason: error.to_string(), hint };
                    effects.push(Effect::Stop);
                }
            },
            Signal::RetryElapsed => {
                self.state = ActivityState::Connecting;
                effects.push(Effect::Connect);
            },
        }
        effects
    }

    /// Puts an event at the head of the log.
    fn record(&mut self, event: &EngineEvent)
        ensures
            final(self)@ == applied(old(self)@, SignalView::Observed(event.deep_view())),
    {
        let ghost before = self@.log;
        self.last_event_at = Some(event.time);
        self.since = Some(event.time);
        self.log.push_front(ActivityEntry { time: event.time, text: describe(event) });
        assert(self.log.deep_view() =~= seq![entry_of(event.deep_view())] + before);
        let ghost longer = self.log.deep_view();
        self.log.truncate(MAX_LOG_ENTRIES);
        assert(self.log.deep_view() =~= latest(longer));
    }
}

/// One event, as a line of text.
#[must_use]
pub fn describe(event: &EngineEvent) -> (line: String)
    ensures
        line@ == described(event.deep_view()),
{
    let subject = match &event.actor_name {
        Some(name) => if !name.as_str().is_empty() {
            name.clone()
        } else {
            short_id(event.actor_id.as_str())
        },
        None => short_id(event.actor_id.as_str()),
    };
    let kind = if event.kind.as_str().is_empty() {
        "event"
    } else {
        event.kind.as_str()
    };
    let action = if event.action.as_str().is_empty() {
        "changed"
    } else {
        event.action.as_str()
    };
    let line = kind.to_owned().concat(" ").concat(action);
    if subject.as_str().is_empty() {
        line
    } else {
        line.concat(": ").concat(subject.as_str())
    }
}

/// An event is told by its kind, what happened and to whom: the name of the object, or its
/// short id where it has none; an event that leaves a part out is told without it.
pub proof fn law_events_are_told_in_full(event: EventView, name: Seq<char>)
    ensures
        event.kind.len() > 0 && event.action.len() > 0 && event.actor_name == Some(name)
            && name.len() > 0 ==> described(event) == event.kind + " "@ + event.action + ": "@
            + name,
        event.kind.len() > 0 && event.action.len() > 0 && event.actor_name is None
            && crate::model::format::short_text(event.actor_id).len() > 0 ==> described(event)
            == event.kind + " "@ + event.action + ": "@ + crate::model::format::short_text(
            event.actor_id,
        ),
        event.kind.len() > 0 && event.action.len() > 0 && event.actor_name is None
            && event.actor_id.len() == 0 ==> described(event) == event.kind + " "@ + event.action,
        event.kind.len() == 0 ==> "event "@.is_prefix_of(described(event)),
        event.kind.len() > 0 && event.action.len() == 0 ==> (event.kind + " changed"@).is_prefix_of(
            described(event),
        ),
{
    reveal_strlit("event ");
    reveal_strlit("event");
    reveal_strlit(" ");
    reveal_strlit(" changed");
    reveal_strlit("changed");
    let said = described(event);
    if event.kind.len() == 0 {
        assert(said.subrange(0, 6) =~= "event "@);
    }
    if event.kind.len() > 0 && event.action.len() == 0 {
        let front = event.kind + " changed"@;
        assert(said.subrange(0, front.len() as int) =~= front);
    }
    if event.actor_id.len() == 0 {
        assert(crate::text::find(event.actor_id, ':') == 0);
        assert(crate::model::format::short_text(event.actor_id).len() == 0);
    }
}

/// An event is logged first of all, at its own time, which is where the stream then resumes;
/// it says nothing of the connection. The listings are reloaded for events of containers and
/// of images alone.
pub proof fn law_events_are_logged_as_they_come(activity: ActivityView, event: EventView)
    ensures
        ({
            let next = applied(activity, SignalView::Observed(event));
            &&& next.log[0].time == event.time
            &&& next.log[0].text == described(event)
            &&& activity.log.len() < MAX_LOG_ENTRIES ==> next.log.skip(1) == activity.log
            &&& next.since == Some(event.time)
            &&& next.last_event_at == Some(event.time)
            &&& next.state == activity.state
            &&& next.attempt == activity.attempt
        }),
        effects_of(activity, SignalView::Observed(event)).contains(Effect::Refresh) <==> event.kind
            == "container"@ || event.kind == "image"@,
        effects_of(activity, SignalView::Observed(event)).len() <= 1,
{
    let next = applied(activity, SignalView::Observed(event));
    let all = seq![entry_of(event)] + activity.log;
    assert(all[0] == entry_of(event));
    if activity.log.len() < MAX_LOG_ENTRIES {
        assert(next.log.skip(1) =~= activity.log);
    }
    if stales_listings(event) {
        assert(effects_of(activity, SignalView::Observed(event))[0] == Effect::Refresh);
    }
}

/// Opening the stream reloads the listings and starts the count of attempts over; a loss is
/// waited out and counted, if waiting can help, and ends the attempts with its reason if it
/// cannot; after the wait the stream is opened again.
pub proof fn law_the_connection_is_kept_up(activity: ActivityView, error: ErrorView, at: i64)
    ensures
        ({
            let open = applied(activity, SignalView::Connected { at });
            let lost = applied(activity, SignalView::Lost(error));
            let waited = applied(activity, SignalView::RetryElapsed);
            &&& open.state is Connected && open.attempt == 0
            &&& effects_of(activity, SignalView::Connected { at }) == seq![Effect::Refresh]
            &&& activity.since is None ==> open.since == Some(at)
            &&& error.transient() && activity.attempt < u32::MAX ==> {
                &&& lost.attempt == activity.attempt + 1
                &&& lost.state matches StateView::Reconnecting { attempt, delay }
                &&& attempt == lost.attempt
                &&& effects_of(activity, SignalView::Lost(error)) == seq![Effect::WaitThen(delay)]
                &&& activity.attempt == 0 ==> delay == 1
                &&& activity.attempt == 1 ==> delay == 2
                &&& activity.attempt == 2 ==> delay == 4
                &&& activity.attempt == 3 ==> delay == 8
                &&& activity.attempt == 4 ==> delay == 16
                &&& activity.attempt >= 5 ==> delay == 30
            }
            &&& !error.transient() ==> {
                &&& lost.state == (StateView::Failed {
                    reason: error.message(),
                    hint: error.advice(),
                })
                &&& effects_of(activity, SignalView::Lost(error)) == seq![Effect::Stop]
            }
            &&& waited.state is Connecting && waited.attempt == activity.attempt
            &&& effects_of(activity, SignalView::RetryElapsed) == seq![Effect::Connect]
        }),
{
    lemma2_to64();
    if activity.attempt > 5 {
        lemma_pow2_strictly_increases(5, activity.attempt as nat);
    }
}

} // verus!
