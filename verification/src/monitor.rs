//! Watching PipeWire for changes: what the monitor reports, how `pw-dump
//! --monitor` output is read, and how bursts of reports are coalesced into
//! few refreshes.
use vstd::prelude::*;

use crate::text::{has_char, has_char_exec, push_str, string_from_chars};

verus! {

/// Events sent from the monitor to the window.
#[derive(Debug, Clone)]
pub enum MonitorEvent {
    /// Streams have changed — the window should refresh.
    StreamsChanged,
    /// The monitor encountered an error.
    Error(String),
}

// ---------------------------------------------------------------------------
// `pw-dump --monitor` output.
// ---------------------------------------------------------------------------

/// How a character moves the bracket depth.
pub open spec fn bracket_delta(c: char) -> int {
    if c == '[' {
        1
    } else if c == ']' {
        -1
    } else {
        0
    }
}

/// The bracket depth after the characters of `s`, from `depth` on.
pub open spec fn depth_after(depth: int, s: Seq<char>) -> int
    decreases s.len(),
{
    if s.len() == 0 {
        depth
    } else {
        depth_after(depth, s.drop_last()) + bracket_delta(s.last())
    }
}

/// Every depth reached while reading `s` from `depth` fits in an `i32`.
pub open spec fn depth_fits(depth: int, s: Seq<char>) -> bool {
    forall|k: int|
        0 <= k <= s.len() ==> i32::MIN <= #[trigger] depth_after(depth, s.take(k)) <= i32::MAX
}

/// What a line of `pw-dump --monitor` output means: the new bracket depth,
/// and whether the line closed a top-level JSON array, which is when
/// PipeWire's state has changed.
pub open spec fn pw_dump_line(depth: int, line: Seq<char>) -> (int, bool) {
    let d = depth_after(depth, line);
    (d, d == 0 && has_char(line, ']'))
}

/// Reads `pw-dump --monitor` output line by line and tells when a dump of
/// PipeWire's state is complete. pw-dump writes each dump as a JSON array
/// over many lines, so the watch tracks the bracket depth across lines.
#[derive(Debug, Clone, Copy)]
pub struct PwDumpWatch {
    pub depth: i32,
}

impl PwDumpWatch {
    pub fn new() -> (w: PwDumpWatch)
        ensures
            w.depth == 0,
    {
        PwDumpWatch { depth: 0 }
    }

    /// Whether `feed_line` can take `line`: every depth reached while reading
    /// it fits in an `i32` (see `depth_fits`).
    pub fn can_feed(&self, line: &str) -> (r: bool)
        ensures
            r == depth_fits(self.depth as int, line@),
    {
        let v = crate::text::chars_of(line);
        let ghost start = self.depth as int;
        let mut d: i64 = self.depth as i64;
        let mut i: usize = 0;
        assert(v@.take(0) =~= Seq::<char>::empty());
        while i < v.len()
            invariant
                i <= v.len(),
                v@ == line@,
                start == self.depth as int,
                d == depth_after(start, v@.take(i as int)),
                i32::MIN <= d <= i32::MAX,
                forall|k: int|
                    0 <= k <= i ==> i32::MIN <= #[trigger] depth_after(start, v@.take(k))
                        <= i32::MAX,
            decreases v.len() - i,
        {
            let c = v[i];
            assert(v@.take(i + 1).drop_last() =~= v@.take(i as int));
            if c == '[' {
                d = d + 1;
            } else if c == ']' {
                d = d - 1;
            }
            i += 1;
            if d < i32::MIN as i64 || d > i32::MAX as i64 {
                assert(!(i32::MIN <= depth_after(start, v@.take(i as int)) <= i32::MAX));
                return false;
            }
        }
        assert(v@.take(v.len() as int) =~= v@);
        true
    }

    /// Takes in one line; `true` when the line completed a dump (see
    /// `pw_dump_line`). The depth is an `i32` whose overflow is an error,
    /// hence the precondition.
    pub fn feed_line(&mut self, line: &str) -> (changed: bool)
        requires
            depth_fits(old(self).depth as int, line@),
        ensures
            (final(self).depth as int, changed) == pw_dump_line(old(self).depth as int, line@),
    {
        let v = crate::text::chars_of(line);
        let ghost start = self.depth as int;
        let mut i: usize = 0;
        assert(v@.take(0) =~= Seq::<char>::empty());
        while i < v.len()
            invariant
                i <= v.len(),
                v@ == line@,
                depth_fits(start, v@),
                self.depth == depth_after(start, v@.take(i as int)),
            decreases v.len() - i,
        {
            let c = v[i];
            assert(v@.take(i + 1).drop_last() =~= v@.take(i as int));
            assert(i32::MIN <= depth_after(start, v@.take(i + 1)) <= i32::MAX);
            if c == '[' {
                self.depth = self.depth + 1;
            } else if c == ']' {
                self.depth = self.depth - 1;
            }
            i += 1;
        }
        assert(v@.take(v.len() as int) =~= v@);
        self.depth == 0 && has_char_exec(&v, ']')
    }
}

// ---------------------------------------------------------------------------
// Coalescing monitor events.
// ---------------------------------------------------------------------------

/// What the window's event loop is told.
#[derive(Debug, Clone)]
pub enum MonitorInput {
    /// An event from the monitor.
    Event(MonitorEvent),
    /// The delay after a change has passed.
    RefreshDue,
    /// The quiet period after a refresh has passed.
    CooldownOver,
}

/// How long after a change the streams are refreshed, in milliseconds.
pub const REFRESH_DELAY_MS: u64 = 500;

/// How long after a refresh no other is scheduled, in milliseconds.
pub const COOLDOWN_MS: u64 = 500;

/// What the window's event loop does in answer.
#[derive(Debug, Clone)]
pub enum MonitorAction {
    Nothing,
    /// Tell the loop `RefreshDue` after this many milliseconds.
    ScheduleRefresh(u64),
    /// Drop the events queued meanwhile, refresh the streams, and tell the
    /// loop `CooldownOver` after this many milliseconds.
    RefreshAndCooldown(u64),
    /// Announce the message to screen readers.
    Announce(String),
}

/// The spec form of a `MonitorAction`.
pub enum ActionModel {
    Nothing,
    ScheduleRefresh(u64),
    RefreshAndCooldown(u64),
    Announce(Seq<char>),
}

impl View for MonitorAction {
    type V = ActionModel;

    open spec fn view(&self) -> ActionModel {
        match self {
            MonitorAction::Nothing => ActionModel::Nothing,
            MonitorAction::ScheduleRefresh(d) => ActionModel::ScheduleRefresh(*d),
            MonitorAction::RefreshAndCooldown(d) => ActionModel::RefreshAndCooldown(*d),
            MonitorAction::Announce(m) => ActionModel::Announce(m@),
        }
    }
}

/// The spec form of a `MonitorInput`.
pub enum InputModel {
    StreamsChanged,
    Error(Seq<char>),
    RefreshDue,
    CooldownOver,
}

impl View for MonitorInput {
    type V = InputModel;

    open spec fn view(&self) -> InputModel {
        match self {
            MonitorInput::Event(MonitorEvent::StreamsChanged) => InputModel::StreamsChanged,
            MonitorInput::Event(MonitorEvent::Error(m)) => InputModel::Error(m@),
            MonitorInput::RefreshDue => InputModel::RefreshDue,
            MonitorInput::CooldownOver => InputModel::CooldownOver,
        }
    }
}

/// Where the coalescing is: idle, waiting to refresh since a change at
/// `since`, or in the quiet period after a refresh at `since` (times in
/// milliseconds).
#[derive(Debug, Clone, Copy, PartialEq, Eq, Structural)]
pub enum Phase {
    Idle,
    Pending { since: u64 },
    Cooling { since: u64 },
}

/// The next phase and the action for an input at time `now`. A change when
/// idle schedules a refresh; a change while one is pending or cooling down
/// is dropped. The refresh happens once its delay has passed, and the next
/// change is taken once the quiet period has passed; a timer input that
/// comes early or in another phase does nothing. Errors are announced.
pub open spec fn debounce(phase: Phase, input: InputModel, now: u64) -> (Phase, ActionModel) {
    match input {
        InputModel::StreamsChanged => match phase {
            Phase::Idle => (Phase::Pending { since: now }, ActionModel::ScheduleRefresh(REFRESH_DELAY_MS)),
            _ => (phase, ActionModel::Nothing),
        },
        InputModel::Error(m) => (phase, ActionModel::Announce("Audio monitor error: "@ + m)),
        InputModel::RefreshDue => match phase {
            Phase::Pending { since } => if now >= since + REFRESH_DELAY_MS {
                (Phase::Cooling { since: now }, ActionModel::RefreshAndCooldown(COOLDOWN_MS))
            } else {
                (phase, ActionModel::Nothing)
            },
            _ => (phase, ActionModel::Nothing),
        },
        InputModel::CooldownOver => match phase {
            Phase::Cooling { since } => if now >= since + COOLDOWN_MS {
                (Phase::Idle, ActionModel::Nothing)
            } else {
                (phase, ActionModel::Nothing)
            },
            _ => (phase, ActionModel::Nothing),
        },
    }
}

/// Coalesces the monitor's change events: at most one refresh is pending or
/// cooling down at a time.
#[derive(Debug, Clone, Copy)]
pub struct Debouncer {
    pub phase: Phase,
}

impl Debouncer {
    pub fn new() -> (d: Debouncer)
        ensures
            d.phase == Phase::Idle,
    {
        Debouncer { phase: Phase::Idle }
    }

    /// Takes in an input at time `now_ms` and says what to do (see
    /// `debounce`).
    pub fn step(&mut self, input: MonitorInput, now_ms: u64) -> (a: MonitorAction)
        ensures
            (final(self).phase, a@) == debounce(old(self).phase, input@, now_ms),
    {
        match input {
            MonitorInput::Event(MonitorEvent::StreamsChanged) => match self.phase {
                Phase::Idle => {
                    self.phase = Phase::Pending { since: now_ms };
                    MonitorAction::ScheduleRefresh(REFRESH_DELAY_MS)
                },
                _ => MonitorAction::Nothing,
            },
            MonitorInput::Event(MonitorEvent::Error(msg)) => {
                let mut m: Vec<char> = Vec::new();
                push_str(&mut m, "Audio monitor error: ");
                push_str(&mut m, msg.as_str());
                MonitorAction::Announce(string_from_chars(m))
            },
            MonitorInput::RefreshDue => match self.phase {
                Phase::Pending { since } => {
                    if now_ms >= since && now_ms - since >= REFRESH_DELAY_MS {
                        self.phase = Phase::Cooling { since: now_ms };
                        MonitorAction::RefreshAndCooldown(COOLDOWN_MS)
                    } else {
                        MonitorAction::Nothing
                    }
                },
                _ => MonitorAction::Nothing,
            },
            MonitorInput::CooldownOver => match self.phase {
                Phase::Cooling { since } => {
                    if now_ms >= since && now_ms - since >= COOLDOWN_MS {
                        self.phase = Phase::Idle;
                    }
                    MonitorAction::Nothing
                },
                _ => MonitorAction::Nothing,
            },
        }
    }

    /// Whether a refresh is pending or cooling down.
    pub fn refresh_scheduled(&self) -> (r: bool)
        ensures
            r == !(self.phase is Idle),
    {
        match self.phase {
            Phase::Idle => false,
            _ => true,
        }
    }
}

// ---------------------------------------------------------------------------
// Laws.
// ---------------------------------------------------------------------------

/// Reading `a` and then `b` leaves the same bracket depth as reading them
/// as one text: where pw-dump breaks its lines does not matter.
pub proof fn law_depth_over_concatenation(depth: int, a: Seq<char>, b: Seq<char>)
    ensures
        depth_after(depth, a + b) == depth_after(depth_after(depth, a), b),
    decreases b.len(),
{
    if b.len() == 0 {
        assert(a + b =~= a);
    } else {
        assert((a + b).drop_last() =~= a + b.drop_last());
        assert((a + b).last() == b.last());
        law_depth_over_concatenation(depth, a, b.drop_last());
    }
}

/// An input and the time (in milliseconds) at which it arrives.
pub struct TimedInput {
    pub at: u64,
    pub input: InputModel,
}

/// The actions that a sequence of timed inputs causes, from a phase on.
pub open spec fn debounce_run(phase: Phase, inputs: Seq<TimedInput>) -> Seq<ActionModel>
    decreases inputs.len(),
{
    if inputs.len() == 0 {
        Seq::empty()
    } else {
        let (next, act) = debounce(phase, inputs[0].input, inputs[0].at);
        seq![act] + debounce_run(next, inputs.drop_first())
    }
}

/// How many refreshes the actions schedule.
pub open spec fn scheduled_count(acts: Seq<ActionModel>) -> nat
    decreases acts.len(),
{
    if acts.len() == 0 {
        0
    } else {
        (if acts[0] is ScheduleRefresh {
            1nat
        } else {
            0nat
        }) + scheduled_count(acts.drop_first())
    }
}

/// How many quiet-period ends arrive among the inputs.
pub open spec fn cooldown_count(inputs: Seq<TimedInput>) -> nat
    decreases inputs.len(),
{
    if inputs.len() == 0 {
        0
    } else {
        (if inputs[0].input is CooldownOver {
            1nat
        } else {
            0nat
        }) + cooldown_count(inputs.drop_first())
    }
}

/// However many changes the monitor reports, a refresh is scheduled only
/// when none is pending or cooling down: from the idle phase, at most one
/// more refresh is scheduled than quiet periods end (and none more while one
/// is already pending or cooling down).
pub proof fn law_refreshes_are_coalesced(phase: Phase, inputs: Seq<TimedInput>)
    ensures
        scheduled_count(debounce_run(phase, inputs)) <= cooldown_count(inputs) + (if phase is Idle {
            1nat
        } else {
            0nat
        }),
    decreases inputs.len(),
{
    if inputs.len() > 0 {
        let (next, act) = debounce(phase, inputs[0].input, inputs[0].at);
        law_refreshes_are_coalesced(next, inputs.drop_first());
        let acts = debounce_run(phase, inputs);
        assert(acts[0] == act);
        assert(acts.drop_first() =~= debounce_run(next, inputs.drop_first()));
    }
}

proof fn lemma_run_len(phase: Phase, inputs: Seq<TimedInput>)
    ensures
        debounce_run(phase, inputs).len() == inputs.len(),
    decreases inputs.len(),
{
    if inputs.len() > 0 {
        let (next, act) = debounce(phase, inputs[0].input, inputs[0].at);
        lemma_run_len(next, inputs.drop_first());
    }
}

/// The times of the inputs never go back.
pub open spec fn in_time_order(inputs: Seq<TimedInput>) -> bool {
    forall|i: int, j: int| 0 <= i < j < inputs.len() ==> inputs[i].at <= inputs[j].at
}

/// The earliest time at which a refresh can happen, from a phase entered at
/// or before `t0`.
pub open spec fn earliest_refresh(phase: Phase, t0: int) -> int {
    match phase {
        Phase::Idle => t0 + REFRESH_DELAY_MS,
        Phase::Pending { since } => since + REFRESH_DELAY_MS,
        Phase::Cooling { since } => since + COOLDOWN_MS + REFRESH_DELAY_MS,
    }
}

proof fn lemma_refresh_not_before(phase: Phase, inputs: Seq<TimedInput>, t0: int)
    requires
        in_time_order(inputs),
        forall|i: int| 0 <= i < inputs.len() ==> inputs[i].at >= t0,
    ensures
        forall|j: int|
            0 <= j < inputs.len() && (#[trigger] debounce_run(phase, inputs)[j]) is RefreshAndCooldown
                ==> inputs[j].at >= earliest_refresh(phase, t0),
    decreases inputs.len(),
{
    if inputs.len() > 0 {
        let t = inputs[0].at;
        let (next, act) = debounce(phase, inputs[0].input, t);
        let rest = inputs.drop_first();
        assert forall|i: int, j: int| 0 <= i < j < rest.len() implies rest[i].at <= rest[j].at by {
            assert(rest[i] == inputs[i + 1] && rest[j] == inputs[j + 1]);
        }
        assert forall|i: int| 0 <= i < rest.len() implies rest[i].at >= t by {
            assert(rest[i] == inputs[i + 1]);
        }
        lemma_refresh_not_before(next, rest, t as int);
        lemma_run_len(next, rest);
        assert(earliest_refresh(next, t as int) >= earliest_refresh(phase, t0));
        let acts = debounce_run(phase, inputs);
        assert(acts.drop_first() =~= debounce_run(next, rest));
        assert forall|j: int|
            0 <= j < inputs.len() && (#[trigger] acts[j]) is RefreshAndCooldown implies inputs[j].at
            >= earliest_refresh(phase, t0) by {
            if j > 0 {
                assert(acts[j] == debounce_run(next, rest)[j - 1]);
                assert(inputs[j] == rest[j - 1]);
            }
        }
    }
}

/// Refreshes are at least a second apart (`REFRESH_DELAY_MS` plus
/// `COOLDOWN_MS`), however the monitor's changes and the timers arrive, as
/// long as time does not go back.
pub proof fn law_refreshes_one_second_apart(phase: Phase, inputs: Seq<TimedInput>)
    requires
        in_time_order(inputs),
    ensures
        forall|i: int, j: int|
            0 <= i < j < inputs.len() && (#[trigger] debounce_run(phase, inputs)[i]) is RefreshAndCooldown
                && (#[trigger] debounce_run(phase, inputs)[j]) is RefreshAndCooldown ==> inputs[j].at
                >= inputs[i].at + 1000,
    decreases inputs.len(),
{
    if inputs.len() > 0 {
        let t = inputs[0].at;
        let (next, act) = debounce(phase, inputs[0].input, t);
        let rest = inputs.drop_first();
        assert forall|i: int, j: int| 0 <= i < j < rest.len() implies rest[i].at <= rest[j].at by {
            assert(rest[i] == inputs[i + 1] && rest[j] == inputs[j + 1]);
        }
        assert forall|i: int| 0 <= i < rest.len() implies rest[i].at >= t by {
            assert(rest[i] == inputs[i + 1]);
        }
        law_refreshes_one_second_apart(next, rest);
        lemma_refresh_not_before(next, rest, t as int);
        lemma_run_len(next, rest);
        let acts = debounce_run(phase, inputs);
        let racts = debounce_run(next, rest);
        assert(acts.drop_first() =~= racts);
        assert forall|i: int, j: int|
            0 <= i < j < inputs.len() && (#[trigger] acts[i]) is RefreshAndCooldown
                && (#[trigger] acts[j]) is RefreshAndCooldown implies inputs[j].at >= inputs[i].at
            + 1000 by {
            assert(acts[j] == racts[j - 1]);
            assert(inputs[j] == rest[j - 1]);
            if i > 0 {
                assert(acts[i] == racts[i - 1]);
                assert(inputs[i] == rest[i - 1]);
            } else {
                assert(acts[0] == act);
                assert(next == Phase::Cooling { since: t });
            }
        }
    }
}

} // verus!
