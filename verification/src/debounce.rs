//! When a debounced operation runs: after a quiet period with no further
//! request, or at once when a caller asks for it now.
//!
//! The worker waits for a request; a `Schedule` starts a quiet period, which
//! every further `Schedule` restarts, and which ends - running the operation
//! - when it passes without one or when a `Now` arrives. A `Now` while idle
//! runs the operation straight away. A closed channel ends the worker, and a
//! quiet period cut short by it does not run the operation.
use vstd::prelude::*;

verus! {

/// Where the worker is.
#[derive(Debug, Clone, Copy, PartialEq, Eq, Structural)]
pub enum DebounceState {
    /// Waiting for a first request.
    Idle,
    /// In a quiet period, waiting for it to pass.
    Quiet,
    /// Gone: the channel closed.
    Done,
}

/// What the worker learned while waiting.
#[derive(Debug, Clone, Copy, PartialEq, Eq, Structural)]
pub enum DebounceEvent {
    /// A request to run after a quiet period.
    Schedule,
    /// A request to run now.
    Now,
    /// The quiet period passed with no request.
    Elapsed,
    /// The channel closed.
    Closed,
}

/// What the worker does next.
#[derive(Debug, Clone, Copy, PartialEq, Eq, Structural)]
pub enum DebounceAction {
    /// Wait for a first request, however long it takes.
    WaitForRequest,
    /// Wait out the quiet period.
    WaitQuietly,
    /// Run the operation, then wait for a first request.
    Run,
    /// Stop.
    Stop,
}

/// The worker's next state and what it does, given what it learned.
pub open spec fn debounce_step(s: DebounceState, e: DebounceEvent) -> (DebounceState, DebounceAction) {
    match s {
        DebounceState::Idle => match e {
            DebounceEvent::Schedule => (DebounceState::Quiet, DebounceAction::WaitQuietly),
            DebounceEvent::Now => (DebounceState::Idle, DebounceAction::Run),
            DebounceEvent::Elapsed => (DebounceState::Idle, DebounceAction::WaitForRequest),
            DebounceEvent::Closed => (DebounceState::Done, DebounceAction::Stop),
        },
        DebounceState::Quiet => match e {
            DebounceEvent::Schedule => (DebounceState::Quiet, DebounceAction::WaitQuietly),
            DebounceEvent::Now => (DebounceState::Idle, DebounceAction::Run),
            DebounceEvent::Elapsed => (DebounceState::Idle, DebounceAction::Run),
            DebounceEvent::Closed => (DebounceState::Done, DebounceAction::Stop),
        },
        DebounceState::Done => (DebounceState::Done, DebounceAction::Stop),
    }
}

/// The worker's next state and what it does, given what it learned.
pub fn next_step(s: DebounceState, e: DebounceEvent) -> (r: (DebounceState, DebounceAction))
    ensures
        r == debounce_step(s, e),
        e == DebounceEvent::Now && s != DebounceState::Done ==> r == (DebounceState::Idle, DebounceAction::Run),
        e == DebounceEvent::Closed ==> r == (DebounceState::Done, DebounceAction::Stop),
        s == DebounceState::Quiet && e == DebounceEvent::Elapsed ==> r.1 == DebounceAction::Run,
        e == DebounceEvent::Schedule && s != DebounceState::Done ==> r == (DebounceState::Quiet, DebounceAction::WaitQuietly),
{
    match s {
        DebounceState::Idle => match e {
            DebounceEvent::Schedule => (DebounceState::Quiet, DebounceAction::WaitQuietly),
            DebounceEvent::Now => (DebounceState::Idle, DebounceAction::Run),
            DebounceEvent::Elapsed => (DebounceState::Idle, DebounceAction::WaitForRequest),
            DebounceEvent::Closed => (DebounceState::Done, DebounceAction::Stop),
        },
        DebounceState::Quiet => match e {
            DebounceEvent::Schedule => (DebounceState::Quiet, DebounceAction::WaitQuietly),
            DebounceEvent::Now => (DebounceState::Idle, DebounceAction::Run),
            DebounceEvent::Elapsed => (DebounceState::Idle, DebounceAction::Run),
            DebounceEvent::Closed => (DebounceState::Done, DebounceAction::Stop),
        },
        DebounceState::Done => (DebounceState::Done, DebounceAction::Stop),
    }
}

/// The worker after a run of events, and how many times it ran the
/// operation.
pub open spec fn run_events(s: DebounceState, events: Seq<DebounceEvent>) -> (DebounceState, nat)
    decreases events.len(),
{
    if events.len() == 0 {
        (s, 0)
    } else {
        let (before, runs) = run_events(s, events.drop_last());
        let (after, action) = debounce_step(before, events.last());
        (after, if action == DebounceAction::Run {
            runs + 1
        } else {
            runs
        })
    }
}

/// `n` requests to run after a quiet period, back to back.
pub open spec fn schedules(n: nat) -> Seq<DebounceEvent>
    decreases n,
{
    if n == 0 {
        Seq::empty()
    } else {
        schedules((n - 1) as nat).push(DebounceEvent::Schedule)
    }
}

/// A burst of scheduled writes costs one run: however many `Schedule`s
/// arrive before the quiet period passes, the operation runs once, when it
/// does.
pub proof fn law_a_burst_runs_once(n: nat)
    requires
        n > 0,
    ensures
        run_events(
            DebounceState::Idle,
            schedules(n).push(DebounceEvent::Elapsed),
        ) == (DebounceState::Idle, 1nat),
{
    let burst = schedules(n);
    lemma_schedules_stay_quiet(n);
    assert(burst.push(DebounceEvent::Elapsed).drop_last() =~= burst);
}

/// Any number of `Schedule`s from idle leaves the worker quiet, having run
/// nothing.
proof fn lemma_schedules_stay_quiet(n: nat)
    requires
        n > 0,
    ensures
        run_events(DebounceState::Idle, schedules(n)) == (
            DebounceState::Quiet,
            0nat,
        ),
    decreases n,
{
    let burst = schedules(n);
    assert(burst.drop_last() =~= schedules((n - 1) as nat));
    assert(burst.last() == DebounceEvent::Schedule);
    if n > 1 {
        lemma_schedules_stay_quiet((n - 1) as nat);
    } else {
        assert(schedules(0) =~= Seq::<DebounceEvent>::empty());
        assert(run_events(DebounceState::Idle, schedules(0)) == (DebounceState::Idle, 0nat));
    }
}

/// A closed channel ends the worker for good, and nothing after it runs.
pub proof fn law_closing_stops_for_good(s: DebounceState, rest: Seq<DebounceEvent>)
    ensures
        run_events(debounce_step(s, DebounceEvent::Closed).0, rest) == (DebounceState::Done, 0nat),
    decreases rest.len(),
{
    if rest.len() > 0 {
        law_closing_stops_for_good(s, rest.drop_last());
    }
}

/// A request to run now is never made to wait: from a waiting worker or from
/// one in a quiet period, it runs the operation at once and leaves the worker
/// waiting for a first request again.
pub proof fn law_now_runs_at_once(s: DebounceState)
    requires
        s != DebounceState::Done,
    ensures
        debounce_step(s, DebounceEvent::Now) == (DebounceState::Idle, DebounceAction::Run),
{
}

/// A `Now` cuts a quiet period short: however many `Schedule`s came before
/// it, the operation runs once, at the `Now`, and the worker is idle again.
pub proof fn law_now_cuts_the_quiet_period_short(n: nat)
    requires
        n > 0,
    ensures
        run_events(DebounceState::Idle, schedules(n).push(DebounceEvent::Now)) == (DebounceState::Idle, 1nat),
{
    let burst = schedules(n);
    lemma_schedules_stay_quiet(n);
    assert(burst.push(DebounceEvent::Now).drop_last() =~= burst);
}

} // verus!
