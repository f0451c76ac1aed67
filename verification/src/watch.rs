//! Deciding when a change in the profiles folder is worth rebuilding the
//! tray for.
//!
//! Saving a profile writes a temporary file and renames it, which is several
//! file events for one logical change, so a burst of events is let settle
//! before the tray is rebuilt once.

use vstd::prelude::*;

verus! {

/// How long a burst of events is given to settle, in milliseconds.
pub const DEBOUNCE_MS: u64 = 300;

/// What the file watcher reported.
#[derive(Debug, Clone, Copy, PartialEq, Eq, Structural)]
pub enum FileEvent {
    /// Something happened; the watcher cannot say what.
    Any,
    /// A file was read. Access events fire constantly and change nothing.
    Access,
    Create,
    Modify,
    Remove,
    /// Any other kind of event.
    Other,
    /// The watcher reported an error instead of an event.
    Failed,
}

/// Is this event worth rebuilding for? Anything that creates, removes or
/// modifies a file might have changed the profile list.
pub open spec fn interesting(e: FileEvent) -> bool {
    match e {
        FileEvent::Any | FileEvent::Create | FileEvent::Modify | FileEvent::Remove => true,
        _ => false,
    }
}

/// Is this event worth rebuilding for?
pub fn is_interesting(event: FileEvent) -> (b: bool)
    ensures
        b == interesting(event),
{
    match event {
        FileEvent::Any | FileEvent::Create | FileEvent::Modify | FileEvent::Remove => true,
        _ => false,
    }
}

/// Where the watch loop stands.
#[derive(Debug, Clone, Copy, PartialEq, Eq, Structural)]
pub enum WatchState {
    /// Waiting, for as long as it takes, for the next event.
    Waiting,
    /// An interesting event arrived; swallowing the rest of its burst.
    Settling,
}

/// What the loop learned since its last step.
#[derive(Debug, Clone, Copy, PartialEq, Eq, Structural)]
pub enum WatchInput {
    /// An event arrived.
    Event(FileEvent),
    /// The settling interval passed with no event.
    Quiet,
    /// The watcher is gone, because the application is shutting down.
    Closed,
}

/// What the loop does next.
#[derive(Debug, Clone, Copy, PartialEq, Eq, Structural)]
pub enum WatchStep {
    /// Wait for the next event, however long it takes.
    Wait,
    /// Wait for the next event, at most the settling interval.
    WaitBriefly,
    /// Rebuild the tray from disk, then wait for the next event.
    Rebuild,
    /// Stop watching.
    Stop,
}

/// The watch loop's next state and step.
pub open spec fn watch_next(state: WatchState, input: WatchInput) -> (WatchState, WatchStep) {
    match state {
        WatchState::Waiting => match input {
            WatchInput::Event(e) => if interesting(e) {
                (WatchState::Settling, WatchStep::WaitBriefly)
            } else {
                (WatchState::Waiting, WatchStep::Wait)
            },
            WatchInput::Quiet => (WatchState::Waiting, WatchStep::Wait),
            WatchInput::Closed => (WatchState::Waiting, WatchStep::Stop),
        },
        WatchState::Settling => match input {
            WatchInput::Event(_) => (WatchState::Settling, WatchStep::WaitBriefly),
            WatchInput::Quiet | WatchInput::Closed => (WatchState::Waiting, WatchStep::Rebuild),
        },
    }
}

/// One step of the watch loop: given where it stands and what it just
/// learned, where it stands next and what it does.
pub fn step(state: WatchState, input: WatchInput) -> (out: (WatchState, WatchStep))
    ensures
        out == watch_next(state, input),
{
    match state {
        WatchState::Waiting => match input {
            WatchInput::Event(e) => {
                if is_interesting(e) {
                    (WatchState::Settling, WatchStep::WaitBriefly)
                } else {
                    (WatchState::Waiting, WatchStep::Wait)
                }
            },
            WatchInput::Quiet => (WatchState::Waiting, WatchStep::Wait),
            WatchInput::Closed => (WatchState::Waiting, WatchStep::Stop),
        },
        WatchState::Settling => match input {
            WatchInput::Event(_) => (WatchState::Settling, WatchStep::WaitBriefly),
            WatchInput::Quiet | WatchInput::Closed => (WatchState::Waiting, WatchStep::Rebuild),
        },
    }
}

/// The states the loop passes through on a run of inputs, from `start`.
pub open spec fn watch_run(start: WatchState, inputs: Seq<WatchInput>) -> WatchState
    decreases inputs.len(),
{
    if inputs.len() == 0 {
        start
    } else {
        watch_next(watch_run(start, inputs.drop_last()), inputs.last()).0
    }
}

/// Uninteresting events alone never cause a rebuild, and nothing causes
/// one straight from waiting: a rebuild always ends a burst that an
/// interesting event started.
pub proof fn law_rebuild_only_after_interesting_event(state: WatchState, input: WatchInput)
    ensures
        watch_next(state, input).1 == WatchStep::Rebuild ==> state == WatchState::Settling,
        state == WatchState::Waiting ==> (watch_next(state, input).0 == WatchState::Settling
            <==> (input matches WatchInput::Event(e) && interesting(e))),
{
}

/// An interesting event followed by the rest of its burst.
pub open spec fn burst_inputs(first: FileEvent, rest: Seq<FileEvent>) -> Seq<WatchInput> {
    seq![WatchInput::Event(first)] + rest.map_values(|e: FileEvent| WatchInput::Event(e))
}

/// However long a burst runs and whatever it holds, the first quiet
/// interval after it rebuilds the tray and returns to waiting.
#[verifier::rlimit(20)]
pub proof fn law_burst_rebuilds_once(first: FileEvent, rest: Seq<FileEvent>)
    requires
        interesting(first),
    ensures
        watch_next(watch_run(WatchState::Waiting, burst_inputs(first, rest)), WatchInput::Quiet) == (
        WatchState::Waiting, WatchStep::Rebuild),
{
    let s = burst_inputs(first, rest);
    let n: int = rest.len() as int + 1;
    law_burst_keeps_settling(first, rest, n);
    assert(s.take(n) =~= s);
}

/// Every event of a burst keeps the loop settling, with no rebuild along
/// the way.
pub proof fn law_burst_keeps_settling(first: FileEvent, rest: Seq<FileEvent>, k: int)
    requires
        interesting(first),
        0 < k <= rest.len() + 1,
    ensures
        watch_run(WatchState::Waiting, burst_inputs(first, rest).take(k)) == WatchState::Settling,
        watch_next(
            watch_run(WatchState::Waiting, burst_inputs(first, rest).take(k - 1)),
            burst_inputs(first, rest)[k - 1],
        ).1 == WatchStep::WaitBriefly,
    decreases k,
{
    let s = burst_inputs(first, rest);
    assert(s.take(k).drop_last() =~= s.take(k - 1));
    assert(s.take(k).last() == s[k - 1]);
    if k == 1 {
        assert(s.take(0) =~= Seq::<WatchInput>::empty());
        assert(s[0] == WatchInput::Event(first));
    } else {
        law_burst_keeps_settling(first, rest, k - 1);
        assert(s[k - 1] == WatchInput::Event(rest[k - 2]));
    }
}

} // verus!
