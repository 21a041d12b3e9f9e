//! The decision core of the live-refresh loop.
//!
//! The loop renders the "due today" view, then blocks on the
//! file-change signal with a bounded timeout.  A change notification
//! re-renders; a timeout also re-renders, since the view depends on
//! the calendar date even without file changes — a timeout is a
//! liveness heartbeat, not an error.  A shutdown signal, or the
//! permanent disconnection of the file-change channel, ends the loop.
//! The surrounding runtime performs the actions (rendering, waiting on
//! channels) and hands the resulting events back.

use vstd::prelude::*;

verus! {

/// Where the loop stands.
#[derive(Debug, Clone, Copy, PartialEq, Eq, Structural)]
pub enum WatchState {
    /// A render of the current view is owed.
    Rendering,
    /// Blocked on the file-change signal with a bounded timeout.
    Waiting,
    /// Finished; the loop exits after any in-flight render.
    ShuttingDown,
}

/// What the outside world reported.
#[derive(Debug, Clone, Copy, PartialEq, Eq, Structural)]
pub enum WatchEvent {
    /// The backing file changed.
    FileChanged,
    /// The bounded wait elapsed without a notification.
    TimedOut,
    /// The file-change channel is permanently disconnected.
    Disconnected,
    /// The explicit shutdown signal arrived.
    Quit,
}

/// What the runtime must do next.
#[derive(Debug, Clone, Copy, PartialEq, Eq, Structural)]
pub enum WatchAction {
    /// Render the current view once.
    Render,
    /// Block on the file-change signal with the bounded timeout.
    Wait,
    /// Leave the loop and release the terminal.
    Stop,
}

/// The transition table: a render leads to waiting; a notification or
/// a timeout while waiting leads back to rendering; a shutdown signal
/// or a dead channel shuts down, and shutdown is final.
pub open spec fn spec_step(state: WatchState, event: WatchEvent) -> (WatchState, WatchAction) {
    match state {
        WatchState::Rendering => (WatchState::Waiting, WatchAction::Wait),
        WatchState::Waiting => match event {
            WatchEvent::FileChanged => (WatchState::Rendering, WatchAction::Render),
            WatchEvent::TimedOut => (WatchState::Rendering, WatchAction::Render),
            WatchEvent::Disconnected => (WatchState::ShuttingDown, WatchAction::Stop),
            WatchEvent::Quit => (WatchState::ShuttingDown, WatchAction::Stop),
        },
        WatchState::ShuttingDown => (WatchState::ShuttingDown, WatchAction::Stop),
    }
}

/// One decision of the loop.
pub fn step(state: WatchState, event: WatchEvent) -> (r: (WatchState, WatchAction))
    ensures
        r == spec_step(state, event),
{
    match state {
        WatchState::Rendering => (WatchState::Waiting, WatchAction::Wait),
        WatchState::Waiting => match event {
            WatchEvent::FileChanged => (WatchState::Rendering, WatchAction::Render),
            WatchEvent::TimedOut => (WatchState::Rendering, WatchAction::Render),
            WatchEvent::Disconnected => (WatchState::ShuttingDown, WatchAction::Stop),
            WatchEvent::Quit => (WatchState::ShuttingDown, WatchAction::Stop),
        },
        WatchState::ShuttingDown => (WatchState::ShuttingDown, WatchAction::Stop),
    }
}

/// Cancellation is cooperative but definitive: a shutdown signal while
/// waiting shuts down, and no event ever leaves the shut-down state.
pub proof fn lemma_shutdown_final(event: WatchEvent)
    ensures
        spec_step(WatchState::Waiting, WatchEvent::Quit).0 == WatchState::ShuttingDown,
        spec_step(WatchState::Waiting, WatchEvent::Disconnected).0 == WatchState::ShuttingDown,
        spec_step(WatchState::ShuttingDown, event).0 == WatchState::ShuttingDown,
        spec_step(WatchState::ShuttingDown, event).1 == WatchAction::Stop,
{
}

/// Liveness of the view: whatever ends a wait short of shutdown —
/// a change notification or a bare timeout — leads back to a render.
pub proof fn lemma_wait_rerenders()
    ensures
        spec_step(WatchState::Waiting, WatchEvent::FileChanged) == (
            WatchState::Rendering,
            WatchAction::Render,
        ),
        spec_step(WatchState::Waiting, WatchEvent::TimedOut) == (
            WatchState::Rendering,
            WatchAction::Render,
        ),
{
}

} // verus!
