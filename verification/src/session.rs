//! Close semantics of a connected session: the decisions of the four-way
//! teardown, kept apart from the timers and sockets that drive them.
use vstd::prelude::*;

verus! {

/// Where a connected session stands on the way down.
#[derive(Debug, Clone, Copy, PartialEq, Eq, Structural)]
pub enum SessionState {
    /// Live: user messages flow both ways.
    Established,
    /// We announced the close and are draining what is still owed.
    Closing,
    /// Both sides are done; the peer's state can be released.
    Closed,
}

/// What the engine must do after a close step.
#[derive(Debug, Clone, Copy, PartialEq, Eq, Structural)]
pub enum CloseAction {
    /// Nothing: the event changed nothing.
    Keep,
    /// Drain pending acknowledgements, then send a disconnect notification.
    FlushAndNotify,
}

/// What drives the teardown.
#[derive(Debug, Clone, Copy, PartialEq, Eq, Structural)]
pub enum CloseEvent {
    /// The local user asked for a graceful close.
    CloseRequested,
    /// The remote side sent its disconnect notification.
    DisconnectReceived,
    /// The notification we sent was acknowledged, or the linger timer ran
    /// out.
    NotifyDone,
}

/// The teardown transition: a local request or a remote notification while
/// the session is live flushes what is owed and announces the close; a
/// remote notification while we are already closing completes the
/// handshake; everything after `Closed` changes nothing.
pub open spec fn close_step_spec(state: SessionState, event: CloseEvent) -> (
    SessionState,
    CloseAction,
) {
    match (state, event) {
        (SessionState::Established, CloseEvent::CloseRequested) => (
            SessionState::Closing,
            CloseAction::FlushAndNotify,
        ),
        (SessionState::Established, CloseEvent::DisconnectReceived) => (
            SessionState::Closed,
            CloseAction::FlushAndNotify,
        ),
        (SessionState::Closing, CloseEvent::DisconnectReceived) => (
            SessionState::Closed,
            CloseAction::Keep,
        ),
        (SessionState::Closing, CloseEvent::NotifyDone) => (SessionState::Closed, CloseAction::Keep),
        _ => (state, CloseAction::Keep),
    }
}

/// One step of the teardown.
pub fn close_step(state: SessionState, event: CloseEvent) -> (r: (SessionState, CloseAction))
    ensures
        r == close_step_spec(state, event),
{
    match (state, event) {
        (SessionState::Established, CloseEvent::CloseRequested) => (
            SessionState::Closing,
            CloseAction::FlushAndNotify,
        ),
        (SessionState::Established, CloseEvent::DisconnectReceived) => (
            SessionState::Closed,
            CloseAction::FlushAndNotify,
        ),
        (SessionState::Closing, CloseEvent::DisconnectReceived) => (
            SessionState::Closed,
            CloseAction::Keep,
        ),
        (SessionState::Closing, CloseEvent::NotifyDone) => (SessionState::Closed, CloseAction::Keep),
        _ => (state, CloseAction::Keep),
    }
}

/// Whether a user send is accepted: only a live session takes new messages;
/// afterwards the send fails as closed.
pub fn can_send(state: SessionState) -> (r: bool)
    ensures
        r == (state is Established),
{
    matches!(state, SessionState::Established)
}

/// Law: a session never reopens — once closing or closed, no event leads
/// back to an established session, so a send refused as closed stays
/// refused.
pub proof fn lemma_close_is_final(state: SessionState, event: CloseEvent)
    requires
        !(state is Established),
    ensures
        !(close_step_spec(state, event).0 is Established),
{
}

} // verus!
