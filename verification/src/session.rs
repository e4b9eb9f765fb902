//! Per-connection session controller, as a pure state machine.
//!
//! The controller mediates between one transport connection and the hub.
//! It moves through `Connecting -> Joined -> Closing -> Closed`. Each call
//! of [`session_step`] consumes one event and returns the next state
//! together with the actions the surrounding loop must perform: hub calls,
//! writes to the client, and the final release of the connection.
//!
//! The cleanup pair (leave the joined room, release the connection) is
//! emitted exactly once, on the `Closing -> Closed` transition, whatever
//! path led into `Closing`; `Closed` is absorbing and emits nothing.

use vstd::prelude::*;

use crate::message::Envelope;
use crate::message::RoomId;

verus! {

/// State of one session controller.
pub enum SessionState {
    /// Transport handshake not finished; no room resolved yet.
    Connecting,
    /// Steady state: the connection is registered in the given room.
    Joined(RoomId),
    /// Shutting down; holds the room to leave, if one was ever joined.
    Closing(Option<RoomId>),
    /// Fully torn down; every further event is ignored.
    Closed,
}

/// One event handed to the session controller by its surrounding loop.
pub enum SessionEvent {
    /// The handshake finished and the room id was resolved, or found
    /// missing or malformed (`None`).
    HandshakeDone(Option<RoomId>),
    /// A well-formed text payload arrived from this session's own client.
    InboundText(String),
    /// A malformed (non-text) payload arrived from this session's client.
    InboundInvalid,
    /// The hub delivered a payload from another session to this connection.
    Delivered(Envelope),
    /// The transport closed.
    TransportClosed,
    /// A transport-level protocol error occurred.
    ProtocolError,
    /// The surrounding loop is ready to run the final cleanup.
    Finalize,
}

/// One action the surrounding loop must perform after a step.
pub enum SessionAction {
    /// Call the hub to join the room.
    Join(RoomId),
    /// Call the hub to broadcast the text in the room.
    Broadcast(RoomId, String),
    /// Write the delivered payload out to this session's own client.
    Forward(Envelope),
    /// Reply to this session's client that its request or payload was bad.
    NotifyClientError,
    /// Call the hub to leave the room.
    Leave(RoomId),
    /// Release the connection and end the controller.
    Release,
}

/// The transition function of the session state machine: next state and
/// the actions owed for one event in one state.
pub open spec fn spec_step(state: SessionState, event: SessionEvent) -> (SessionState, Seq<
    SessionAction,
>) {
    match state {
        SessionState::Connecting => match event {
            SessionEvent::HandshakeDone(Some(room)) => (
                SessionState::Joined(room),
                seq![SessionAction::Join(room)],
            ),
            SessionEvent::HandshakeDone(None) => (
                SessionState::Closing(None),
                seq![SessionAction::NotifyClientError],
            ),
            SessionEvent::TransportClosed => (SessionState::Closing(None), Seq::empty()),
            SessionEvent::ProtocolError => (SessionState::Closing(None), Seq::empty()),
            _ => (SessionState::Connecting, Seq::empty()),
        },
        SessionState::Joined(room) => match event {
            SessionEvent::InboundText(text) => (
                SessionState::Joined(room),
                seq![SessionAction::Broadcast(room, text)],
            ),
            SessionEvent::Delivered(env) => (
                SessionState::Joined(room),
                seq![SessionAction::Forward(env)],
            ),
            SessionEvent::InboundInvalid => (
                SessionState::Closing(Some(room)),
                seq![SessionAction::NotifyClientError],
            ),
            SessionEvent::TransportClosed => (SessionState::Closing(Some(room)), Seq::empty()),
            SessionEvent::ProtocolError => (SessionState::Closing(Some(room)), Seq::empty()),
            _ => (SessionState::Joined(room), Seq::empty()),
        },
        SessionState::Closing(room) => match event {
            SessionEvent::Finalize => match room {
                Some(r) => (
                    SessionState::Closed,
                    seq![SessionAction::Leave(r), SessionAction::Release],
                ),
                None => (SessionState::Closed, seq![SessionAction::Release]),
            },
            _ => (SessionState::Closing(room), Seq::empty()),
        },
        SessionState::Closed => (SessionState::Closed, Seq::empty()),
    }
}

/// Run one step of the session state machine.
pub fn session_step(state: SessionState, event: SessionEvent) -> (r: (
    SessionState,
    Vec<SessionAction>,
))
    ensures
        r.0 == spec_step(state, event).0,
        r.1@ == spec_step(state, event).1,
{
    match state {
        SessionState::Connecting => match event {
            SessionEvent::HandshakeDone(Some(room)) => {
                let mut acts: Vec<SessionAction> = Vec::new();
                acts.push(SessionAction::Join(room));
                (SessionState::Joined(room), acts)
            },
            SessionEvent::HandshakeDone(None) => {
                let mut acts: Vec<SessionAction> = Vec::new();
                acts.push(SessionAction::NotifyClientError);
                (SessionState::Closing(None), acts)
            },
            SessionEvent::TransportClosed => (SessionState::Closing(None), Vec::new()),
            SessionEvent::ProtocolError => (SessionState::Closing(None), Vec::new()),
            _ => (SessionState::Connecting, Vec::new()),
        },
        SessionState::Joined(room) => match event {
            SessionEvent::InboundText(text) => {
                let mut acts: Vec<SessionAction> = Vec::new();
                acts.push(SessionAction::Broadcast(room, text));
                (SessionState::Joined(room), acts)
            },
            SessionEvent::Delivered(env) => {
                let mut acts: Vec<SessionAction> = Vec::new();
                acts.push(SessionAction::Forward(env));
                (SessionState::Joined(room), acts)
            },
            SessionEvent::InboundInvalid => {
                let mut acts: Vec<SessionAction> = Vec::new();
                acts.push(SessionAction::NotifyClientError);
                (SessionState::Closing(Some(room)), acts)
            },
            SessionEvent::TransportClosed => (SessionState::Closing(Some(room)), Vec::new()),
            SessionEvent::ProtocolError => (SessionState::Closing(Some(room)), Vec::new()),
            _ => (SessionState::Joined(room), Vec::new()),
        },
        SessionState::Closing(room) => match event {
            SessionEvent::Finalize => match room {
                Some(r) => {
                    let mut acts: Vec<SessionAction> = Vec::new();
                    acts.push(SessionAction::Leave(r));
                    acts.push(SessionAction::Release);
                    (SessionState::Closed, acts)
                },
                None => {
                    let mut acts: Vec<SessionAction> = Vec::new();
                    acts.push(SessionAction::Release);
                    (SessionState::Closed, acts)
                },
            },
            _ => (SessionState::Closing(room), Vec::new()),
        },
        SessionState::Closed => (SessionState::Closed, Vec::new()),
    }
}

/// Once `Closed`, a session stays `Closed` and owes no further action.
pub proof fn lemma_closed_absorbing(event: SessionEvent)
    ensures
        spec_step(SessionState::Closed, event).0 == SessionState::Closed,
        spec_step(SessionState::Closed, event).1 == Seq::<SessionAction>::empty(),
{
}

/// Cleanup runs exactly once: `Release` is emitted if and only if the step
/// goes from `Closing` on `Finalize`, and that step lands in `Closed`,
/// which is absorbing. `Leave` is emitted only on that same step, and only
/// for the room that was actually joined.
pub proof fn lemma_cleanup_once(state: SessionState, event: SessionEvent)
    ensures
        spec_step(state, event).1.contains(SessionAction::Release) <==> (state matches
            SessionState::Closing(_) && event matches SessionEvent::Finalize),
        spec_step(state, event).1.contains(SessionAction::Release) ==> spec_step(state, event).0
            == SessionState::Closed,
        forall|r: RoomId|
            #[trigger] spec_step(state, event).1.contains(SessionAction::Leave(r)) <==> (state
                == SessionState::Closing(Some(r)) && event matches SessionEvent::Finalize),
{
    let acts = spec_step(state, event).1;
    match state {
        SessionState::Connecting => match event {
            SessionEvent::HandshakeDone(opt) => {
                assert(!acts.contains(SessionAction::Release)) by {
                    assert(forall|i: int|
                        0 <= i < acts.len() ==> acts[i] != SessionAction::Release);
                }
                assert(forall|r: RoomId| !acts.contains(SessionAction::Leave(r))) by {
                    assert(forall|r: RoomId, i: int|
                        0 <= i < acts.len() ==> acts[i] != SessionAction::Leave(r));
                }
            },
            _ => {},
        },
        SessionState::Joined(room) => match event {
            SessionEvent::InboundText(_) | SessionEvent::Delivered(_)
            | SessionEvent::InboundInvalid => {
                assert(!acts.contains(SessionAction::Release)) by {
                    assert(forall|i: int|
                        0 <= i < acts.len() ==> acts[i] != SessionAction::Release);
                }
                assert(forall|r: RoomId| !acts.contains(SessionAction::Leave(r))) by {
                    assert(forall|r: RoomId, i: int|
                        0 <= i < acts.len() ==> acts[i] != SessionAction::Leave(r));
                }
            },
            _ => {},
        },
        SessionState::Closing(opt) => match event {
            SessionEvent::Finalize => match opt {
                Some(r0) => {
                    assert(acts[1] == SessionAction::Release);
                    assert(acts.contains(SessionAction::Release));
                    assert(acts.contains(SessionAction::Leave(r0))) by {
                        assert(acts[0] == SessionAction::Leave(r0));
                    }
                    assert(forall|r: RoomId|
                        r != r0 ==> !acts.contains(SessionAction::Leave(r))) by {
                        assert(forall|r: RoomId, i: int|
                            r != r0 && 0 <= i < acts.len() ==> acts[i] != SessionAction::Leave(
                                r,
                            ));
                    }
                },
                None => {
                    assert(acts[0] == SessionAction::Release);
                    assert(acts.contains(SessionAction::Release));
                    assert(forall|r: RoomId| !acts.contains(SessionAction::Leave(r))) by {
                        assert(forall|r: RoomId, i: int|
                            0 <= i < acts.len() ==> acts[i] != SessionAction::Leave(r));
                    }
                },
            },
            _ => {},
        },
        SessionState::Closed => {},
    }
}

} // verus!
