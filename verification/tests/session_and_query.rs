use chat_relay::message::Envelope;
use chat_relay::message::RoomId;
use chat_relay::query::resolve_request;
use chat_relay::query::QueryError;
use chat_relay::session::session_step;
use chat_relay::session::SessionAction;
use chat_relay::session::SessionEvent;
use chat_relay::session::SessionState;

const R1: RoomId = RoomId { raw: 5 };

#[test]
fn handshake_with_room_joins() {
    let (state, acts) = session_step(
        SessionState::Connecting,
        SessionEvent::HandshakeDone(Some(R1)),
    );
    assert!(matches!(state, SessionState::Joined(r) if r.raw == R1.raw));
    assert!(matches!(acts.as_slice(), [SessionAction::Join(r)] if r.raw == R1.raw));
}

#[test]
fn handshake_without_room_is_a_client_error() {
    let (state, acts) = session_step(SessionState::Connecting, SessionEvent::HandshakeDone(None));
    assert!(matches!(state, SessionState::Closing(None)));
    assert!(matches!(acts.as_slice(), [SessionAction::NotifyClientError]));
}

#[test]
fn inbound_text_broadcasts_in_the_joined_room() {
    let (state, acts) = session_step(
        SessionState::Joined(R1),
        SessionEvent::InboundText("hi".to_string()),
    );
    assert!(matches!(state, SessionState::Joined(r) if r.raw == R1.raw));
    assert!(
        matches!(acts.as_slice(), [SessionAction::Broadcast(r, t)] if r.raw == R1.raw && t == "hi")
    );
}

#[test]
fn delivered_payload_is_forwarded_verbatim() {
    let env = Envelope { room: R1, sender: "alice".to_string(), text: "hi".to_string() };
    let (state, acts) = session_step(SessionState::Joined(R1), SessionEvent::Delivered(env));
    assert!(matches!(state, SessionState::Joined(_)));
    match acts.as_slice() {
        [SessionAction::Forward(e)] => {
            assert_eq!(e.sender, "alice");
            assert_eq!(e.text, "hi");
            assert_eq!(e.room.raw, R1.raw);
        },
        _ => panic!("expected a single forward action"),
    }
}

#[test]
fn malformed_payload_notifies_then_closes() {
    let (state, acts) = session_step(SessionState::Joined(R1), SessionEvent::InboundInvalid);
    assert!(matches!(state, SessionState::Closing(Some(r)) if r.raw == R1.raw));
    assert!(matches!(acts.as_slice(), [SessionAction::NotifyClientError]));
}

#[test]
fn finalize_after_a_joined_life_leaves_then_releases() {
    let (state, _) = session_step(SessionState::Joined(R1), SessionEvent::TransportClosed);
    assert!(matches!(state, SessionState::Closing(Some(_))));
    let (state, acts) = session_step(state, SessionEvent::Finalize);
    assert!(matches!(state, SessionState::Closed));
    assert!(
        matches!(acts.as_slice(), [SessionAction::Leave(r), SessionAction::Release] if r.raw == R1.raw)
    );
}

#[test]
fn finalize_without_a_joined_room_only_releases() {
    let (state, acts) = session_step(SessionState::Closing(None), SessionEvent::Finalize);
    assert!(matches!(state, SessionState::Closed));
    assert!(matches!(acts.as_slice(), [SessionAction::Release]));
}

#[test]
fn closed_is_absorbing_and_silent() {
    let events = [
        SessionEvent::HandshakeDone(Some(R1)),
        SessionEvent::InboundText("late".to_string()),
        SessionEvent::TransportClosed,
        SessionEvent::Finalize,
    ];
    for ev in events {
        let (state, acts) = session_step(SessionState::Closed, ev);
        assert!(matches!(state, SessionState::Closed));
        assert!(acts.is_empty());
    }
}

#[test]
fn resolve_request_accepts_a_valid_room_and_name() {
    let id = "67e55044-10b1-426f-9247-bb680e5fe0c8";
    let query = format!("roomId={}&username=alice", id);
    let params = resolve_request(&query).unwrap();
    assert_eq!(params.name, "alice");
    assert_eq!(params.room.raw, uuid::Uuid::parse_str(id).unwrap().as_u128());
}

#[test]
fn resolve_request_defaults_the_name_to_guest() {
    let query = "roomId=67e55044-10b1-426f-9247-bb680e5fe0c8";
    let params = resolve_request(query).unwrap();
    assert_eq!(params.name, "guest");
}

#[test]
fn resolve_request_rejects_a_missing_room() {
    let r = resolve_request("username=alice");
    assert_eq!(r.unwrap_err(), QueryError::BadRoom);
}

#[test]
fn resolve_request_rejects_a_malformed_room() {
    let r = resolve_request("roomId=not-a-uuid&username=alice");
    assert_eq!(r.unwrap_err(), QueryError::BadRoom);
    // an invalid identifier is never read as some default room
    let r = resolve_request("roomId=0");
    assert_eq!(r.unwrap_err(), QueryError::BadRoom);
}

#[test]
fn resolve_request_parses_odd_escapes_leniently() {
    // the urlencoded parser decodes lossily and accepts odd escapes; a
    // roomId that is no identifier is still rejected as a bad room
    let r = resolve_request("roomId=%zz");
    assert_eq!(r.unwrap_err(), QueryError::BadRoom);
}

#[test]
fn resolve_request_decodes_urlencoded_names() {
    let id = "67e55044-10b1-426f-9247-bb680e5fe0c8";
    let query = format!("roomId={}&username=a%20b", id);
    let params = resolve_request(&query).unwrap();
    assert_eq!(params.name, "a b");
}

#[test]
fn resolve_request_accepts_the_simple_uuid_form() {
    let query = "roomId=67e5504410b1426f9247bb680e5fe0c8";
    let params = resolve_request(query).unwrap();
    let canonical = uuid::Uuid::parse_str("67e55044-10b1-426f-9247-bb680e5fe0c8").unwrap();
    assert_eq!(params.room.raw, canonical.as_u128());
}

#[test]
fn resolve_request_takes_the_first_occurrence_of_a_key() {
    let id = "67e55044-10b1-426f-9247-bb680e5fe0c8";
    let query = format!("username=alice&username=bob&roomId={}", id);
    let params = resolve_request(&query).unwrap();
    assert_eq!(params.name, "alice");
}
