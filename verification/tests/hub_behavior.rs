use chat_relay::hub::Hub;
use chat_relay::message::RoomId;

const R1: RoomId = RoomId { raw: 1 };
const R2: RoomId = RoomId { raw: 2 };

fn hub_with(names: &[&str], cap: usize, echo: bool) -> (Hub, Vec<u64>) {
    let mut hub = Hub::new(echo);
    let mut ids = Vec::new();
    for n in names {
        ids.push(hub.connect(n.to_string(), cap).unwrap());
    }
    (hub, ids)
}

#[test]
fn broadcast_reaches_other_member_with_sender_tag() {
    // room R1 has members {A, B}; A sends "hi"; B receives a payload whose
    // text is "hi" and whose sender tag is A's display name; A does not
    // receive its own message (default policy: sender excluded)
    let (mut hub, ids) = hub_with(&["alice", "bob"], 8, false);
    let (a, b) = (ids[0], ids[1]);
    hub.join(R1, a);
    hub.join(R1, b);
    hub.broadcast(R1, a, "hi");
    let env = hub.take_outbound(b).expect("bob should have received the payload");
    assert_eq!(env.text, "hi");
    assert_eq!(env.sender, "alice");
    assert_eq!(env.room.raw, R1.raw);
    assert!(hub.take_outbound(b).is_none());
    assert!(hub.take_outbound(a).is_none(), "the sender must not be echoed to");
}

#[test]
fn echo_policy_delivers_to_sender_too() {
    let (mut hub, ids) = hub_with(&["alice", "bob"], 8, true);
    let (a, b) = (ids[0], ids[1]);
    hub.join(R1, a);
    hub.join(R1, b);
    hub.broadcast(R1, a, "hi");
    assert_eq!(hub.take_outbound(b).unwrap().text, "hi");
    let own = hub.take_outbound(a).expect("echo policy returns the sender its own message");
    assert_eq!(own.text, "hi");
    assert_eq!(own.sender, "alice");
}

#[test]
fn broadcast_stays_inside_the_room() {
    // no connection registered in a different room receives the payload
    let (mut hub, ids) = hub_with(&["alice", "bob", "carol"], 8, false);
    let (a, b, c) = (ids[0], ids[1], ids[2]);
    hub.join(R1, a);
    hub.join(R1, b);
    hub.join(R2, c);
    hub.broadcast(R1, a, "hi");
    assert!(hub.take_outbound(b).is_some());
    assert!(hub.take_outbound(c).is_none(), "a member of another room must see nothing");
}

#[test]
fn broadcast_in_empty_room_is_a_silent_no_op() {
    let (mut hub, ids) = hub_with(&["alice"], 8, false);
    hub.broadcast(R2, ids[0], "anyone there?");
    assert!(hub.take_outbound(ids[0]).is_none());
}

#[test]
fn leave_twice_is_a_no_op() {
    let (mut hub, ids) = hub_with(&["alice", "bob"], 8, false);
    let (a, b) = (ids[0], ids[1]);
    hub.join(R1, a);
    hub.join(R1, b);
    hub.leave(R1, a);
    assert_eq!(hub.members_of(R1), vec![b]);
    hub.leave(R1, a); // second leave: no error, no effect
    assert_eq!(hub.members_of(R1), vec![b]);
}

#[test]
fn leave_of_a_never_joined_connection_is_a_no_op() {
    let (mut hub, ids) = hub_with(&["alice", "bob"], 8, false);
    hub.join(R1, ids[0]);
    hub.leave(R1, ids[1]);
    assert_eq!(hub.members_of(R1), vec![ids[0]]);
}

#[test]
fn sender_order_is_preserved_per_recipient() {
    // m1 then m2 with no intervening join/leave: every recipient observes
    // m1 before m2
    let (mut hub, ids) = hub_with(&["alice", "bob", "carol"], 8, false);
    let (a, b, c) = (ids[0], ids[1], ids[2]);
    hub.join(R1, a);
    hub.join(R1, b);
    hub.join(R1, c);
    hub.broadcast(R1, a, "m1");
    hub.broadcast(R1, a, "m2");
    for recipient in [b, c] {
        assert_eq!(hub.take_outbound(recipient).unwrap().text, "m1");
        assert_eq!(hub.take_outbound(recipient).unwrap().text, "m2");
        assert!(hub.take_outbound(recipient).is_none());
    }
}

#[test]
fn closed_recipient_does_not_block_the_others() {
    // isolation: a recipient whose outbound path is closed neither stops
    // delivery to the rest nor errors the sender's broadcast
    let (mut hub, ids) = hub_with(&["alice", "bob", "carol"], 8, false);
    let (a, b, c) = (ids[0], ids[1], ids[2]);
    hub.join(R1, a);
    hub.join(R1, b);
    hub.join(R1, c);
    hub.close_outbound(b);
    hub.broadcast(R1, a, "hi");
    assert!(hub.take_outbound(b).is_none(), "a closed path receives nothing");
    assert_eq!(hub.take_outbound(c).unwrap().text, "hi");
}

#[test]
fn full_queue_drops_newest_for_that_recipient_alone() {
    let mut hub = Hub::new(false);
    let a = hub.connect("alice".to_string(), 8).unwrap();
    let b = hub.connect("bob".to_string(), 1).unwrap(); // bound of one
    let c = hub.connect("carol".to_string(), 8).unwrap();
    hub.join(R1, a);
    hub.join(R1, b);
    hub.join(R1, c);
    hub.broadcast(R1, a, "m1");
    hub.broadcast(R1, a, "m2"); // overflows bob's queue: dropped for bob only
    assert_eq!(hub.take_outbound(b).unwrap().text, "m1");
    assert!(hub.take_outbound(b).is_none());
    assert_eq!(hub.take_outbound(c).unwrap().text, "m1");
    assert_eq!(hub.take_outbound(c).unwrap().text, "m2");
}

#[test]
fn disconnect_of_never_joined_connection_changes_no_room() {
    // connection D, never joined to any room, disconnects: no error, no
    // effect on any room's member set
    let (mut hub, ids) = hub_with(&["alice", "bob", "dora"], 8, false);
    let (a, b, d) = (ids[0], ids[1], ids[2]);
    hub.join(R1, a);
    hub.join(R2, b);
    hub.disconnect(d);
    assert_eq!(hub.members_of(R1), vec![a]);
    assert_eq!(hub.members_of(R2), vec![b]);
}

#[test]
fn members_never_hold_a_disconnected_connection() {
    let (mut hub, ids) = hub_with(&["alice", "bob"], 8, false);
    let (a, b) = (ids[0], ids[1]);
    hub.join(R1, a);
    hub.join(R1, b);
    hub.disconnect(a);
    assert_eq!(hub.members_of(R1), vec![b]);
    hub.broadcast(R1, b, "anyone?");
    assert!(hub.take_outbound(a).is_none());
}

#[test]
fn joining_a_second_room_replaces_the_first() {
    // join(R1, C) then join(R2, C) without a leave: C ends up only in the
    // latter room
    let (mut hub, ids) = hub_with(&["carol"], 8, false);
    let c = ids[0];
    hub.join(R1, c);
    hub.join(R2, c);
    assert!(hub.members_of(R1).is_empty());
    assert_eq!(hub.members_of(R2), vec![c]);
}

#[test]
fn joining_the_same_room_twice_never_duplicates_delivery() {
    let (mut hub, ids) = hub_with(&["alice", "bob"], 8, false);
    let (a, b) = (ids[0], ids[1]);
    hub.join(R1, a);
    hub.join(R1, b);
    hub.join(R1, b); // registering twice must not duplicate
    assert_eq!(hub.members_of(R1).len(), 2);
    hub.broadcast(R1, a, "once");
    assert_eq!(hub.take_outbound(b).unwrap().text, "once");
    assert!(hub.take_outbound(b).is_none(), "exactly one copy per broadcast");
}

#[test]
fn connect_hands_out_distinct_ids() {
    let (mut hub, ids) = hub_with(&["alice", "bob", "carol"], 8, false);
    assert_ne!(ids[0], ids[1]);
    assert_ne!(ids[1], ids[2]);
    assert_ne!(ids[0], ids[2]);
    let d = hub.connect("dora".to_string(), 8).unwrap();
    assert!(!ids.contains(&d));
}

#[test]
fn join_for_an_absent_connection_is_ignored() {
    let mut hub = Hub::new(false);
    hub.join(R1, 42);
    assert!(hub.members_of(R1).is_empty());
}
