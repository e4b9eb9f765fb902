use chat_relay::directory::DirectoryError;
use chat_relay::directory::RoomDirectory;
use chat_relay::message::RoomId;
use chat_relay::users::UserError;
use chat_relay::users::UserStore;

const R1: RoomId = RoomId { raw: 7 };
const R2: RoomId = RoomId { raw: 9 };

#[test]
fn created_room_has_its_creator_as_first_member() {
    let mut dir = RoomDirectory::new();
    let room = dir.create_room(R1, "general".to_string(), "alice".to_string());
    assert_eq!(room.id.raw, R1.raw);
    assert_eq!(room.name, "general");
    assert_eq!(room.creator, "alice");
    assert_eq!(room.users, vec!["alice".to_string()]);
}

#[test]
fn add_user_appends_a_new_member() {
    let mut dir = RoomDirectory::new();
    dir.create_room(R1, "general".to_string(), "alice".to_string());
    let room = dir.add_user(R1, "bob".to_string()).unwrap();
    assert_eq!(room.users, vec!["alice".to_string(), "bob".to_string()]);
}

#[test]
fn add_user_never_duplicates_a_member() {
    let mut dir = RoomDirectory::new();
    dir.create_room(R1, "general".to_string(), "alice".to_string());
    dir.add_user(R1, "bob".to_string()).unwrap();
    let room = dir.add_user(R1, "bob".to_string()).unwrap();
    assert_eq!(room.users, vec!["alice".to_string(), "bob".to_string()]);
}

#[test]
fn add_user_to_unknown_room_reports_not_found() {
    let mut dir = RoomDirectory::new();
    dir.create_room(R1, "general".to_string(), "alice".to_string());
    let r = dir.add_user(R2, "bob".to_string());
    assert_eq!(r.unwrap_err(), DirectoryError::RoomNotFound);
}

#[test]
fn list_rooms_returns_every_room() {
    let mut dir = RoomDirectory::new();
    assert!(dir.list_rooms().is_empty());
    dir.create_room(R1, "general".to_string(), "alice".to_string());
    dir.create_room(R2, "random".to_string(), "bob".to_string());
    let rooms = dir.list_rooms();
    assert_eq!(rooms.len(), 2);
    assert_eq!(rooms[0].name, "general");
    assert_eq!(rooms[1].name, "random");
}

#[test]
fn create_room_fresh_draws_an_identifier() {
    let mut dir = RoomDirectory::new();
    let a = dir.create_room_fresh("general".to_string(), "alice".to_string());
    let b = dir.create_room_fresh("random".to_string(), "bob".to_string());
    assert_ne!(a.id.raw, b.id.raw, "two drawn identifiers should differ");
    assert_eq!(a.users, vec!["alice".to_string()]);
    assert_eq!(dir.list_rooms().len(), 2);
}

#[test]
fn register_then_login() {
    let mut users = UserStore::new();
    users.register("alice".to_string(), "s3cret".to_string()).unwrap();
    assert!(users.login(&"alice".to_string(), &"s3cret".to_string()));
    assert!(!users.login(&"alice".to_string(), &"wrong".to_string()));
    assert!(!users.login(&"bob".to_string(), &"s3cret".to_string()));
}

#[test]
fn register_refuses_a_taken_name() {
    let mut users = UserStore::new();
    users.register("alice".to_string(), "one".to_string()).unwrap();
    let r = users.register("alice".to_string(), "two".to_string());
    assert_eq!(r.unwrap_err(), UserError::AlreadyExists);
    // the original registration is untouched
    assert!(users.login(&"alice".to_string(), &"one".to_string()));
    assert!(!users.login(&"alice".to_string(), &"two".to_string()));
}
