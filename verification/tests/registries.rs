use chat_rooms::presence::PresenceRegistry;
use chat_rooms::rooms::ChatRoomStreamsService;
use chat_rooms::ChatError;

fn s(x: &str) -> String {
    x.to_string()
}

#[test]
fn register_exactly_one_success() {
    let mut reg = PresenceRegistry::new();
    let first = reg.register(s("alice"));
    let second = reg.register(s("alice"));
    let third = reg.register(s("alice"));
    assert_eq!(first, Ok(()));
    assert_eq!(second, Err(ChatError::IdentityConflict));
    assert_eq!(third, Err(ChatError::IdentityConflict));
    assert!(reg.contains(&s("alice")));
}

#[test]
fn register_distinct_identities() {
    let mut reg = PresenceRegistry::new();
    assert_eq!(reg.register(s("alice")), Ok(()));
    assert_eq!(reg.register(s("bob")), Ok(()));
    assert!(reg.contains(&s("alice")));
    assert!(reg.contains(&s("bob")));
    assert!(!reg.contains(&s("carol")));
}

#[test]
fn unregister_is_idempotent() {
    let mut reg = PresenceRegistry::new();
    assert_eq!(reg.register(s("alice")), Ok(()));
    reg.unregister(&s("alice"));
    assert!(!reg.contains(&s("alice")));
    reg.unregister(&s("alice"));
    assert!(!reg.contains(&s("alice")));
    reg.unregister(&s("never-there"));
    assert_eq!(reg.register(s("alice")), Ok(()));
}

#[test]
fn join_updates_both_directions() {
    let mut rooms = ChatRoomStreamsService::new();
    rooms.join(&s("alice"), &s("general"));
    let members = rooms.members_of(&s("general"));
    assert_eq!(members, vec![s("alice")]);
    let joined = rooms.rooms_of(&s("alice"));
    assert_eq!(joined, vec![s("general")]);
    assert_eq!(rooms.member_count(&s("general")), 1);
}

#[test]
fn n_distinct_joins_give_n_members() {
    let mut rooms = ChatRoomStreamsService::new();
    let ids = ["a", "b", "c", "d", "e"];
    for id in ids {
        rooms.join(&s(id), &s("general"));
    }
    assert_eq!(rooms.member_count(&s("general")), ids.len());
    let members = rooms.members_of(&s("general"));
    assert_eq!(members.len(), ids.len());
    for id in ids {
        assert!(members.contains(&s(id)));
        assert!(rooms.rooms_of(&s(id)).contains(&s("general")));
    }
}

#[test]
fn repeated_join_counts_once() {
    let mut rooms = ChatRoomStreamsService::new();
    rooms.join(&s("alice"), &s("general"));
    rooms.join(&s("alice"), &s("general"));
    assert_eq!(rooms.member_count(&s("general")), 1);
    assert_eq!(rooms.rooms_of(&s("alice")).len(), 1);
}

#[test]
fn leave_reclaims_empty_room() {
    let mut rooms = ChatRoomStreamsService::new();
    rooms.join(&s("alice"), &s("general"));
    rooms.join(&s("bob"), &s("general"));
    rooms.leave(&s("alice"), &s("general"));
    assert_eq!(rooms.member_count(&s("general")), 1);
    assert!(rooms.rooms_of(&s("alice")).is_empty());
    rooms.leave(&s("bob"), &s("general"));
    assert_eq!(rooms.member_count(&s("general")), 0);
    assert!(rooms.members_of(&s("general")).is_empty());
}

#[test]
fn leave_absent_member_is_noop() {
    let mut rooms = ChatRoomStreamsService::new();
    rooms.join(&s("alice"), &s("general"));
    rooms.leave(&s("bob"), &s("general"));
    rooms.leave(&s("alice"), &s("lobby"));
    assert_eq!(rooms.member_count(&s("general")), 1);
}

#[test]
fn leave_all_clears_identity_and_solo_rooms() {
    let mut rooms = ChatRoomStreamsService::new();
    rooms.join(&s("alice"), &s("general"));
    rooms.join(&s("alice"), &s("private"));
    rooms.join(&s("bob"), &s("general"));
    rooms.leave_all(&s("alice"));
    assert!(rooms.rooms_of(&s("alice")).is_empty());
    assert_eq!(rooms.member_count(&s("private")), 0);
    assert_eq!(rooms.members_of(&s("general")), vec![s("bob")]);
    assert_eq!(rooms.rooms_of(&s("bob")), vec![s("general")]);
}

#[test]
fn leave_all_on_unknown_identity() {
    let mut rooms = ChatRoomStreamsService::new();
    rooms.join(&s("alice"), &s("general"));
    rooms.leave_all(&s("ghost"));
    assert_eq!(rooms.member_count(&s("general")), 1);
}
