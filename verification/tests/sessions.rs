use chat_rooms::bus::FanOutBus;
use chat_rooms::codec::{accept_external, decode_client, decode_frame, encode_frame, encode_say, ClientCommand};
use chat_rooms::presence::PresenceRegistry;
use chat_rooms::rooms::ChatRoomStreamsService;
use chat_rooms::session::{Session, SessionLoop, SessionState};
use chat_rooms::ChatError;
use chat_rooms::Envelope;

fn s(x: &str) -> String {
    x.to_string()
}

#[test]
fn session_life_cycle() {
    let mut a = Session::start(s("alice"), s("general"));
    assert_eq!(a.state, SessionState::Connecting);
    assert_eq!(a.on_register_outcome(true), Ok(()));
    assert_eq!(a.state, SessionState::Active);
    let cancel = a.on_loop_end(SessionLoop::Ingest);
    assert_eq!(cancel, SessionLoop::Deliver);
    assert_eq!(a.state, SessionState::Closing);
    assert_eq!(a.departure_notice(), s("alice left"));
    a.on_cleanup_done();
    assert_eq!(a.state, SessionState::Closed);
}

#[test]
fn identity_conflict_closes_at_once() {
    let mut presence = PresenceRegistry::new();
    assert_eq!(presence.register(s("alice")), Ok(()));
    let mut late = Session::start(s("alice"), s("general"));
    let accepted = presence.register(s("alice")).is_ok();
    let r = late.on_register_outcome(accepted);
    assert_eq!(r, Err(ChatError::IdentityConflict));
    assert_eq!(late.state, SessionState::Closed);
    // The earlier session won: the identity stays registered.
    assert!(presence.contains(&s("alice")));
}

#[test]
fn either_loop_end_cancels_the_sibling() {
    let mut a = Session::start(s("alice"), s("general"));
    let _ = a.on_register_outcome(true);
    assert_eq!(a.on_loop_end(SessionLoop::Deliver), SessionLoop::Ingest);
    assert_eq!(a.state, SessionState::Closing);

    let mut b = Session::start(s("bob"), s("general"));
    let _ = b.on_register_outcome(true);
    assert_eq!(b.on_loop_end(SessionLoop::Ingest), SessionLoop::Deliver);
    assert_eq!(b.state, SessionState::Closing);
}

#[test]
fn envelope_is_tagged_with_identity_and_room() {
    let mut a = Session::start(s("alice"), s("general"));
    let _ = a.on_register_outcome(true);
    let e = a.envelope_for(&s("hi"));
    assert_eq!(e.from, s("alice"));
    assert_eq!(e.room, s("general"));
    assert_eq!(e.text, s("hi"));
    a.join_room(s("lobby"));
    let e2 = a.envelope_for(&s("over here"));
    assert_eq!(e2.room, s("lobby"));
}

#[test]
fn two_sessions_exchange_a_message() {
    // End to end inside one instance: A and B join "general"; A says hi;
    // B's outbound stream carries it, tagged with A's identity.
    let mut presence = PresenceRegistry::new();
    let mut rooms = ChatRoomStreamsService::new();
    let mut bus = FanOutBus::new();

    let mut a = Session::start(s("A"), s("general"));
    assert!(a.on_register_outcome(presence.register(s("A")).is_ok()).is_ok());
    rooms.join(&s("A"), &s("general"));
    let ha = bus.subscribe(&s("general"));

    let mut b = Session::start(s("B"), s("general"));
    assert!(b.on_register_outcome(presence.register(s("B")).is_ok()).is_ok());
    rooms.join(&s("B"), &s("general"));
    let hb = bus.subscribe(&s("general"));

    // A's client sends the payload message for room "general".
    let wire = encode_say(&s("general"), &s("hi"));
    let cmd = decode_client(&wire).expect("the payload form parses");
    let envelope = match cmd {
        ClientCommand::Say(_, tx) => a.envelope_for(&tx),
        ClientCommand::Join(_) => panic!("a say is no join"),
    };
    bus.publish(&envelope);

    // B's deliver loop drains and formats.
    let got = bus.recv(hb).expect("B is subscribed");
    assert_eq!(got.from, s("A"));
    assert_eq!(got.room, s("general"));
    assert_eq!(got.text, s("hi"));
    assert_eq!(b.deliver_line(&got), s("A: hi"));

    // Echo policy, asserted explicitly: the sender does receive its own
    // broadcast back.
    let echo = bus.recv(ha).expect("A receives its own echo");
    assert_eq!(a.deliver_line(&echo), s("A: hi"));
    assert!(bus.recv(ha).is_none());
}

#[test]
fn teardown_leaves_nothing_behind() {
    let mut presence = PresenceRegistry::new();
    let mut rooms = ChatRoomStreamsService::new();
    let mut bus = FanOutBus::new();

    let mut a = Session::start(s("alice"), s("general"));
    let _ = a.on_register_outcome(presence.register(s("alice")).is_ok());
    rooms.join(&s("alice"), &s("general"));
    let h = bus.subscribe(&s("general"));

    // The write side fails; the ingest loop is cancelled unconditionally.
    let cancelled = a.on_loop_end(SessionLoop::Deliver);
    assert_eq!(cancelled, SessionLoop::Ingest);

    // Closing: departure notice, then the registries forget the session.
    bus.publish(&Envelope::new(s("fabric"), s("general"), a.departure_notice()));
    rooms.leave_all(&s("alice"));
    presence.unregister(&s("alice"));
    bus.unsubscribe(h);
    a.on_cleanup_done();

    assert_eq!(a.state, SessionState::Closed);
    assert!(!presence.contains(&s("alice")));
    assert!(rooms.rooms_of(&s("alice")).is_empty());
    assert_eq!(rooms.member_count(&s("general")), 0);
}

#[test]
fn bridge_carries_a_publish_across_instances() {
    // Instance 1 and instance 2 both bridge "general" to the external bus.
    let mut bus1 = FanOutBus::new();
    let mut bus2 = FanOutBus::new();
    let _h1 = bus1.subscribe(&s("general"));
    let h2 = bus2.subscribe(&s("general"));

    let mut external: Vec<String> = Vec::new();

    // A publish on instance 1 goes out locally and onto the external bus.
    let e = Envelope::new(s("alice"), s("general"), s("hi from 1"));
    bus1.publish(&e);
    external.push(encode_frame(&s("node1"), &e));

    // Each instance consumes the external topic and applies what other
    // instances published.
    for frame in &external {
        let (inst, env) = decode_frame(frame).expect("bridge frames decode");
        if accept_external(&s("node1"), &inst) {
            bus1.publish(&env);
        }
        if accept_external(&s("node2"), &inst) {
            bus2.publish(&env);
        }
    }

    // The subscriber on instance 2 sees the publish made on instance 1.
    let got = bus2.recv(h2).expect("the bridge delivered");
    assert_eq!(got.from, s("alice"));
    assert_eq!(got.room, s("general"));
    assert_eq!(got.text, s("hi from 1"));

    // Loop suppression: instance 1 does not apply its own frame twice.
    let first = bus1.recv(_h1).expect("the local publish");
    assert_eq!(first.text, s("hi from 1"));
    assert!(bus1.recv(_h1).is_none());
}
