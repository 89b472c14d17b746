use chat_rooms::bus::{FanOutBus, SUBSCRIBER_QUEUE_CAPACITY};
use chat_rooms::codec::{
    accept_external, decode_client, decode_frame, encode_frame, encode_join, encode_len,
    encode_say, ClientCommand,
};
use chat_rooms::Envelope;

fn s(x: &str) -> String {
    x.to_string()
}

fn env(from: &str, room: &str, text: &str) -> Envelope {
    Envelope::new(s(from), s(room), s(text))
}

#[test]
fn subscriber_sees_publish_order() {
    let mut bus = FanOutBus::new();
    let h = bus.subscribe(&s("general"));
    bus.publish(&env("a", "general", "one"));
    bus.publish(&env("a", "general", "two"));
    bus.publish(&env("a", "general", "three"));
    let texts: Vec<String> = std::iter::from_fn(|| bus.recv(h).map(|e| e.text)).collect();
    assert_eq!(texts, vec![s("one"), s("two"), s("three")]);
    assert!(bus.recv(h).is_none());
}

#[test]
fn overflow_drops_oldest_only() {
    let mut bus = FanOutBus::new();
    let h = bus.subscribe(&s("general"));
    let total = SUBSCRIBER_QUEUE_CAPACITY + 5;
    for k in 0..total {
        bus.publish(&env("a", "general", &format!("m{}", k)));
    }
    let mut got: Vec<String> = Vec::new();
    while let Some(e) = bus.recv(h) {
        got.push(e.text);
    }
    assert_eq!(got.len(), SUBSCRIBER_QUEUE_CAPACITY);
    // The oldest five gave way; the rest arrive in publish order.
    for (i, text) in got.iter().enumerate() {
        assert_eq!(*text, format!("m{}", i + 5));
    }
}

#[test]
fn slow_subscriber_does_not_disturb_others() {
    let mut bus = FanOutBus::new();
    let slow = bus.subscribe(&s("general"));
    let quick = bus.subscribe(&s("general"));
    let total = SUBSCRIBER_QUEUE_CAPACITY + 20;
    for k in 0..total {
        bus.publish(&env("a", "general", &format!("m{}", k)));
        // The quick subscriber drains as fast as things come.
        let e = bus.recv(quick).expect("a drained subscriber misses nothing");
        assert_eq!(e.text, format!("m{}", k));
    }
    // The slow one lost exactly the overflow, nothing else, order kept.
    let mut got: Vec<String> = Vec::new();
    while let Some(e) = bus.recv(slow) {
        got.push(e.text);
    }
    assert_eq!(got.len(), SUBSCRIBER_QUEUE_CAPACITY);
    for (i, text) in got.iter().enumerate() {
        assert_eq!(*text, format!("m{}", i + 20));
    }
}

#[test]
fn rooms_are_isolated() {
    let mut bus = FanOutBus::new();
    let general = bus.subscribe(&s("general"));
    let lobby = bus.subscribe(&s("lobby"));
    bus.publish(&env("a", "general", "hi"));
    assert!(bus.recv(lobby).is_none());
    assert_eq!(bus.recv(general).unwrap().text, s("hi"));
}

#[test]
fn publish_without_subscribers_is_dropped() {
    let mut bus = FanOutBus::new();
    bus.publish(&env("a", "nowhere", "lost"));
    let h = bus.subscribe(&s("nowhere"));
    // Subscribing afterwards shows nothing: no buffering for absent listeners.
    assert!(bus.recv(h).is_none());
}

#[test]
fn unsubscribe_frees_the_handle() {
    let mut bus = FanOutBus::new();
    let h1 = bus.subscribe(&s("general"));
    let h2 = bus.subscribe(&s("general"));
    bus.unsubscribe(h1);
    bus.publish(&env("a", "general", "hi"));
    assert_eq!(bus.recv(h2).unwrap().text, s("hi"));
}

#[test]
fn encode_len_is_plain_decimal() {
    assert_eq!(encode_len(0), s("0"));
    assert_eq!(encode_len(7), s("7"));
    assert_eq!(encode_len(10), s("10"));
    assert_eq!(encode_len(42), s("42"));
    assert_eq!(encode_len(100), s("100"));
    assert_eq!(encode_len(65535), s("65535"));
}

#[test]
fn frame_encoding_shape() {
    let frame = encode_frame(&s("node1"), &env("alice", "general", "hi"));
    assert_eq!(frame, s("5:node17:general5:alicehi"));
}

#[test]
fn frame_round_trip() {
    let e = env("alice", "general", "hello there");
    let frame = encode_frame(&s("node1"), &e);
    let (inst, back) = decode_frame(&frame).expect("an encoded frame decodes");
    assert_eq!(inst, s("node1"));
    assert_eq!(back.from, s("alice"));
    assert_eq!(back.room, s("general"));
    assert_eq!(back.text, s("hello there"));
}

#[test]
fn frame_round_trip_with_hostile_content() {
    // Colons, digits and empty fields in the values must not confuse the
    // framing.
    let e = env("a:1:b", "7:room", "");
    let frame = encode_frame(&s(""), &e);
    let (inst, back) = decode_frame(&frame).expect("an encoded frame decodes");
    assert_eq!(inst, s(""));
    assert_eq!(back.from, s("a:1:b"));
    assert_eq!(back.room, s("7:room"));
    assert_eq!(back.text, s(""));
}

#[test]
fn malformed_frames_are_refused() {
    assert!(decode_frame("").is_none());
    assert!(decode_frame("nonsense").is_none());
    assert!(decode_frame("5:node1").is_none());
    assert!(decode_frame("99:node17:general5:alicehi").is_none());
    // A non-canonical length marker is no frame.
    assert!(decode_frame("05:node17:general5:alicehi").is_none());
}

#[test]
fn client_messages_round_trip() {
    let j = encode_join(&s("general"));
    assert_eq!(j, s("J7:general"));
    match decode_client(&j) {
        Some(ClientCommand::Join(rm)) => assert_eq!(rm, s("general")),
        other => panic!("a join message decodes as a join, got {:?}", other.is_some()),
    }
    let m = encode_say(&s("general"), &s("hi there"));
    assert_eq!(m, s("M7:generalhi there"));
    match decode_client(&m) {
        Some(ClientCommand::Say(rm, tx)) => {
            assert_eq!(rm, s("general"));
            assert_eq!(tx, s("hi there"));
        }
        other => panic!("a payload message decodes as a say, got {:?}", other.is_some()),
    }
}

#[test]
fn malformed_client_messages_are_refused() {
    assert!(decode_client("").is_none());
    assert!(decode_client("X7:general").is_none());
    assert!(decode_client("J").is_none());
    assert!(decode_client("Jgeneral").is_none());
    // Trailing garbage after a join is malformed.
    assert!(decode_client("J7:generalxx").is_none());
}

#[test]
fn loop_suppression_compares_instances() {
    assert!(!accept_external(&s("node1"), &s("node1")));
    assert!(accept_external(&s("node1"), &s("node2")));
}
