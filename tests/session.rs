use keks_meet::crypto::Key;
use keks_meet::peer::{Effect, Negotiation, Peer};
use keks_meet::protocol::{
    ChatMesssage, Client, ClientboundPacket, ProvideInfo, RelayMessage, RelayMessageWrapper,
    ServerboundPacket,
};
use keks_meet::session::{Config, FindError, Instance};

fn info(id: &str, kind: &str) -> ProvideInfo {
    ProvideInfo {
        id: id.to_string(),
        kind: kind.to_string(),
        track_kind: None,
        label: Some(format!("label of {id}")),
        size: None,
    }
}

fn relay(to: Client, message: RelayMessage) -> Effect {
    Effect::Relay { recipient: Some(to), message }
}

fn instance(secret: &str) -> Instance {
    Instance::new(
        Config { signaling_uri: "wss://example.org".to_string(), username: "alice".to_string() },
        Key::derive(secret),
    )
}

fn joined(me: u64, peers: &[u64]) -> Instance {
    let mut inst = instance("secret");
    inst.on_message(ClientboundPacket::Init { your_id: Client(me), version: "v".to_string() });
    for p in peers {
        inst.on_message(ClientboundPacket::ClientJoin { id: Client(*p) });
    }
    inst
}

#[test]
fn init_records_own_id() {
    let mut inst = instance("secret");
    assert_eq!(inst.send_relay(RelayMessage::Request { id: "x".to_string() }), None);
    let out = inst.on_message(ClientboundPacket::Init { your_id: Client(5), version: "v".to_string() });
    assert!(out.is_empty());
    assert_eq!(inst.my_id, Some(Client(5)));
    let w = inst.send_relay(RelayMessage::Request { id: "x".to_string() }).unwrap();
    assert_eq!(w.sender, Client(5));
}

#[test]
fn client_join_greets_peer() {
    let mut inst = joined(1, &[]);
    inst.add_local_resource(info("cam", "track"));
    let out = inst.on_message(ClientboundPacket::ClientJoin { id: Client(2) });
    assert_eq!(
        out,
        vec![
            relay(Client(2), RelayMessage::Identify { username: "alice".to_string() }),
            relay(Client(2), RelayMessage::Provide(info("cam", "track"))),
            Effect::PeerJoined { peer: Client(2) },
        ]
    );
    assert_eq!(inst.peers.len(), 1);
    assert!(inst.peers[0].polite);
}

#[test]
fn self_join_echo_is_ignored() {
    let mut inst = joined(1, &[]);
    assert!(inst.on_message(ClientboundPacket::ClientJoin { id: Client(1) }).is_empty());
    assert!(inst.peers.is_empty());
}

#[test]
fn join_before_init_is_ignored() {
    let mut inst = instance("secret");
    assert!(inst.on_message(ClientboundPacket::ClientJoin { id: Client(3) }).is_empty());
    assert!(inst.peers.is_empty());
}

#[test]
fn client_leave_removes_peer() {
    let mut inst = joined(1, &[2, 3]);
    let out = inst.on_message(ClientboundPacket::ClientLeave { id: Client(2) });
    assert_eq!(out, vec![Effect::PeerLeft { peer: Client(2) }]);
    assert_eq!(inst.peers.len(), 1);
    assert_eq!(inst.peers[0].id, Client(3));
    assert!(inst.on_message(ClientboundPacket::ClientLeave { id: Client(2) }).is_empty());
}

#[test]
fn room_info_passes_through() {
    let mut inst = joined(1, &[]);
    let out = inst.on_message(ClientboundPacket::RoomInfo { hash: "h".to_string(), user_count: 2 });
    assert_eq!(out, vec![Effect::RoomInfo { hash: "h".to_string(), user_count: 2 }]);
}

#[test]
fn message_round_trip_through_session() {
    let mut inst = joined(1, &[2]);
    let packet = inst.seal_relay(Some(Client(1)), "{\"hello\":1}");
    let message = match packet {
        ServerboundPacket::Relay { recipient, message } => {
            assert_eq!(recipient, Some(Client(1)));
            message
        }
        _ => panic!("not a relay"),
    };
    let out = inst.on_message(ClientboundPacket::Message { sender: Client(2), message });
    assert_eq!(
        out,
        vec![Effect::Decrypted { sender: Client(2), plaintext: "{\"hello\":1}".to_string() }]
    );
}

#[test]
fn message_under_other_secret_is_dropped() {
    let other = instance("another secret");
    let packet = other.seal_relay(None, "{}");
    let message = match packet {
        ServerboundPacket::Relay { message, .. } => message,
        _ => panic!("not a relay"),
    };
    let mut inst = joined(1, &[2]);
    assert!(inst.on_message(ClientboundPacket::Message { sender: Client(2), message }).is_empty());
    let garbage = "not base64 at all!".to_string();
    assert!(inst.on_message(ClientboundPacket::Message { sender: Client(2), message: garbage }).is_empty());
}

#[test]
fn anti_spoofing_drops_mismatched_sender() {
    let mut inst = joined(1, &[2, 3]);
    let wrapper = RelayMessageWrapper {
        sender: Client(3),
        inner: RelayMessage::Provide(info("file", "file")),
    };
    let out = inst.on_relay_wrapper(Client(2), wrapper);
    assert!(out.is_empty());
    assert_eq!(inst.peers[0].remote_resources(), vec![]);
    assert_eq!(inst.peers[1].remote_resources(), vec![]);
}

#[test]
fn relay_dispatched_to_peer_and_consumer() {
    let mut inst = joined(1, &[2]);
    let wrapper = RelayMessageWrapper { sender: Client(2), inner: RelayMessage::Provide(info("f", "file")) };
    let out = inst.on_relay_wrapper(Client(2), wrapper);
    assert_eq!(
        out,
        vec![
            Effect::ResourceAdded { peer: Client(2), info: info("f", "file") },
            Effect::RelayObserved { peer: Client(2), message: RelayMessage::Provide(info("f", "file")) },
        ]
    );
    assert_eq!(inst.peers[0].remote_resource(&"f".to_string()), Some(info("f", "file")));
}

#[test]
fn relay_from_unknown_peer_is_dropped() {
    let mut inst = joined(1, &[2]);
    let out = inst.on_relay(Client(9), RelayMessage::Chat(ChatMesssage::Text("hi".to_string())));
    assert!(out.is_empty());
}

#[test]
fn resource_lifecycle_add_and_remove() {
    let mut inst = joined(1, &[2, 3]);
    let out = inst.add_local_resource(info("r", "file"));
    assert_eq!(
        out,
        vec![
            relay(Client(2), RelayMessage::Provide(info("r", "file"))),
            relay(Client(3), RelayMessage::Provide(info("r", "file"))),
        ]
    );
    let out = inst.remove_local_resource("r".to_string()).unwrap();
    assert_eq!(
        out,
        vec![
            relay(Client(2), RelayMessage::ProvideStop { id: "r".to_string() }),
            relay(Client(3), RelayMessage::ProvideStop { id: "r".to_string() }),
        ]
    );
    assert!(inst.local_resources.is_empty());
}

#[test]
fn remove_unknown_resource_fails() {
    let mut inst = joined(1, &[2]);
    inst.add_local_resource(info("r", "file"));
    assert_eq!(inst.remove_local_resource("nope".to_string()), None);
    assert_eq!(inst.local_resources.len(), 1);
}

#[test]
fn add_same_id_replaces() {
    let mut inst = joined(1, &[]);
    inst.add_local_resource(info("r", "file"));
    inst.add_local_resource(info("r", "port"));
    assert_eq!(inst.local_resources, vec![info("r", "port")]);
}

#[test]
fn unassociated_channel_rejected() {
    let mut inst = joined(1, &[2]);
    inst.on_relay(Client(2), RelayMessage::Provide(info("cam", "track")));
    assert_eq!(
        inst.on_channel(Client(2), &"cam".to_string()),
        Effect::ResourceConnected { peer: Client(2), info: info("cam", "track") }
    );
    assert_eq!(
        inst.on_channel(Client(2), &"other".to_string()),
        Effect::RejectChannel { peer: Client(2) }
    );
    assert_eq!(
        inst.on_channel(Client(7), &"cam".to_string()),
        Effect::RejectChannel { peer: Client(7) }
    );
}

#[test]
fn provide_stop_withdraws_announcement() {
    let mut inst = joined(1, &[2]);
    inst.on_relay(Client(2), RelayMessage::Provide(info("cam", "track")));
    let out = inst.on_relay(Client(2), RelayMessage::ProvideStop { id: "cam".to_string() });
    assert_eq!(out[0], Effect::ResourceRemoved { peer: Client(2), id: "cam".to_string() });
    assert_eq!(
        inst.on_channel(Client(2), &"cam".to_string()),
        Effect::RejectChannel { peer: Client(2) }
    );
}

#[test]
fn request_for_local_resource_is_served() {
    let mut inst = joined(1, &[2]);
    inst.add_local_resource(info("f", "file"));
    let out = inst.on_relay(Client(2), RelayMessage::Request { id: "f".to_string() });
    assert_eq!(out[0], Effect::ServeRequest { peer: Client(2), id: "f".to_string() });
    let out = inst.on_relay(Client(2), RelayMessage::Request { id: "g".to_string() });
    assert_eq!(out.len(), 1);
    assert!(matches!(out[0], Effect::RelayObserved { .. }));
}

#[test]
fn identify_sets_username() {
    let mut inst = joined(1, &[2]);
    inst.on_relay(Client(2), RelayMessage::Identify { username: "bob".to_string() });
    assert_eq!(inst.peers[0].username, Some("bob".to_string()));
}

#[test]
fn negotiation_offer_answer() {
    let mut p = Peer::create(Client(1), Client(2));
    assert_eq!(p.on_negotiation_needed(), Effect::CreateOffer { peer: Client(2) });
    assert_eq!(p.negotiation, Negotiation::Offering);
    assert_eq!(p.offer("o".to_string()), relay(Client(2), RelayMessage::Offer("o".to_string())));
    assert_eq!(
        p.on_answer("a".to_string()),
        Effect::AcceptAnswer { peer: Client(2), sdp: "a".to_string() }
    );
    assert_eq!(p.negotiation, Negotiation::Stable);
}

#[test]
fn negotiation_answering() {
    let mut p = Peer::create(Client(5), Client(2));
    let out = p.on_relay(&vec![], RelayMessage::Offer("o".to_string()));
    assert_eq!(out, vec![Effect::AcceptOffer { peer: Client(2), sdp: "o".to_string() }]);
    assert_eq!(p.negotiation, Negotiation::Answering);
    assert_eq!(p.answer("a".to_string()), relay(Client(2), RelayMessage::Answer("a".to_string())));
    assert_eq!(p.negotiation, Negotiation::Stable);
}

#[test]
fn glare_impolite_side_keeps_its_offer() {
    let mut p = Peer::create(Client(5), Client(2));
    assert!(!p.polite);
    p.on_negotiation_needed();
    assert!(p.on_offer("theirs".to_string()).is_empty());
    assert_eq!(p.negotiation, Negotiation::Offering);
}

#[test]
fn glare_polite_side_yields() {
    let mut p = Peer::create(Client(1), Client(2));
    p.on_negotiation_needed();
    assert_eq!(
        p.on_offer("theirs".to_string()),
        vec![Effect::AcceptOffer { peer: Client(2), sdp: "theirs".to_string() }]
    );
    assert_eq!(p.negotiation, Negotiation::Answering);
}

#[test]
fn find_id_errors() {
    let mut inst = joined(1, &[2, 3]);
    inst.on_relay(Client(3), RelayMessage::Provide(info("f", "file")));
    assert_eq!(
        inst.find_id(&"f".to_string(), &"file".to_string()),
        Ok((Client(3), info("f", "file")))
    );
    assert_eq!(
        inst.find_id(&"f".to_string(), &"port".to_string()),
        Err(FindError::WrongKind { found: "file".to_string() })
    );
    assert_eq!(inst.find_id(&"g".to_string(), &"file".to_string()), Err(FindError::NotFound));
}

#[test]
fn init_remote_identifies_and_provides() {
    let p = Peer::create(Client(1), Client(2));
    let local = vec![info("a", "file"), info("b", "port")];
    assert_eq!(
        p.init_remote(&"carol".to_string(), &local),
        vec![
            relay(Client(2), RelayMessage::Identify { username: "carol".to_string() }),
            relay(Client(2), RelayMessage::Provide(info("a", "file"))),
            relay(Client(2), RelayMessage::Provide(info("b", "port"))),
        ]
    );
}

#[test]
fn my_id_follows_init() {
    let mut inst = instance("secret");
    assert_eq!(inst.my_id(), None);
    inst.on_message(ClientboundPacket::Init { your_id: Client(9), version: "v".to_string() });
    assert_eq!(inst.my_id(), Some(Client(9)));
}

#[test]
fn requests_go_to_the_owner() {
    let p = Peer::create(Client(1), Client(2));
    assert_eq!(
        p.request_resource("f".to_string()),
        relay(Client(2), RelayMessage::Request { id: "f".to_string() })
    );
    assert_eq!(
        p.request_stop_resource("f".to_string()),
        relay(Client(2), RelayMessage::RequestStop { id: "f".to_string() })
    );
}

#[test]
fn repeated_join_replaces_peer() {
    let mut inst = joined(1, &[2]);
    inst.add_local_resource(info("cam", "track"));
    inst.on_relay(Client(2), RelayMessage::Provide(info("f", "file")));
    inst.on_relay(Client(2), RelayMessage::Identify { username: "bob".to_string() });
    let out = inst.on_message(ClientboundPacket::ClientJoin { id: Client(2) });
    assert_eq!(
        out,
        vec![
            relay(Client(2), RelayMessage::Identify { username: "alice".to_string() }),
            relay(Client(2), RelayMessage::Provide(info("cam", "track"))),
            Effect::PeerJoined { peer: Client(2) },
        ]
    );
    assert_eq!(inst.peers.len(), 1);
    assert_eq!(inst.peers[0].username, None);
    assert_eq!(inst.peers[0].remote_resources(), vec![]);
}
