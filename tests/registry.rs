use keks_meet::protocol::{Client, ClientboundPacket, ServerboundPacket};
use keks_meet::registry::{Delivery, State};

fn connect(state: &mut State) -> Client {
    let (c, out) = state.connect("keks-meet test".to_string()).unwrap();
    assert_eq!(
        out,
        vec![Delivery {
            to: c,
            packet: ClientboundPacket::Init { your_id: c, version: "keks-meet test".to_string() },
        }]
    );
    c
}

fn join(state: &mut State, c: Client, hash: &str) -> Vec<Delivery> {
    state.on_recv(c, ServerboundPacket::Join { hash: Some(hash.to_string()) })
}

fn joins_sent_to(out: &[Delivery], to: Client) -> Vec<Client> {
    out.iter()
        .filter(|d| d.to == to)
        .filter_map(|d| match d.packet {
            ClientboundPacket::ClientJoin { id } => Some(id),
            _ => None,
        })
        .collect()
}

fn leaves_sent_to(out: &[Delivery], to: Client) -> Vec<Client> {
    out.iter()
        .filter(|d| d.to == to)
        .filter_map(|d| match d.packet {
            ClientboundPacket::ClientLeave { id } => Some(id),
            _ => None,
        })
        .collect()
}

#[test]
fn connect_assigns_fresh_ids() {
    let mut state = State::new();
    let a = connect(&mut state);
    let b = connect(&mut state);
    assert_eq!(a, Client(1));
    assert_eq!(b, Client(2));
}

#[test]
fn join_empty_room_sends_nothing() {
    let mut state = State::new();
    let a = connect(&mut state);
    assert!(join(&mut state, a, "room").is_empty());
}

#[test]
fn join_snapshot_three_members() {
    let mut state = State::new();
    let a = connect(&mut state);
    let b = connect(&mut state);
    let c = connect(&mut state);
    join(&mut state, a, "room");
    join(&mut state, b, "room");
    let out = join(&mut state, c, "room");
    assert_eq!(joins_sent_to(&out, c), vec![a, b]);
    assert_eq!(joins_sent_to(&out, a), vec![c]);
    assert_eq!(joins_sent_to(&out, b), vec![c]);
    assert_eq!(out.len(), 4);
}

#[test]
fn join_does_not_cross_rooms() {
    let mut state = State::new();
    let a = connect(&mut state);
    let b = connect(&mut state);
    join(&mut state, a, "one");
    let out = join(&mut state, b, "two");
    assert!(out.is_empty());
}

#[test]
fn leave_broadcast_to_remaining_members() {
    let mut state = State::new();
    let a = connect(&mut state);
    let b = connect(&mut state);
    let c = connect(&mut state);
    join(&mut state, a, "room");
    join(&mut state, b, "room");
    join(&mut state, c, "room");
    let out = state.on_recv(b, ServerboundPacket::Join { hash: None });
    assert_eq!(leaves_sent_to(&out, a), vec![b]);
    assert_eq!(leaves_sent_to(&out, c), vec![b]);
    assert!(leaves_sent_to(&out, b).is_empty());
    assert_eq!(out.len(), 2);
}

#[test]
fn switching_rooms_leaves_the_old_one() {
    let mut state = State::new();
    let a = connect(&mut state);
    let b = connect(&mut state);
    join(&mut state, a, "one");
    join(&mut state, b, "one");
    let out = join(&mut state, b, "two");
    assert_eq!(out, vec![Delivery { to: a, packet: ClientboundPacket::ClientLeave { id: b } }]);
}

#[test]
fn disconnect_leaves_room() {
    let mut state = State::new();
    let a = connect(&mut state);
    let b = connect(&mut state);
    join(&mut state, a, "room");
    join(&mut state, b, "room");
    let out = state.disconnect(a);
    assert_eq!(out, vec![Delivery { to: b, packet: ClientboundPacket::ClientLeave { id: a } }]);
    let again = state.on_recv(a, ServerboundPacket::Relay { recipient: None, message: "x".to_string() });
    assert!(again.is_empty());
}

#[test]
fn room_is_recreated_after_last_member_leaves() {
    let mut state = State::new();
    let a = connect(&mut state);
    let b = connect(&mut state);
    join(&mut state, a, "room");
    state.disconnect(a);
    assert!(join(&mut state, b, "room").is_empty());
}

#[test]
fn relay_broadcast_skips_sender() {
    let mut state = State::new();
    let a = connect(&mut state);
    let b = connect(&mut state);
    let c = connect(&mut state);
    join(&mut state, a, "room");
    join(&mut state, b, "room");
    join(&mut state, c, "room");
    let out = state.on_recv(b, ServerboundPacket::Relay { recipient: None, message: "blob".to_string() });
    let msg = ClientboundPacket::Message { sender: b, message: "blob".to_string() };
    assert_eq!(
        out,
        vec![Delivery { to: a, packet: msg.clone() }, Delivery { to: c, packet: msg }]
    );
}

#[test]
fn relay_to_recipient_only() {
    let mut state = State::new();
    let a = connect(&mut state);
    let b = connect(&mut state);
    let c = connect(&mut state);
    join(&mut state, a, "room");
    join(&mut state, b, "room");
    join(&mut state, c, "room");
    let out = state.on_recv(a, ServerboundPacket::Relay { recipient: Some(c), message: "m".to_string() });
    assert_eq!(
        out,
        vec![Delivery { to: c, packet: ClientboundPacket::Message { sender: a, message: "m".to_string() } }]
    );
}

#[test]
fn relay_to_non_member_is_dropped() {
    let mut state = State::new();
    let a = connect(&mut state);
    let b = connect(&mut state);
    join(&mut state, a, "one");
    join(&mut state, b, "two");
    let out = state.on_recv(a, ServerboundPacket::Relay { recipient: Some(b), message: "m".to_string() });
    assert!(out.is_empty());
    let out = state.on_recv(a, ServerboundPacket::Relay { recipient: Some(Client(99)), message: "m".to_string() });
    assert!(out.is_empty());
}

#[test]
fn relay_outside_room_is_dropped() {
    let mut state = State::new();
    let a = connect(&mut state);
    let out = state.on_recv(a, ServerboundPacket::Relay { recipient: None, message: "m".to_string() });
    assert!(out.is_empty());
}

#[test]
fn ping_does_nothing() {
    let mut state = State::new();
    let a = connect(&mut state);
    join(&mut state, a, "room");
    assert!(state.on_recv(a, ServerboundPacket::Ping).is_empty());
}

#[test]
fn unknown_client_is_ignored() {
    let mut state = State::new();
    let _a = connect(&mut state);
    assert!(join(&mut state, Client(42), "room").is_empty());
    assert!(state.disconnect(Client(42)).is_empty());
}

#[test]
fn watch_semantics_two_members() {
    let mut state = State::new();
    let a = connect(&mut state);
    let b = connect(&mut state);
    let w = connect(&mut state);
    let d = connect(&mut state);
    join(&mut state, a, "h");
    join(&mut state, b, "h");
    let out = state.on_recv(w, ServerboundPacket::WatchRooms(vec!["h".to_string()]));
    assert_eq!(
        out,
        vec![Delivery { to: w, packet: ClientboundPacket::RoomInfo { hash: "h".to_string(), user_count: 2 } }]
    );
    let out = join(&mut state, d, "h");
    assert!(out.contains(&Delivery {
        to: w,
        packet: ClientboundPacket::RoomInfo { hash: "h".to_string(), user_count: 3 }
    }));
    let out = state.on_recv(a, ServerboundPacket::Join { hash: None });
    assert!(out.contains(&Delivery {
        to: w,
        packet: ClientboundPacket::RoomInfo { hash: "h".to_string(), user_count: 2 }
    }));
}

#[test]
fn watch_of_empty_room_answers_nothing() {
    let mut state = State::new();
    let w = connect(&mut state);
    let out = state.on_recv(w, ServerboundPacket::WatchRooms(vec!["nobody".to_string()]));
    assert!(out.is_empty());
}

#[test]
fn watch_list_is_replaced() {
    let mut state = State::new();
    let w = connect(&mut state);
    let a = connect(&mut state);
    state.on_recv(w, ServerboundPacket::WatchRooms(vec!["h".to_string()]));
    state.on_recv(w, ServerboundPacket::WatchRooms(vec![]));
    assert!(join(&mut state, a, "h").is_empty());
}

#[test]
fn watcher_disconnect_stops_updates() {
    let mut state = State::new();
    let w = connect(&mut state);
    let a = connect(&mut state);
    state.on_recv(w, ServerboundPacket::WatchRooms(vec!["h".to_string()]));
    state.disconnect(w);
    assert!(join(&mut state, a, "h").is_empty());
}

#[test]
fn members_track_joins_and_leaves() {
    let mut state = State::new();
    let a = connect(&mut state);
    let b = connect(&mut state);
    let room = "room".to_string();
    assert!(state.members(&room).is_empty());
    join(&mut state, a, "room");
    join(&mut state, b, "room");
    assert_eq!(state.members(&room), vec![a, b]);
    state.disconnect(a);
    assert_eq!(state.members(&room), vec![b]);
    state.on_recv(b, ServerboundPacket::Join { hash: None });
    assert!(state.members(&room).is_empty());
}
