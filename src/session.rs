//! The client session: the peer table, the local resources and the dispatch
//! of packets from the signaling server.
use vstd::prelude::*;
use vstd::utf8::*;
use crate::crypto::{base64_decoded, opens_to, sealed_text, Key, MAX_PLAINTEXT};
use crate::peer::{
    init_messages, keys_unique, lemma_in_table, lemma_not_in_table, provided_map, relay_spec,
    relay_to, table_find, table_insert, table_remove, Effect, Negotiation, Peer,
};
use crate::protocol::{
    Client, ClientboundPacket, ProvideInfo, RelayMessage, RelayMessageWrapper, ServerboundPacket,
};

verus! {

pub struct Config {
    pub signaling_uri: String,
    pub username: String,
}

/// Why `Instance::find_id` found no resource.
#[derive(Debug, Clone, PartialEq, Eq)]
pub enum FindError {
    NotFound,
    WrongKind { found: String },
}

/// One participant's session.
pub struct Instance {
    pub config: Config,
    pub key: Key,
    pub my_id: Option<Client>,
    pub peers: Vec<Peer>,
    pub local_resources: Vec<ProvideInfo>,
}

pub open spec fn peer_ids_unique(ps: Seq<Peer>) -> bool {
    forall|a: int, b: int| 0 <= a < b < ps.len() ==> (#[trigger] ps[a]).id != (#[trigger] ps[b]).id
}

pub open spec fn has_peer(ps: Seq<Peer>, id: Client) -> bool {
    exists|k: int| 0 <= k < ps.len() && (#[trigger] ps[k]).id == id
}

/// `m` relayed to each of `ps`, in order.
pub open spec fn relay_all(ps: Seq<Peer>, m: RelayMessage) -> Seq<Effect>
    decreases ps.len(),
{
    if ps.len() == 0 {
        Seq::empty()
    } else {
        relay_all(ps.drop_last(), m).push(relay_to(ps.last().id, m))
    }
}

/// What a newly joined peer is sent, then told to the consumer.
pub open spec fn greeting(peer: Client, username: String, local: Seq<ProvideInfo>) -> Seq<Effect> {
    init_messages(peer, username, local) + seq![Effect::PeerJoined { peer: peer }]
}

/// The messages relayed to `x` by `out`, in order.
pub open spec fn relayed_to(out: Seq<Effect>, x: Client) -> Seq<RelayMessage>
    decreases out.len(),
{
    if out.len() == 0 {
        Seq::empty()
    } else {
        let rest = relayed_to(out.drop_last(), x);
        match out.last() {
            Effect::Relay { recipient, message } => if recipient == Some(x) {
                rest.push(message)
            } else {
                rest
            },
            _ => rest,
        }
    }
}

impl Instance {
    /// Peer identifiers are distinct, and each table is keyed by id.
    pub open spec fn wf(&self) -> bool {
        &&& peer_ids_unique(self.peers@)
        &&& forall|k: int| 0 <= k < self.peers@.len() ==> (#[trigger] self.peers@[k]).wf()
        &&& keys_unique(self.local_resources@)
    }

    /// The session's own resources, by id.
    pub open spec fn local(&self) -> Map<Seq<char>, ProvideInfo> {
        provided_map(self.local_resources@)
    }

    /// A session that knows no peer and offers nothing yet.
    pub fn new(config: Config, key: Key) -> (r: Instance)
        ensures
            r.wf(),
            r.config == config,
            r.key == key,
            r.my_id is None,
            r.peers@.len() == 0,
            r.local_resources@.len() == 0,
    {
        Instance { config, key, my_id: None, peers: Vec::new(), local_resources: Vec::new() }
    }

    /// The identifier the server gave this session, once it has.
    pub fn my_id(&self) -> (r: Option<Client>)
        ensures
            r == self.my_id,
    {
        self.my_id
    }

    fn peer_index(&self, id: Client) -> (r: Option<usize>)
        ensures
            match r {
                Some(k) => k < self.peers@.len() && self.peers@[k as int].id == id,
                None => !has_peer(self.peers@, id),
            },
    {
        let mut i: usize = 0;
        while i < self.peers.len()
            invariant
                i <= self.peers@.len(),
                forall|j: int| 0 <= j < i ==> (#[trigger] self.peers@[j]).id != id,
            decreases self.peers.len() - i,
        {
            if self.peers[i].id == id {
                return Some(i);
            }
            i = i + 1;
        }
        None
    }

    /// `m` relayed to every current peer.
    fn relay_to_peers(&self, m: &RelayMessage) -> (r: Vec<Effect>)
        ensures
            r@ == relay_all(self.peers@, *m),
    {
        let mut r = Vec::new();
        let mut i: usize = 0;
        assert(self.peers@.take(0) =~= Seq::<Peer>::empty());
        while i < self.peers.len()
            invariant
                i <= self.peers@.len(),
                r@ == relay_all(self.peers@.take(i as int), *m),
            decreases self.peers.len() - i,
        {
            r.push(self.peers[i].send_relay(m.duplicate()));
            proof {
                assert(self.peers@.take(i + 1).drop_last() =~= self.peers@.take(i as int));
            }
            i = i + 1;
        }
        assert(self.peers@.take(self.peers@.len() as int) =~= self.peers@);
        r
    }

    /// Handles one packet from the signaling server.
    ///
    /// A `ClientJoin` before `Init`, for this session itself, or for a peer
    /// already known changes nothing; so does a `ClientLeave` for this
    /// session or for an unknown peer. A `Message` whose payload does not
    /// decrypt is dropped.
    pub fn on_message(&mut self, packet: ClientboundPacket) -> (out: Vec<Effect>)
        requires
            old(self).wf(),
        ensures
            final(self).wf(),
            final(self).config == old(self).config,
            final(self).key == old(self).key,
            final(self).local_resources == old(self).local_resources,
            packet matches ClientboundPacket::Init { your_id, .. } ==> {
                    &&& final(self).my_id == Some(your_id)
                    &&& final(self).peers == old(self).peers
                    &&& out@.len() == 0
            },
            packet matches ClientboundPacket::ClientJoin { id } ==> {
                    &&& final(self).my_id == old(self).my_id
                    &&& if old(self).my_id is None || old(self).my_id == Some(id) {
                        final(self).peers == old(self).peers && out@.len() == 0
                    } else {
                        let me = old(self).my_id->0;
                        &&& out@ == greeting(
                            id,
                            old(self).config.username,
                            old(self).local_resources@,
                        )
                        &&& if has_peer(old(self).peers@, id) {
                            exists|k: int|
                                0 <= k < old(self).peers@.len() && (#[trigger] old(self).peers@[k]).id
                                    == id && final(self).peers@.len() == old(self).peers@.len()
                                    && fresh_peer(final(self).peers@[k], me, id) && forall|j: int|
                                    0 <= j < old(self).peers@.len() && j != k ==> final(self).peers@[j]
                                        == #[trigger] old(self).peers@[j]
                        } else {
                            &&& final(self).peers@.drop_last() == old(self).peers@
                            &&& fresh_peer(final(self).peers@.last(), me, id)
                        }
                    }
            },
            packet matches ClientboundPacket::ClientLeave { id } ==> {
                    &&& final(self).my_id == old(self).my_id
                    &&& if old(self).my_id != Some(id) && has_peer(old(self).peers@, id) {
                        &&& !has_peer(final(self).peers@, id)
                        &&& exists|k: int|
                            0 <= k < old(self).peers@.len() && (#[trigger] old(self).peers@[k]).id
                                == id && final(self).peers@ == old(self).peers@.remove(k)
                        &&& out@ == seq![Effect::PeerLeft { peer: id }]
                    } else {
                        final(self).peers == old(self).peers && out@.len() == 0
                    }
            },
            packet matches ClientboundPacket::Message { sender, message } ==> {
                    &&& final(self).my_id == old(self).my_id
                    &&& final(self).peers == old(self).peers
                    &&& out@.len() <= 1
                    &&& forall|k: int|
                        0 <= k < out@.len() ==> decrypted_from(#[trigger] out@[k], sender)
                            && decrypted_opening(out@[k], old(self).key.bytes(), message@)
                    &&& base64_decoded(message@) is None ==> out@.len() == 0
                    &&& forall|n: Seq<u8>, q: Seq<char>|
                        n.len() == 12 && encode_utf8(q).len() <= MAX_PLAINTEXT && message@
                            == #[trigger] sealed_text(old(self).key.bytes(), n, q) ==> out@.len()
                            == 1 && decrypted_as(out@[0], q)
            },
            packet matches ClientboundPacket::RoomInfo { hash, user_count } ==> {
                    &&& final(self).my_id == old(self).my_id
                    &&& final(self).peers == old(self).peers
                    &&& out@ == seq![Effect::RoomInfo { hash: hash, user_count: user_count }]
            },
    {
        let mut out = Vec::new();
        match packet {
            ClientboundPacket::Init { your_id, version: _ } => {
                self.my_id = Some(your_id);
            },
            ClientboundPacket::ClientJoin { id } => {
                match self.my_id {
                    None => {},
                    Some(me) => {
                        if me != id {
                            let mut peer = Peer::create(me, id);
                            out = peer.init_remote(&self.config.username, &self.local_resources);
                            out.push(Effect::PeerJoined { peer: id });
                            match self.peer_index(id) {
                                Some(k) => {
                                    let ghost before = self.peers@;
                                    self.peers.set_and_swap(k, &mut peer);
                                    proof {
                                        assert forall|a: int, b: int|
                                            0 <= a < b < self.peers@.len() implies (
                                            #[trigger] self.peers@[a]).id != (
                                            #[trigger] self.peers@[b]).id by {
                                            assert(before[a].id != before[b].id);
                                        }
                                        assert forall|j: int|
                                            0 <= j < self.peers@.len() implies (
                                            #[trigger] self.peers@[j]).wf() by {
                                            if j != k {
                                                assert(self.peers@[j] == before[j]);
                                            }
                                        }
                                        assert(fresh_peer(self.peers@[k as int], me, id));
                                    }
                                },
                                None => {
                                    let ghost before = self.peers@;
                                    self.peers.push(peer);
                                    assert(fresh_peer(self.peers@.last(), me, id));
                                    proof {
                                        assert(self.peers@.drop_last() =~= before);
                                        assert forall|a: int, b: int|
                                            0 <= a < b < self.peers@.len() implies (
                                            #[trigger] self.peers@[a]).id != (
                                            #[trigger] self.peers@[b]).id by {
                                            assert(self.peers@[a] == before[a]);
                                            if b < before.len() {
                                                assert(self.peers@[b] == before[b]);
                                            }
                                        }
                                        assert forall|k: int|
                                            0 <= k < self.peers@.len() implies (
                                            #[trigger] self.peers@[k]).wf() by {
                                            if k < before.len() {
                                                assert(self.peers@[k] == before[k]);
                                            }
                                        }
                                    }
                                },
                            }
                        }
                    },
                }
            },
            ClientboundPacket::ClientLeave { id } => {
                if self.my_id != Some(id) {
                    match self.peer_index(id) {
                        None => {},
                        Some(k) => {
                            let ghost before = self.peers@;
                            self.peers.remove(k);
                            proof {
                                let r = self.peers@;
                                assert forall|a: int, b: int| 0 <= a < b < r.len() implies (
                                #[trigger] r[a]).id != (#[trigger] r[b]).id by {
                                    let a0 = if a < k {
                                        a
                                    } else {
                                        a + 1
                                    };
                                    let b0 = if b < k {
                                        b
                                    } else {
                                        b + 1
                                    };
                                    assert(r[a] == before[a0] && r[b] == before[b0]);
                                }
                                assert forall|j: int| 0 <= j < r.len() implies (
                                #[trigger] r[j]).wf() by {
                                    let j0 = if j < k {
                                        j
                                    } else {
                                        j + 1
                                    };
                                    assert(r[j] == before[j0]);
                                }
                                assert forall|j: int| 0 <= j < r.len() implies (
                                #[trigger] r[j]).id != id by {
                                    let j0 = if j < k {
                                        j
                                    } else {
                                        j + 1
                                    };
                                    assert(r[j] == before[j0]);
                                    if j0 < k {
                                        assert(before[j0].id != before[k as int].id);
                                    } else {
                                        assert(before[k as int].id != before[j0].id);
                                    }
                                }
                            }
                            out.push(Effect::PeerLeft { peer: id });
                            assert(out@ =~= seq![Effect::PeerLeft { peer: id }]);
                        },
                    }
                }
            },
            ClientboundPacket::Message { sender, message } => {
                match self.key.decrypt(message.as_str()) {
                    None => {},
                    Some(plaintext) => {
                        out.push(Effect::Decrypted { sender, plaintext });
                    },
                }
            },
            ClientboundPacket::RoomInfo { hash, user_count } => {
                out.push(Effect::RoomInfo { hash, user_count });
                assert(out@ =~= seq![Effect::RoomInfo { hash: hash, user_count: user_count }]);
            },
        }
        out
    }

    /// Handles a decrypted relay payload whose outer packet came from
    /// `sender`. A wrapper that names another sender is dropped unseen.
    pub fn on_relay_wrapper(&mut self, sender: Client, wrapper: RelayMessageWrapper) -> (out: Vec<
        Effect,
    >)
        requires
            old(self).wf(),
        ensures
            final(self).wf(),
            wrapper.sender != sender ==> *final(self) == *old(self) && out@.len() == 0,
            wrapper.sender == sender ==> relay_outcome(
                *old(self),
                *final(self),
                sender,
                wrapper.inner,
                out@,
            ),
    {
        if wrapper.sender != sender {
            return Vec::new();
        }
        self.on_relay(sender, wrapper.inner)
    }

    /// Dispatches relay message `m` from `sender` to its peer, then to the
    /// consumer. A message from no known peer is dropped.
    pub fn on_relay(&mut self, sender: Client, m: RelayMessage) -> (out: Vec<Effect>)
        requires
            old(self).wf(),
        ensures
            final(self).wf(),
            relay_outcome(*old(self), *final(self), sender, m, out@),
    {
        match self.peer_index(sender) {
            None => Vec::new(),
            Some(k) => {
                let observed = m.duplicate();
                // The peer is taken out of the table while it steps, and put back.
                let mut p = Peer::create(sender, sender);
                self.peers.set_and_swap(k, &mut p);
                let ghost before = p;
                let mut out = p.on_relay(&self.local_resources, m);
                self.peers.set_and_swap(k, &mut p);
                out.push(Effect::RelayObserved { peer: sender, message: observed });
                proof {
                    assert(self.peers@ =~= old(self).peers@.update(k as int, self.peers@[k as int]));
                    assert forall|a: int, b: int|
                        0 <= a < b < self.peers@.len() implies (#[trigger] self.peers@[a]).id != (
                        #[trigger] self.peers@[b]).id by {
                        assert(old(self).peers@[a].id != old(self).peers@[b].id);
                    }
                    assert forall|j: int| 0 <= j < self.peers@.len() implies (
                    #[trigger] self.peers@[j]).wf() by {
                        if j != k {
                            assert(self.peers@[j] == old(self).peers@[j]);
                        }
                    }
                    let (q, provided, eff) = relay_spec(
                        before,
                        before.provided(),
                        self.local_resources@,
                        m,
                    );
                    assert(out@ =~= eff.push(Effect::RelayObserved { peer: sender, message: m }));
                }
                out
            },
        }
    }

    /// Announces a local resource: every current peer is sent `Provide`, and
    /// the resource is registered (replacing one with the same id), so that
    /// peers joining later are sent it too.
    pub fn add_local_resource(&mut self, info: ProvideInfo) -> (out: Vec<Effect>)
        requires
            old(self).wf(),
        ensures
            final(self).wf(),
            final(self).peers == old(self).peers,
            final(self).my_id == old(self).my_id,
            final(self).local() == old(self).local().insert(info.id@, info),
            out@ == relay_all(old(self).peers@, RelayMessage::Provide(info)),
    {
        let m = RelayMessage::Provide(info.duplicate());
        let out = self.relay_to_peers(&m);
        table_insert(&mut self.local_resources, info);
        out
    }

    /// Withdraws a local resource: every current peer is sent `ProvideStop`.
    /// `None`, with nothing sent, when no resource `id` is registered.
    pub fn remove_local_resource(&mut self, id: String) -> (r: Option<Vec<Effect>>)
        requires
            old(self).wf(),
        ensures
            final(self).wf(),
            final(self).peers == old(self).peers,
            final(self).my_id == old(self).my_id,
            r is None <==> !old(self).local().contains_key(id@),
            r is None ==> final(self).local_resources == old(self).local_resources,
            r is Some ==> final(self).local() == old(self).local().remove(id@) && r->0@
                == relay_all(old(self).peers@, RelayMessage::ProvideStop { id: id }),
    {
        match table_find(&self.local_resources, &id) {
            None => {
                proof {
                    lemma_not_in_table(self.local_resources@, id@);
                }
                None
            },
            Some(k) => {
                proof {
                    lemma_in_table(self.local_resources@, k as int);
                }
                table_remove(&mut self.local_resources, &id);
                Some(self.relay_to_peers(&RelayMessage::ProvideStop { id }))
            },
        }
    }

    /// The wrapper that carries `inner` from this session; `None` before
    /// the server has given it an identifier.
    pub fn send_relay(&self, inner: RelayMessage) -> (r: Option<RelayMessageWrapper>)
        ensures
            r is None <==> self.my_id is None,
            r is Some ==> r->0.sender == self.my_id->0 && r->0.inner == inner,
    {
        match self.my_id {
            Some(me) => Some(RelayMessageWrapper { sender: me, inner }),
            None => None,
        }
    }

    /// The packet that relays the serialized wrapper `plaintext` to
    /// `recipient`, or to the whole room, encrypted under the session key.
    pub fn seal_relay(&self, recipient: Option<Client>, plaintext: &str) -> (r: ServerboundPacket)
        requires
            encode_utf8(plaintext@).len() <= MAX_PLAINTEXT,
        ensures
            r matches ServerboundPacket::Relay { recipient: to, message } && to == recipient
                && exists|n: Seq<u8>|
                n.len() == 12 && message@ == sealed_text(self.key.bytes(), n, plaintext@),
    {
        ServerboundPacket::Relay { recipient, message: self.key.encrypt(plaintext) }
    }

    /// A channel labelled `label` arrived from peer `peer`; it reaches the
    /// consumer only if that peer announced a resource of that id.
    pub fn on_channel(&self, peer: Client, label: &String) -> (r: Effect)
        requires
            self.wf(),
        ensures
            (exists|k: int|
                0 <= k < self.peers@.len() && (#[trigger] self.peers@[k]).id == peer
                    && self.peers@[k].provided().contains_key(label@) && r == (
                    Effect::ResourceConnected { peer: peer, info: self.peers@[k].provided()[label@] }))
                || (r == (Effect::RejectChannel { peer: peer }) && forall|k: int|
                0 <= k < self.peers@.len() && (#[trigger] self.peers@[k]).id == peer
                    ==> !self.peers@[k].provided().contains_key(label@)),
    {
        match self.peer_index(peer) {
            Some(k) => {
                proof {
                    assert forall|j: int|
                        0 <= j < self.peers@.len() && (#[trigger] self.peers@[j]).id == peer
                            implies j == k by {
                        if j < k {
                            assert(self.peers@[j].id != self.peers@[k as int].id);
                        } else if j > k {
                            assert(self.peers@[k as int].id != self.peers@[j].id);
                        }
                    }
                }
                self.peers[k].on_channel(label)
            },
            None => Effect::RejectChannel { peer },
        }
    }

    /// The first peer, in table order, that announced resource `id`, with
    /// the announcement; an error when none did or when its kind is not
    /// `kind`.
    pub fn find_id(&self, id: &String, kind: &String) -> (r: Result<(Client, ProvideInfo), FindError>)
        requires
            self.wf(),
        ensures
            match r {
                Ok((c, info)) => exists|k: int| #[trigger]
                    first_provider(self.peers@, id@, k) && c == self.peers@[k].id && info
                        == self.peers@[k].provided()[id@] && info.kind@ == kind@,
                Err(FindError::WrongKind { found }) => exists|k: int| #[trigger]
                    first_provider(self.peers@, id@, k) && found
                        == self.peers@[k].provided()[id@].kind && found@ != kind@,
                Err(FindError::NotFound) => forall|k: int|
                    0 <= k < self.peers@.len() ==> !(
                    #[trigger] self.peers@[k]).provided().contains_key(id@),
            },
    {
        let mut i: usize = 0;
        while i < self.peers.len()
            invariant
                self.wf(),
                i <= self.peers@.len(),
                forall|j: int| 0 <= j < i ==> !(#[trigger] self.peers@[j]).provided().contains_key(id@),
            decreases self.peers.len() - i,
        {
            match self.peers[i].remote_resource(id) {
                Some(info) => {
                    assert(first_provider(self.peers@, id@, i as int));
                    if info.kind == *kind {
                        return Ok((self.peers[i].id, info));
                    } else {
                        return Err(FindError::WrongKind { found: info.kind });
                    }
                },
                None => {},
            }
            i = i + 1;
        }
        Err(FindError::NotFound)
    }
}

pub open spec fn decrypted_from(e: Effect, sender: Client) -> bool {
    match e {
        Effect::Decrypted { sender: s, .. } => s == sender,
        _ => false,
    }
}

/// `e` hands on a plaintext that `text` opens to under `key`.
pub open spec fn decrypted_opening(e: Effect, key: Seq<u8>, text: Seq<char>) -> bool {
    match e {
        Effect::Decrypted { plaintext, .. } => opens_to(key, text, plaintext@),
        _ => false,
    }
}

/// `p` is a peer `id` just met by session `me`, with nothing known of it.
pub open spec fn fresh_peer(p: Peer, me: Client, id: Client) -> bool {
    &&& p.id == id
    &&& p.username is None
    &&& p.remote_provided@.len() == 0
    &&& p.negotiation == Negotiation::Idle
    &&& p.polite == (me.0 < id.0)
}

pub open spec fn decrypted_as(e: Effect, text: Seq<char>) -> bool {
    match e {
        Effect::Decrypted { plaintext, .. } => plaintext@ == text,
        _ => false,
    }
}

/// Peer `k` is the first in `ps` that announced `id`.
pub open spec fn first_provider(ps: Seq<Peer>, id: Seq<char>, k: int) -> bool {
    &&& 0 <= k < ps.len()
    &&& ps[k].provided().contains_key(id)
    &&& forall|j: int| 0 <= j < k ==> !(#[trigger] ps[j]).provided().contains_key(id)
}

/// What dispatching `m` from `sender` does: nothing without such a peer;
/// otherwise the peer steps as `relay_spec` says and the consumer sees `m`.
pub open spec fn relay_outcome(
    before: Instance,
    after: Instance,
    sender: Client,
    m: RelayMessage,
    out: Seq<Effect>,
) -> bool {
    &&& after.config == before.config
    &&& after.key == before.key
    &&& after.my_id == before.my_id
    &&& after.local_resources == before.local_resources
    &&& if !has_peer(before.peers@, sender) {
        after.peers == before.peers && out.len() == 0
    } else {
        exists|k: int|
            0 <= k < before.peers@.len() && (#[trigger] before.peers@[k]).id == sender && ({
                let p = before.peers@[k];
                let q = after.peers@[k];
                let (p2, provided, eff) = relay_spec(p, p.provided(), before.local_resources@, m);
                &&& after.peers@.len() == before.peers@.len()
                &&& forall|j: int|
                    0 <= j < before.peers@.len() && j != k ==> after.peers@[j]
                        == #[trigger] before.peers@[j]
                &&& q.id == p2.id
                &&& q.username == p2.username
                &&& q.negotiation == p2.negotiation
                &&& q.polite == p2.polite
                &&& q.provided() == provided
                &&& out == eff.push(Effect::RelayObserved { peer: sender, message: m })
            })
    }
}


/// Announcing or withdrawing a local resource reaches every current peer
/// exactly once: each is relayed the one message, nobody else anything.
pub proof fn resource_lifecycle(ps: Seq<Peer>, m: RelayMessage, x: Client)
    requires
        peer_ids_unique(ps),
    ensures
        relayed_to(relay_all(ps, m), x) == if has_peer(ps, x) {
            seq![m]
        } else {
            Seq::<RelayMessage>::empty()
        },
    decreases ps.len(),
{
    if ps.len() > 0 {
        let d = ps.drop_last();
        assert(peer_ids_unique(d)) by {
            assert forall|a: int, b: int| 0 <= a < b < d.len() implies (#[trigger] d[a]).id != (
            #[trigger] d[b]).id by {
                assert(d[a] == ps[a] && d[b] == ps[b]);
            }
        }
        resource_lifecycle(d, m, x);
        let out = relay_all(ps, m);
        assert(out.drop_last() == relay_all(d, m));
        if ps.last().id == x {
            assert(has_peer(ps, x)) by {
                assert(ps[ps.len() - 1].id == x);
            }
            if has_peer(d, x) {
                let k = choose|k: int| 0 <= k < d.len() && (#[trigger] d[k]).id == x;
                assert(ps[k] == d[k]);
                assert(ps[k].id != ps[ps.len() - 1].id);
            }
            assert(Seq::<RelayMessage>::empty().push(m) =~= seq![m]);
        } else {
            if has_peer(ps, x) {
                let k = choose|k: int| 0 <= k < ps.len() && (#[trigger] ps[k]).id == x;
                assert(d[k] == ps[k]);
            }
            if has_peer(d, x) {
                let k = choose|k: int| 0 <= k < d.len() && (#[trigger] d[k]).id == x;
                assert(ps[k] == d[k]);
            }
        }
    }
}

} // verus!
