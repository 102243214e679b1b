//! One remote participant: its negotiation state, its display name and the
//! resources it has announced.
//!
//! The transport itself lives outside; what the peer decides comes back as
//! `Effect`s for the caller to carry out.
use vstd::prelude::*;
use crate::protocol::{Client, ProvideInfo, RTCIceCandidateInit, RelayMessage};

verus! {

/// Where the offer/answer exchange with a peer stands.
#[derive(Debug, Clone, Copy, PartialEq, Eq, Structural)]
pub enum Negotiation {
    Idle,
    Offering,
    Answering,
    Stable,
}

/// Something the caller must do on behalf of the session.
#[derive(Debug, Clone, PartialEq, Eq)]
pub enum Effect {
    /// Wrap, encrypt and send `message` to `recipient`, or to the whole room.
    Relay { recipient: Option<Client>, message: RelayMessage },
    PeerJoined { peer: Client },
    PeerLeft { peer: Client },
    ResourceAdded { peer: Client, info: ProvideInfo },
    ResourceRemoved { peer: Client, id: String },
    /// Hand the channel that just arrived to the consumer, tagged with `info`.
    ResourceConnected { peer: Client, info: ProvideInfo },
    /// Close the channel (or stop the track) that just arrived.
    RejectChannel { peer: Client },
    /// Create an offer, set it as local description, then call `Peer::offer`.
    CreateOffer { peer: Client },
    /// Set `sdp` as remote offer, create and set an answer, then call `Peer::answer`.
    AcceptOffer { peer: Client, sdp: String },
    /// Set `sdp` as remote answer.
    AcceptAnswer { peer: Client, sdp: String },
    AddIceCandidate { peer: Client, candidate: RTCIceCandidateInit },
    /// Run the local resource `id`'s request handler for `peer`.
    ServeRequest { peer: Client, id: String },
    /// `peer` no longer wants the local resource `id`.
    StopServing { peer: Client, id: String },
    /// A relay message from `peer`, for the consumer.
    RelayObserved { peer: Client, message: RelayMessage },
    RoomInfo { hash: String, user_count: usize },
    /// A payload from `sender` decrypted to `plaintext`, a serialized
    /// `RelayMessageWrapper` to be handed to `Instance::on_relay_wrapper`.
    Decrypted { sender: Client, plaintext: String },
}

pub open spec fn keys_unique(s: Seq<ProvideInfo>) -> bool {
    forall|a: int, b: int| 0 <= a < b < s.len() ==> (#[trigger] s[a]).id@ != (#[trigger] s[b]).id@
}

/// The announcements in `s`, by resource id.
pub open spec fn provided_map(s: Seq<ProvideInfo>) -> Map<Seq<char>, ProvideInfo>
    decreases s.len(),
{
    if s.len() == 0 {
        Map::empty()
    } else {
        provided_map(s.drop_last()).insert(s.last().id@, s.last())
    }
}

proof fn lemma_map_dom(s: Seq<ProvideInfo>, id: Seq<char>)
    ensures
        provided_map(s).contains_key(id) <==> exists|j: int| 0 <= j < s.len() && (#[trigger] s[j]).id@ == id,
    decreases s.len(),
{
    if s.len() > 0 {
        let d = s.drop_last();
        lemma_map_dom(d, id);
        if exists|j: int| 0 <= j < d.len() && (#[trigger] d[j]).id@ == id {
            let j = choose|j: int| 0 <= j < d.len() && (#[trigger] d[j]).id@ == id;
            assert(s[j] == d[j]);
        }
        if exists|j: int| 0 <= j < s.len() && (#[trigger] s[j]).id@ == id {
            let j = choose|j: int| 0 <= j < s.len() && (#[trigger] s[j]).id@ == id;
            if j < s.len() - 1 {
                assert(d[j] == s[j]);
            }
        }
    }
}

proof fn lemma_map_index(s: Seq<ProvideInfo>, k: int)
    requires
        keys_unique(s),
        0 <= k < s.len(),
    ensures
        provided_map(s).contains_key(s[k].id@),
        provided_map(s)[s[k].id@] == s[k],
    decreases s.len(),
{
    let d = s.drop_last();
    if k < s.len() - 1 {
        assert(d[k] == s[k]);
        assert(keys_unique(d)) by {
            assert forall|a: int, b: int| 0 <= a < b < d.len() implies (#[trigger] d[a]).id@ != (
            #[trigger] d[b]).id@ by {
                assert(d[a] == s[a] && d[b] == s[b]);
            }
        }
        lemma_map_index(d, k);
        assert(s[k].id@ != s[s.len() - 1].id@);
    }
}

proof fn lemma_map_remove(s: Seq<ProvideInfo>, k: int)
    requires
        keys_unique(s),
        0 <= k < s.len(),
    ensures
        provided_map(s.remove(k)) == provided_map(s).remove(s[k].id@),
        keys_unique(s.remove(k)),
    decreases s.len(),
{
    let d = s.drop_last();
    let r = s.remove(k);
    let id = s[k].id@;
    assert(keys_unique(d)) by {
        assert forall|a: int, b: int| 0 <= a < b < d.len() implies (#[trigger] d[a]).id@ != (
        #[trigger] d[b]).id@ by {
            assert(d[a] == s[a] && d[b] == s[b]);
        }
    }
    assert forall|a: int, b: int| 0 <= a < b < r.len() implies (#[trigger] r[a]).id@ != (
    #[trigger] r[b]).id@ by {
        let a0 = if a < k {
            a
        } else {
            a + 1
        };
        let b0 = if b < k {
            b
        } else {
            b + 1
        };
        assert(r[a] == s[a0] && r[b] == s[b0]);
    }
    if k == s.len() - 1 {
        assert(r =~= d);
        lemma_map_dom(d, id);
        assert forall|j: int| 0 <= j < d.len() implies (#[trigger] d[j]).id@ != id by {
            assert(s[j] == d[j]);
        }
        assert(provided_map(r) =~= provided_map(s).remove(id));
    } else {
        lemma_map_remove(d, k);
        assert(r.drop_last() =~= d.remove(k));
        assert(r.last() == s.last());
        assert(s.last().id@ != id);
        assert(provided_map(r) =~= provided_map(s).remove(id));
    }
}

proof fn lemma_map_absent(s: Seq<ProvideInfo>, id: Seq<char>)
    requires
        forall|j: int| 0 <= j < s.len() ==> (#[trigger] s[j]).id@ != id,
    ensures
        provided_map(s).remove(id) == provided_map(s),
{
    lemma_map_dom(s, id);
    assert(provided_map(s).remove(id) =~= provided_map(s));
}


pub(crate) proof fn lemma_in_table(s: Seq<ProvideInfo>, k: int)
    requires
        keys_unique(s),
        0 <= k < s.len(),
    ensures
        provided_map(s).contains_key(s[k].id@),
{
    lemma_map_index(s, k);
}

pub(crate) proof fn lemma_not_in_table(s: Seq<ProvideInfo>, id: Seq<char>)
    requires
        forall|j: int| 0 <= j < s.len() ==> (#[trigger] s[j]).id@ != id,
    ensures
        !provided_map(s).contains_key(id),
{
    lemma_map_dom(s, id);
}

/// The position of the entry for `id` in table `t`.
pub fn table_find(t: &Vec<ProvideInfo>, id: &String) -> (r: Option<usize>)
    ensures
        match r {
            Some(k) => k < t@.len() && t@[k as int].id@ == id@,
            None => forall|j: int| 0 <= j < t@.len() ==> (#[trigger] t@[j]).id@ != id@,
        },
{
    let mut i: usize = 0;
    while i < t.len()
        invariant
            i <= t@.len(),
            forall|j: int| 0 <= j < i ==> (#[trigger] t@[j]).id@ != id@,
        decreases t.len() - i,
    {
        if t[i].id == *id {
            return Some(i);
        }
        i = i + 1;
    }
    None
}

/// The entry for `id` in table `t`, if there is one.
pub fn table_get(t: &Vec<ProvideInfo>, id: &String) -> (r: Option<ProvideInfo>)
    requires
        keys_unique(t@),
    ensures
        r is Some <==> provided_map(t@).contains_key(id@),
        r is Some ==> r->0 == provided_map(t@)[id@],
{
    match table_find(t, id) {
        Some(k) => {
            proof {
                lemma_map_index(t@, k as int);
            }
            Some(t[k].duplicate())
        },
        None => {
            proof {
                lemma_map_dom(t@, id@);
            }
            None
        },
    }
}

/// Drops the entry for `id` from table `t`, if there is one.
pub fn table_remove(t: &mut Vec<ProvideInfo>, id: &String)
    requires
        keys_unique(old(t)@),
    ensures
        keys_unique(final(t)@),
        provided_map(final(t)@) == provided_map(old(t)@).remove(id@),
{
    match table_find(t, id) {
        Some(k) => {
            proof {
                lemma_map_remove(t@, k as int);
            }
            t.remove(k);
        },
        None => {
            proof {
                lemma_map_absent(t@, id@);
            }
        },
    }
}

/// Records `info` in table `t`, replacing the entry with the same id.
pub fn table_insert(t: &mut Vec<ProvideInfo>, info: ProvideInfo)
    requires
        keys_unique(old(t)@),
    ensures
        keys_unique(final(t)@),
        provided_map(final(t)@) == provided_map(old(t)@).insert(info.id@, info),
{
    table_remove(t, &info.id);
    let ghost s = t@;
    proof {
        lemma_map_dom(s, info.id@);
    }
    t.push(info);
    proof {
        assert(t@.drop_last() =~= s);
        assert forall|a: int, b: int| 0 <= a < b < t@.len() implies (#[trigger] t@[a]).id@ != (
        #[trigger] t@[b]).id@ by {
            if b == s.len() {
                assert(t@[a] == s[a]);
                assert(!provided_map(s).contains_key(info.id@));
            } else {
                assert(t@[a] == s[a] && t@[b] == s[b]);
            }
        }
        assert(provided_map(t@) =~= provided_map(old(t)@).remove(info.id@).insert(info.id@, info));
        assert(provided_map(old(t)@).remove(info.id@).insert(info.id@, info) =~= provided_map(
            old(t)@,
        ).insert(info.id@, info));
    }
}

/// The state this session keeps about one remote participant.
#[derive(Debug)]
pub struct Peer {
    pub id: Client,
    pub username: Option<String>,
    pub remote_provided: Vec<ProvideInfo>,
    pub negotiation: Negotiation,
    /// On competing offers the polite side, the one with the smaller
    /// identifier, gives up its own offer and answers the other.
    pub polite: bool,
}

pub open spec fn relay_to(peer: Client, message: RelayMessage) -> Effect {
    Effect::Relay { recipient: Some(peer), message: message }
}

/// One `Provide` to `peer` for each of `local`, in order.
pub open spec fn provide_each(peer: Client, local: Seq<ProvideInfo>) -> Seq<Effect>
    decreases local.len(),
{
    if local.len() == 0 {
        Seq::empty()
    } else {
        provide_each(peer, local.drop_last()).push(
            relay_to(peer, RelayMessage::Provide(local.last())),
        )
    }
}

/// What a new peer is sent first: the local user's name, then every local
/// resource.
pub open spec fn init_messages(peer: Client, username: String, local: Seq<ProvideInfo>) -> Seq<
    Effect,
> {
    seq![relay_to(peer, RelayMessage::Identify { username: username })] + provide_each(peer, local)
}

impl Peer {
    /// Announcements are keyed by their id.
    pub open spec fn wf(&self) -> bool {
        keys_unique(self.remote_provided@)
    }

    /// What the remote has announced and not withdrawn, by resource id.
    pub open spec fn provided(&self) -> Map<Seq<char>, ProvideInfo> {
        provided_map(self.remote_provided@)
    }

    /// A peer `id` that has announced nothing yet, seen from session `my_id`.
    pub fn create(my_id: Client, id: Client) -> (r: Peer)
        ensures
            r.wf(),
            r.id == id,
            r.username is None,
            r.remote_provided@.len() == 0,
            r.provided() == Map::<Seq<char>, ProvideInfo>::empty(),
            r.negotiation == Negotiation::Idle,
            r.polite == (my_id.0 < id.0),
    {
        Peer {
            id,
            username: None,
            remote_provided: Vec::new(),
            negotiation: Negotiation::Idle,
            polite: my_id.0 < id.0,
        }
    }

    /// The announcement of resource `id`, if the remote has one.
    pub fn remote_resource(&self, id: &String) -> (r: Option<ProvideInfo>)
        requires
            self.wf(),
        ensures
            r is Some <==> self.provided().contains_key(id@),
            r is Some ==> r->0 == self.provided()[id@],
    {
        table_get(&self.remote_provided, id)
    }

    /// Every announcement of the remote, in no particular order.
    pub fn remote_resources(&self) -> (r: Vec<ProvideInfo>)
        requires
            self.wf(),
        ensures
            r@.len() == self.provided().len(),
            forall|k: int| 0 <= k < r@.len() ==> self.provided().contains_key((#[trigger] r@[k]).id@)
                && self.provided()[r@[k].id@] == r@[k],
            forall|id: Seq<char>| #[trigger]
                self.provided().contains_key(id) ==> exists|k: int| 0 <= k < r@.len() && r@[k].id@ == id,
    {
        let mut r = Vec::new();
        let mut i: usize = 0;
        while i < self.remote_provided.len()
            invariant
                self.wf(),
                i <= self.remote_provided@.len(),
                r@ == self.remote_provided@.take(i as int),
            decreases self.remote_provided.len() - i,
        {
            r.push(self.remote_provided[i].duplicate());
            assert(r@ =~= self.remote_provided@.take(i + 1));
            i = i + 1;
        }
        let ghost s = self.remote_provided@;
        proof {
            assert(r@ =~= s);
            lemma_map_len(s);
            assert forall|k: int| 0 <= k < r@.len() implies self.provided().contains_key(
                (#[trigger] r@[k]).id@,
            ) && self.provided()[r@[k].id@] == r@[k] by {
                lemma_map_index(s, k);
            }
            assert forall|id: Seq<char>| #[trigger]
                self.provided().contains_key(id) implies exists|k: int| 0 <= k < r@.len() && r@[k].id@ == id by {
                lemma_map_dom(s, id);
            }
        }
        r
    }

    /// What this new peer is sent first: `username`, then each of `local`.
    pub fn init_remote(&self, username: &String, local: &Vec<ProvideInfo>) -> (r: Vec<Effect>)
        ensures
            r@ == init_messages(self.id, *username, local@),
    {
        let mut r = Vec::new();
        r.push(self.send_relay(RelayMessage::Identify { username: username.clone() }));
        let ghost head = r@;
        let mut i: usize = 0;
        assert(local@.take(0) =~= Seq::<ProvideInfo>::empty());
        assert(head + Seq::<Effect>::empty() =~= head);
        while i < local.len()
            invariant
                i <= local@.len(),
                head == seq![relay_to(self.id, RelayMessage::Identify { username: *username })],
                r@ == head + provide_each(self.id, local@.take(i as int)),
            decreases local.len() - i,
        {
            r.push(self.send_relay(RelayMessage::Provide(local[i].duplicate())));
            proof {
                let t = local@.take(i + 1);
                assert(t.drop_last() =~= local@.take(i as int));
                assert(r@ =~= head + provide_each(self.id, t));
            }
            i = i + 1;
        }
        assert(local@.take(local@.len() as int) =~= local@);
        r
    }

    /// The message to send `inner` to this peer.
    pub fn send_relay(&self, inner: RelayMessage) -> (r: Effect)
        ensures
            r == relay_to(self.id, inner),
    {
        Effect::Relay { recipient: Some(self.id), message: inner }
    }

    pub fn request_resource(&self, id: String) -> (r: Effect)
        ensures
            r == relay_to(self.id, RelayMessage::Request { id: id }),
    {
        self.send_relay(RelayMessage::Request { id })
    }

    pub fn request_stop_resource(&self, id: String) -> (r: Effect)
        ensures
            r == relay_to(self.id, RelayMessage::RequestStop { id: id }),
    {
        self.send_relay(RelayMessage::RequestStop { id })
    }

    /// A local ICE candidate is published to the peer.
    pub fn on_ice_candidate(&self, candidate: RTCIceCandidateInit) -> (r: Effect)
        ensures
            r == relay_to(self.id, RelayMessage::IceCandidate(candidate)),
    {
        self.send_relay(RelayMessage::IceCandidate(candidate))
    }

    /// A remote ICE candidate goes to the transport, whatever the
    /// negotiation state.
    pub fn on_remote_ice_candidate(&self, candidate: RTCIceCandidateInit) -> (r: Effect)
        ensures
            r == (Effect::AddIceCandidate { peer: self.id, candidate: candidate }),
    {
        Effect::AddIceCandidate { peer: self.id, candidate }
    }

    /// The transport wants a (re)negotiation: this side makes an offer.
    pub fn on_negotiation_needed(&mut self) -> (r: Effect)
        requires
            old(self).wf(),
        ensures
            final(self).wf(),
            *final(self) == (Peer { negotiation: Negotiation::Offering, ..*old(self) }),
            r == (Effect::CreateOffer { peer: old(self).id }),
    {
        self.negotiation = Negotiation::Offering;
        Effect::CreateOffer { peer: self.id }
    }

    /// The offer `sdp` was created and set locally; it goes to the peer.
    pub fn offer(&self, sdp: String) -> (r: Effect)
        ensures
            r == relay_to(self.id, RelayMessage::Offer(sdp)),
    {
        self.send_relay(RelayMessage::Offer(sdp))
    }

    /// The peer offers `sdp`. While this side has an offer out, only the
    /// polite side takes the remote offer; the other ignores it.
    pub fn on_offer(&mut self, sdp: String) -> (r: Vec<Effect>)
        requires
            old(self).wf(),
        ensures
            final(self).wf(),
            old(self).negotiation == Negotiation::Offering && !old(self).polite ==> *final(self)
                == *old(self) && r@.len() == 0,
            !(old(self).negotiation == Negotiation::Offering && !old(self).polite) ==> *final(self)
                == (Peer { negotiation: Negotiation::Answering, ..*old(self) }) && r@ == seq![
                Effect::AcceptOffer { peer: old(self).id, sdp: sdp },
            ],
    {
        let mut r = Vec::new();
        if self.negotiation == Negotiation::Offering && !self.polite {
            return r;
        }
        self.negotiation = Negotiation::Answering;
        r.push(Effect::AcceptOffer { peer: self.id, sdp });
        assert(r@ =~= seq![Effect::AcceptOffer { peer: old(self).id, sdp: sdp }]);
        r
    }

    /// The answer `sdp` was created and set locally; it goes to the peer.
    pub fn answer(&mut self, sdp: String) -> (r: Effect)
        requires
            old(self).wf(),
        ensures
            final(self).wf(),
            *final(self) == (Peer { negotiation: Negotiation::Stable, ..*old(self) }),
            r == relay_to(old(self).id, RelayMessage::Answer(sdp)),
    {
        self.negotiation = Negotiation::Stable;
        self.send_relay(RelayMessage::Answer(sdp))
    }

    /// The peer answers `sdp`; negotiation settles.
    pub fn on_answer(&mut self, sdp: String) -> (r: Effect)
        requires
            old(self).wf(),
        ensures
            final(self).wf(),
            *final(self) == (Peer { negotiation: Negotiation::Stable, ..*old(self) }),
            r == (Effect::AcceptAnswer { peer: old(self).id, sdp: sdp }),
    {
        self.negotiation = Negotiation::Stable;
        Effect::AcceptAnswer { peer: self.id, sdp }
    }

    /// A channel or track labelled `label` arrived from the peer. Only one
    /// that matches an announcement reaches the consumer; any other is
    /// rejected.
    pub fn on_channel(&self, label: &String) -> (r: Effect)
        requires
            self.wf(),
        ensures
            self.provided().contains_key(label@) ==> r == (Effect::ResourceConnected {
                peer: self.id,
                info: self.provided()[label@],
            }),
            !self.provided().contains_key(label@) ==> r == (Effect::RejectChannel { peer: self.id }),
    {
        match self.remote_resource(label) {
            Some(info) => Effect::ResourceConnected { peer: self.id, info },
            None => Effect::RejectChannel { peer: self.id },
        }
    }
}

pub open spec fn locally_provided(local: Seq<ProvideInfo>, id: Seq<char>) -> bool {
    exists|j: int| 0 <= j < local.len() && (#[trigger] local[j]).id@ == id
}

/// What a relay message from the peer does; the consumer's own notice of it
/// is added by the session.
pub open spec fn relay_spec(p: Peer, provided: Map<Seq<char>, ProvideInfo>, local: Seq<ProvideInfo>, m: RelayMessage) -> (
    Peer,
    Map<Seq<char>, ProvideInfo>,
    Seq<Effect>,
) {
    match m {
        RelayMessage::Offer(sdp) => if p.negotiation == Negotiation::Offering && !p.polite {
            (p, provided, Seq::empty())
        } else {
            (
                Peer { negotiation: Negotiation::Answering, ..p },
                provided,
                seq![Effect::AcceptOffer { peer: p.id, sdp: sdp }],
            )
        },
        RelayMessage::Answer(sdp) => (
            Peer { negotiation: Negotiation::Stable, ..p },
            provided,
            seq![Effect::AcceptAnswer { peer: p.id, sdp: sdp }],
        ),
        RelayMessage::IceCandidate(c) => (
            p,
            provided,
            seq![Effect::AddIceCandidate { peer: p.id, candidate: c }],
        ),
        RelayMessage::Provide(info) => (
            p,
            provided.insert(info.id@, info),
            seq![Effect::ResourceAdded { peer: p.id, info: info }],
        ),
        RelayMessage::ProvideStop { id } => (
            p,
            provided.remove(id@),
            seq![Effect::ResourceRemoved { peer: p.id, id: id }],
        ),
        RelayMessage::Chat(_) => (p, provided, Seq::empty()),
        RelayMessage::Identify { username } => (
            Peer { username: Some(username), ..p },
            provided,
            Seq::empty(),
        ),
        RelayMessage::Request { id } => (
            p,
            provided,
            if locally_provided(local, id@) {
                seq![Effect::ServeRequest { peer: p.id, id: id }]
            } else {
                Seq::empty()
            },
        ),
        RelayMessage::RequestStop { id } => (
            p,
            provided,
            if locally_provided(local, id@) {
                seq![Effect::StopServing { peer: p.id, id: id }]
            } else {
                Seq::empty()
            },
        ),
    }
}

fn provides_locally(local: &Vec<ProvideInfo>, id: &String) -> (r: bool)
    ensures
        r == locally_provided(local@, id@),
{
    let mut i: usize = 0;
    while i < local.len()
        invariant
            i <= local@.len(),
            forall|j: int| 0 <= j < i ==> (#[trigger] local@[j]).id@ != id@,
        decreases local.len() - i,
    {
        if local[i].id == *id {
            return true;
        }
        i = i + 1;
    }
    false
}

proof fn lemma_map_len(s: Seq<ProvideInfo>)
    requires
        keys_unique(s),
    ensures
        provided_map(s).len() == s.len(),
        provided_map(s).dom().finite(),
    decreases s.len(),
{
    if s.len() > 0 {
        let d = s.drop_last();
        assert(keys_unique(d)) by {
            assert forall|a: int, b: int| 0 <= a < b < d.len() implies (#[trigger] d[a]).id@ != (
            #[trigger] d[b]).id@ by {
                assert(d[a] == s[a] && d[b] == s[b]);
            }
        }
        lemma_map_len(d);
        lemma_map_dom(d, s.last().id@);
        assert forall|j: int| 0 <= j < d.len() implies (#[trigger] d[j]).id@ != s.last().id@ by {
            assert(d[j] == s[j]);
        }
    }
}

impl Peer {
    /// Handles one relay message from this peer; `local` holds the session's
    /// own announcements.
    pub fn on_relay(&mut self, local: &Vec<ProvideInfo>, m: RelayMessage) -> (r: Vec<Effect>)
        requires
            old(self).wf(),
        ensures
            final(self).wf(),
            ({
                let (p, provided, out) = relay_spec(
                    *old(self),
                    old(self).provided(),
                    local@,
                    m,
                );
                &&& final(self).id == p.id
                &&& final(self).username == p.username
                &&& final(self).negotiation == p.negotiation
                &&& final(self).polite == p.polite
                &&& final(self).provided() == provided
                &&& r@ == out
            }),
    {
        let mut r = Vec::new();
        match m {
            RelayMessage::Offer(sdp) => {
                r = self.on_offer(sdp);
            },
            RelayMessage::Answer(sdp) => {
                r.push(self.on_answer(sdp));
            },
            RelayMessage::IceCandidate(c) => {
                r.push(self.on_remote_ice_candidate(c));
            },
            RelayMessage::Provide(info) => {
                let copy = info.duplicate();
                table_insert(&mut self.remote_provided, info);
                r.push(Effect::ResourceAdded { peer: self.id, info: copy });
            },
            RelayMessage::ProvideStop { id } => {
                table_remove(&mut self.remote_provided, &id);
                r.push(Effect::ResourceRemoved { peer: self.id, id });
            },
            RelayMessage::Chat(_) => {},
            RelayMessage::Identify { username } => {
                self.username = Some(username);
            },
            RelayMessage::Request { id } => {
                if provides_locally(local, &id) {
                    r.push(Effect::ServeRequest { peer: self.id, id });
                }
            },
            RelayMessage::RequestStop { id } => {
                if provides_locally(local, &id) {
                    r.push(Effect::StopServing { peer: self.id, id });
                }
            },
        }
        proof {
            let (p, provided, out) = relay_spec(*old(self), old(self).provided(), local@, m);
            assert(r@ =~= out);
        }
        r
    }
}

} // verus!
