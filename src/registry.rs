//! The signaling server's room registry.
//!
//! Every connection has a `ClientState`: the room it is in, if any, and the
//! room hashes it watches. A room's members are the connections whose room is
//! its hash, so a room exists exactly while it has members and vanishes with
//! its last one. Each operation returns the packets to send, in order.
use vstd::prelude::*;
use crate::idgen::IdGenerator;
use crate::protocol::{Client, ClientboundPacket, ServerboundPacket};

verus! {

/// A packet addressed to one connection.
#[derive(Debug, Clone, PartialEq, Eq)]
pub struct Delivery {
    pub to: Client,
    pub packet: ClientboundPacket,
}

/// What the server knows about one connection.
#[derive(Debug)]
pub struct ClientState {
    pub id: Client,
    pub room: Option<String>,
    pub watches: Vec<String>,
}

/// The server: the identifier counter and the state of every live connection.
pub struct State {
    idgen: IdGenerator,
    clients: Vec<ClientState>,
}

pub open spec fn in_room(c: ClientState, h: Seq<char>) -> bool {
    match c.room {
        Some(r) => r@ == h,
        None => false,
    }
}

pub open spec fn watching(c: ClientState, h: Seq<char>) -> bool {
    exists|k: int| 0 <= k < c.watches@.len() && (#[trigger] c.watches@[k])@ == h
}

/// The members of room `h`, in connection order, leaving out `ex`.
pub open spec fn members_except(cs: Seq<ClientState>, h: Seq<char>, ex: Option<Client>) -> Seq<
    Client,
>
    decreases cs.len(),
{
    if cs.len() == 0 {
        Seq::empty()
    } else {
        let rest = members_except(cs.drop_last(), h, ex);
        let c = cs.last();
        if in_room(c, h) && ex != Some(c.id) {
            rest.push(c.id)
        } else {
            rest
        }
    }
}

/// The members of room `h`, in connection order.
pub open spec fn members(cs: Seq<ClientState>, h: Seq<char>) -> Seq<Client> {
    members_except(cs, h, None)
}

/// The connections that watch room `h`, in connection order.
pub open spec fn watchers(cs: Seq<ClientState>, h: Seq<char>) -> Seq<Client>
    decreases cs.len(),
{
    if cs.len() == 0 {
        Seq::empty()
    } else {
        let rest = watchers(cs.drop_last(), h);
        if watching(cs.last(), h) {
            rest.push(cs.last().id)
        } else {
            rest
        }
    }
}

/// One copy of `p` to each of `ids`, in order.
pub open spec fn fan_out(ids: Seq<Client>, p: ClientboundPacket) -> Seq<Delivery>
    decreases ids.len(),
{
    if ids.len() == 0 {
        Seq::empty()
    } else {
        fan_out(ids.drop_last(), p).push(Delivery { to: ids.last(), packet: p })
    }
}

/// A `ClientJoin` for each of `ids`, all sent to `c`.
pub open spec fn greet(c: Client, ids: Seq<Client>) -> Seq<Delivery>
    decreases ids.len(),
{
    if ids.len() == 0 {
        Seq::empty()
    } else {
        greet(c, ids.drop_last()).push(
            Delivery { to: c, packet: ClientboundPacket::ClientJoin { id: ids.last() } },
        )
    }
}

pub open spec fn room_info(cs: Seq<ClientState>, h: String) -> ClientboundPacket {
    ClientboundPacket::RoomInfo { hash: h, user_count: members(cs, h@).len() as usize }
}

/// What is sent after `c` has left room `h`; `cs` is the state without it.
pub open spec fn leave_effects(cs: Seq<ClientState>, c: Client, h: String) -> Seq<Delivery> {
    fan_out(members(cs, h@), ClientboundPacket::ClientLeave { id: c }) + fan_out(
        watchers(cs, h@),
        room_info(cs, h),
    )
}

/// What is sent after `c` has joined room `h`; `cs` is the state with it.
pub open spec fn join_effects(cs: Seq<ClientState>, c: Client, h: String) -> Seq<Delivery> {
    fan_out(watchers(cs, h@), room_info(cs, h)) + fan_out(
        members_except(cs, h@, Some(c)),
        ClientboundPacket::ClientJoin { id: c },
    ) + greet(c, members_except(cs, h@, Some(c)))
}

/// The occupancy of each occupied room of `list`, sent to `c`.
pub open spec fn watch_replies(cs: Seq<ClientState>, c: Client, list: Seq<String>) -> Seq<
    Delivery,
>
    decreases list.len(),
{
    if list.len() == 0 {
        Seq::empty()
    } else {
        let rest = watch_replies(cs, c, list.drop_last());
        if members(cs, list.last()@).len() > 0 {
            rest.push(Delivery { to: c, packet: room_info(cs, list.last()) })
        } else {
            rest
        }
    }
}

/// The connection at `i` leaves its room, if it is in one.
pub open spec fn after_leave(cs: Seq<ClientState>, i: int) -> (Seq<ClientState>, Seq<Delivery>) {
    let c = cs[i];
    match c.room {
        None => (cs, Seq::empty()),
        Some(h) => {
            let cs2 = cs.update(i, ClientState { id: c.id, room: None, watches: c.watches });
            (cs2, leave_effects(cs2, c.id, h))
        },
    }
}

/// The connection at `i` sends `Join { hash }`.
pub open spec fn after_join(cs: Seq<ClientState>, i: int, hash: Option<String>) -> (
    Seq<ClientState>,
    Seq<Delivery>,
) {
    let (cs1, out1) = after_leave(cs, i);
    match hash {
        None => (cs1, out1),
        Some(h) => {
            let c = cs1[i];
            let cs2 = cs1.update(i, ClientState { id: c.id, room: Some(h), watches: c.watches });
            (cs2, out1 + join_effects(cs2, c.id, h))
        },
    }
}

/// The connection at `i` relays `message` to `recipient`, or to every other member.
pub open spec fn relay_effects(
    cs: Seq<ClientState>,
    i: int,
    recipient: Option<Client>,
    message: String,
) -> Seq<Delivery> {
    let c = cs[i];
    let p = ClientboundPacket::Message { sender: c.id, message: message };
    match c.room {
        None => Seq::empty(),
        Some(h) => match recipient {
            Some(r) => if members(cs, h@).contains(r) {
                seq![Delivery { to: r, packet: p }]
            } else {
                Seq::empty()
            },
            None => fan_out(members_except(cs, h@, Some(c.id)), p),
        },
    }
}

/// The connection at `i` sends `packet`.
pub open spec fn after_recv(cs: Seq<ClientState>, i: int, packet: ServerboundPacket) -> (
    Seq<ClientState>,
    Seq<Delivery>,
) {
    match packet {
        ServerboundPacket::Ping => (cs, Seq::empty()),
        ServerboundPacket::Join { hash } => after_join(cs, i, hash),
        ServerboundPacket::Relay { recipient, message } => (
            cs,
            relay_effects(cs, i, recipient, message),
        ),
        ServerboundPacket::WatchRooms(list) => {
            let c = cs[i];
            (
                cs.update(i, ClientState { id: c.id, room: c.room, watches: list }),
                watch_replies(cs, c.id, list@),
            )
        },
    }
}

/// The connection at `i` goes away.
pub open spec fn after_disconnect(cs: Seq<ClientState>, i: int) -> (
    Seq<ClientState>,
    Seq<Delivery>,
) {
    let cs2 = cs.remove(i);
    match cs[i].room {
        None => (cs2, Seq::empty()),
        Some(h) => (cs2, leave_effects(cs2, cs[i].id, h)),
    }
}

pub open spec fn ids_distinct(cs: Seq<ClientState>) -> bool {
    forall|a: int, b: int| 0 <= a < b < cs.len() ==> (#[trigger] cs[a]).id != (#[trigger] cs[b]).id
}

proof fn lemma_take_step<T>(s: Seq<T>, i: int)
    requires
        0 <= i < s.len(),
    ensures
        s.take(i + 1).drop_last() == s.take(i),
        s.take(i + 1).last() == s[i],
{
    assert(s.take(i + 1).drop_last() =~= s.take(i));
}

proof fn lemma_push_drop_last<T>(s: Seq<T>, x: T)
    ensures
        s.push(x).drop_last() == s,
        s.push(x).last() == x,
{
    assert(s.push(x).drop_last() =~= s);
}

fn copy_string(s: &String) -> (r: String)
    ensures
        r == *s,
{
    s.clone()
}

/// Sends `packet` to every member of room `h` but `ex`.
fn broadcast(
    cs: &Vec<ClientState>,
    h: &String,
    ex: Option<Client>,
    packet: &ClientboundPacket,
    out: &mut Vec<Delivery>,
)
    ensures
        final(out)@ == old(out)@ + fan_out(members_except(cs@, h@, ex), *packet),
{
    let ghost start = old(out)@;
    let mut i: usize = 0;
    assert(cs@.take(0) =~= Seq::<ClientState>::empty());
    assert(start + Seq::<Delivery>::empty() =~= start);
    while i < cs.len()
        invariant
            i <= cs@.len(),
            out@ == start + fan_out(members_except(cs@.take(i as int), h@, ex), *packet),
        decreases cs.len() - i,
    {
        proof {
            lemma_take_step(cs@, i as int);
        }
        let c = &cs[i];
        let hit = match &c.room {
            Some(r) => *r == *h,
            None => false,
        };
        let excluded = match ex {
            Some(e) => e == c.id,
            None => false,
        };
        if hit && !excluded {
            let ghost prev = members_except(cs@.take(i as int), h@, ex);
            out.push(Delivery { to: c.id, packet: packet.duplicate() });
            proof {
                lemma_push_drop_last(prev, c.id);
                assert(out@ =~= start + fan_out(prev.push(c.id), *packet));
            }
        }
        i = i + 1;
    }
    assert(cs@.take(cs@.len() as int) =~= cs@);
}

fn is_watching(c: &ClientState, h: &String) -> (r: bool)
    ensures
        r == watching(*c, h@),
{
    let mut k: usize = 0;
    while k < c.watches.len()
        invariant
            k <= c.watches@.len(),
            forall|j: int| 0 <= j < k ==> (#[trigger] c.watches@[j])@ != h@,
        decreases c.watches.len() - k,
    {
        if c.watches[k] == *h {
            return true;
        }
        k = k + 1;
    }
    false
}

/// Sends the occupancy of room `h`, `count`, to every watcher of `h`.
fn notify_watchers(cs: &Vec<ClientState>, h: &String, count: usize, out: &mut Vec<Delivery>)
    ensures
        final(out)@ == old(out)@ + fan_out(
            watchers(cs@, h@),
            ClientboundPacket::RoomInfo { hash: *h, user_count: count },
        ),
{
    let ghost start = old(out)@;
    let ghost p = ClientboundPacket::RoomInfo { hash: *h, user_count: count };
    let mut i: usize = 0;
    assert(cs@.take(0) =~= Seq::<ClientState>::empty());
    assert(start + Seq::<Delivery>::empty() =~= start);
    while i < cs.len()
        invariant
            i <= cs@.len(),
            p == (ClientboundPacket::RoomInfo { hash: *h, user_count: count }),
            out@ == start + fan_out(watchers(cs@.take(i as int), h@), p),
        decreases cs.len() - i,
    {
        proof {
            lemma_take_step(cs@, i as int);
        }
        let c = &cs[i];
        if is_watching(c, h) {
            let ghost prev = watchers(cs@.take(i as int), h@);
            out.push(
                Delivery {
                    to: c.id,
                    packet: ClientboundPacket::RoomInfo { hash: copy_string(h), user_count: count },
                },
            );
            proof {
                lemma_push_drop_last(prev, c.id);
                assert(out@ =~= start + fan_out(prev.push(c.id), p));
            }
        }
        i = i + 1;
    }
    assert(cs@.take(cs@.len() as int) =~= cs@);
}

/// Tells `c` of every other member of room `h`.
fn greet_members(cs: &Vec<ClientState>, h: &String, c: Client, out: &mut Vec<Delivery>)
    ensures
        final(out)@ == old(out)@ + greet(c, members_except(cs@, h@, Some(c))),
{
    let ghost start = old(out)@;
    let mut i: usize = 0;
    assert(cs@.take(0) =~= Seq::<ClientState>::empty());
    assert(start + Seq::<Delivery>::empty() =~= start);
    while i < cs.len()
        invariant
            i <= cs@.len(),
            out@ == start + greet(c, members_except(cs@.take(i as int), h@, Some(c))),
        decreases cs.len() - i,
    {
        proof {
            lemma_take_step(cs@, i as int);
        }
        let e = &cs[i];
        let hit = match &e.room {
            Some(r) => *r == *h,
            None => false,
        };
        if hit && e.id != c {
            let ghost prev = members_except(cs@.take(i as int), h@, Some(c));
            out.push(Delivery { to: c, packet: ClientboundPacket::ClientJoin { id: e.id } });
            proof {
                lemma_push_drop_last(prev, e.id);
                assert(out@ =~= start + greet(c, prev.push(e.id)));
            }
        }
        i = i + 1;
    }
    assert(cs@.take(cs@.len() as int) =~= cs@);
}

proof fn lemma_members_len(cs: Seq<ClientState>, h: Seq<char>, ex: Option<Client>)
    ensures
        members_except(cs, h, ex).len() <= cs.len(),
    decreases cs.len(),
{
    if cs.len() > 0 {
        lemma_members_len(cs.drop_last(), h, ex);
    }
}

/// The number of members of room `h`.
fn count_members(cs: &Vec<ClientState>, h: &String) -> (r: usize)
    ensures
        r == members(cs@, h@).len(),
{
    let mut n: usize = 0;
    let mut i: usize = 0;
    assert(cs@.take(0) =~= Seq::<ClientState>::empty());
    while i < cs.len()
        invariant
            i <= cs@.len(),
            n == members(cs@.take(i as int), h@).len(),
        decreases cs.len() - i,
    {
        proof {
            lemma_take_step(cs@, i as int);
            lemma_members_len(cs@.take(i as int), h@, None);
        }
        let hit = match &cs[i].room {
            Some(r) => *r == *h,
            None => false,
        };
        if hit {
            n = n + 1;
        }
        i = i + 1;
    }
    assert(cs@.take(cs@.len() as int) =~= cs@);
    n
}

pub(crate) proof fn lemma_members_contains(cs: Seq<ClientState>, h: Seq<char>, ex: Option<Client>, x: Client)
    ensures
        members_except(cs, h, ex).contains(x) <==> exists|j: int|
            0 <= j < cs.len() && (#[trigger] cs[j]).id == x && in_room(cs[j], h) && ex != Some(x),
    decreases cs.len(),
{
    if cs.len() > 0 {
        let d = cs.drop_last();
        lemma_members_contains(d, h, ex, x);
        let rest = members_except(d, h, ex);
        if exists|j: int| 0 <= j < cs.len() && (#[trigger] cs[j]).id == x && in_room(cs[j], h) && ex
            != Some(x) {
            let j = choose|j: int|
                0 <= j < cs.len() && (#[trigger] cs[j]).id == x && in_room(cs[j], h) && ex != Some(
                    x,
                );
            if j < cs.len() - 1 {
                assert(d[j] == cs[j]);
                assert(rest.contains(x));
                if in_room(cs.last(), h) && ex != Some(cs.last().id) {
                    assert(rest.push(cs.last().id)[rest.index_of(x)] == x);
                }
            } else {
                assert(rest.push(x)[rest.len() as int] == x);
            }
        }
        if members_except(cs, h, ex).contains(x) {
            if in_room(cs.last(), h) && ex != Some(cs.last().id) && x == cs.last().id {
                assert(cs[cs.len() - 1].id == x);
            } else {
                let k = members_except(cs, h, ex).index_of(x);
                assert(rest.contains(x)) by {
                    assert(rest[k] == x);
                }
                let j = choose|j: int|
                    0 <= j < d.len() && (#[trigger] d[j]).id == x && in_room(d[j], h) && ex != Some(
                        x,
                    );
                assert(cs[j] == d[j]);
            }
        }
    }
}

impl State {
    pub closed spec fn clients(&self) -> Seq<ClientState> {
        self.clients@
    }

    /// The last identifier handed out.
    pub closed spec fn last_id(&self) -> u64 {
        self.idgen.last()
    }

    /// Identifiers are distinct and were all handed out by the counter.
    pub closed spec fn wf(&self) -> bool {
        &&& ids_distinct(self.clients@)
        &&& forall|i: int|
            0 <= i < self.clients@.len() ==> (#[trigger] self.clients@[i]).id.0 <= self.idgen.last()
    }

    /// What well-formedness guarantees: live connections have distinct
    /// identifiers, none above the last one handed out.
    pub proof fn lemma_wf(&self)
        requires
            self.wf(),
        ensures
            ids_distinct(self.clients()),
            forall|i: int|
                0 <= i < self.clients().len() ==> (#[trigger] self.clients()[i]).id.0
                    <= self.last_id(),
    {
    }

    pub fn new() -> (r: State)
        ensures
            r.wf(),
            r.clients().len() == 0,
            r.last_id() == 0,
    {
        State { idgen: IdGenerator::new(), clients: Vec::new() }
    }

    /// The members of room `hash`, in connection order; empty when no such
    /// room exists.
    pub fn members(&self, hash: &String) -> (r: Vec<Client>)
        ensures
            r@ == members(self.clients(), hash@),
    {
        let mut r = Vec::new();
        let mut i: usize = 0;
        assert(self.clients@.take(0) =~= Seq::<ClientState>::empty());
        while i < self.clients.len()
            invariant
                i <= self.clients@.len(),
                r@ == members(self.clients@.take(i as int), hash@),
            decreases self.clients.len() - i,
        {
            proof {
                lemma_take_step(self.clients@, i as int);
            }
            let hit = match &self.clients[i].room {
                Some(h) => *h == *hash,
                None => false,
            };
            if hit {
                r.push(self.clients[i].id);
            }
            i = i + 1;
        }
        assert(self.clients@.take(self.clients@.len() as int) =~= self.clients@);
        r
    }

    fn index_of(&self, c: Client) -> (r: Option<usize>)
        ensures
            match r {
                Some(i) => i < self.clients@.len() && self.clients@[i as int].id == c,
                None => forall|j: int| 0 <= j < self.clients@.len() ==> (#[trigger] self.clients@[j]).id != c,
            },
    {
        let mut i: usize = 0;
        while i < self.clients.len()
            invariant
                i <= self.clients@.len(),
                forall|j: int| 0 <= j < i ==> (#[trigger] self.clients@[j]).id != c,
            decreases self.clients.len() - i,
        {
            if self.clients[i].id == c {
                return Some(i);
            }
            i = i + 1;
        }
        None
    }

    fn replace_entry(&mut self, i: usize, e: ClientState) -> (prev: ClientState)
        requires
            i < old(self).clients@.len(),
        ensures
            prev == old(self).clients@[i as int],
            final(self).clients@ == old(self).clients@.update(i as int, e),
            final(self).idgen == old(self).idgen,
    {
        let mut e = e;
        self.clients.set_and_swap(i, &mut e);
        e
    }

    /// A new connection: it gets a fresh identifier and an `Init` packet, or
    /// `None` when identifiers are exhausted.
    pub fn connect(&mut self, version: String) -> (r: Option<(Client, Vec<Delivery>)>)
        requires
            old(self).wf(),
        ensures
            final(self).wf(),
            r is Some <==> old(self).last_id() < u64::MAX,
            match r {
                Some((c, out)) => {
                    &&& c.0 == old(self).last_id() + 1
                    &&& forall|i: int|
                        0 <= i < old(self).clients().len() ==> (#[trigger] old(self).clients()[i]).id
                            != c
                    &&& final(self).last_id() == c.0
                    &&& final(self).clients().len() == old(self).clients().len() + 1
                    &&& final(self).clients().drop_last() == old(self).clients()
                    &&& final(self).clients().last().id == c
                    &&& final(self).clients().last().room is None
                    &&& final(self).clients().last().watches@.len() == 0
                    &&& out@ == seq![
                        Delivery {
                            to: c,
                            packet: ClientboundPacket::Init { your_id: c, version: version },
                        },
                    ]
                },
                None => final(self).clients() == old(self).clients() && final(self).last_id()
                    == old(self).last_id(),
            },
    {
        match self.idgen.generate() {
            None => None,
            Some(x) => {
                let c = Client(x);
                self.clients.push(ClientState { id: c, room: None, watches: Vec::new() });
                proof {
                    assert(self.clients@.drop_last() =~= old(self).clients@);
                    assert forall|a: int, b: int|
                        0 <= a < b < self.clients@.len() implies (#[trigger] self.clients@[a]).id
                        != (#[trigger] self.clients@[b]).id by {
                        if b == self.clients@.len() - 1 {
                            assert(old(self).clients@[a].id.0 <= old(self).idgen.last());
                        } else {
                            assert(old(self).clients@[a] == self.clients@[a]);
                            assert(old(self).clients@[b] == self.clients@[b]);
                        }
                    }
                    assert forall|i: int| 0 <= i < self.clients@.len() implies (
                    #[trigger] self.clients@[i]).id.0 <= self.idgen.last() by {
                        if i < self.clients@.len() - 1 {
                            assert(old(self).clients@[i] == self.clients@[i]);
                        }
                    }
                }
                let mut out = Vec::new();
                out.push(
                    Delivery { to: c, packet: ClientboundPacket::Init { your_id: c, version } },
                );
                proof {
                    assert(out@ =~= seq![
                        Delivery {
                            to: c,
                            packet: ClientboundPacket::Init { your_id: c, version: version },
                        },
                    ]);
                }
                Some((c, out))
            },
        }
    }

    proof fn lemma_wf_update(&self, i: int, e: ClientState)
        requires
            self.wf(),
            0 <= i < self.clients@.len(),
            e.id == self.clients@[i].id,
        ensures
            ids_distinct(self.clients@.update(i, e)),
            forall|j: int|
                0 <= j < self.clients@.len() ==> (#[trigger] self.clients@.update(i, e)[j]).id.0
                    <= self.idgen.last(),
    {
        let u = self.clients@.update(i, e);
        assert forall|a: int, b: int| 0 <= a < b < u.len() implies (#[trigger] u[a]).id != (
        #[trigger] u[b]).id by {
            assert(self.clients@[a].id != self.clients@[b].id);
        }
        assert forall|j: int| 0 <= j < self.clients@.len() implies (#[trigger] u[j]).id.0
            <= self.idgen.last() by {
            assert(self.clients@[j].id.0 <= self.idgen.last());
        }
    }

    /// The connection at `i` leaves its room, if it is in one.
    fn leave_room(&mut self, i: usize, out: &mut Vec<Delivery>)
        requires
            old(self).wf(),
            i < old(self).clients@.len(),
        ensures
            final(self).wf(),
            final(self).idgen == old(self).idgen,
            final(self).clients@ == after_leave(old(self).clients@, i as int).0,
            final(out)@ == old(out)@ + after_leave(old(self).clients@, i as int).1,
    {
        let id = self.clients[i].id;
        let prev = self.replace_entry(i, ClientState { id, room: None, watches: Vec::new() });
        let ClientState { id, room, watches } = prev;
        let e = ClientState { id, room: None, watches };
        proof {
            old(self).lemma_wf_update(i as int, e);
        }
        self.replace_entry(i, e);
        proof {
            assert(self.clients@ =~= old(self).clients@.update(i as int, e));
        }
        match room {
            None => {
                assert(old(out)@ + Seq::<Delivery>::empty() =~= old(out)@);
            },
            Some(h) => {
                let count = count_members(&self.clients, &h);
                broadcast(&self.clients, &h, None, &ClientboundPacket::ClientLeave { id }, out);
                notify_watchers(&self.clients, &h, count, out);
                assert(final(out)@ =~= old(out)@ + leave_effects(self.clients@, id, h));
            },
        }
    }

    /// The connection at `i` enters room `h`; it is in no room before.
    fn join_room(&mut self, i: usize, h: String, out: &mut Vec<Delivery>)
        requires
            old(self).wf(),
            i < old(self).clients@.len(),
        ensures
            final(self).wf(),
            final(self).idgen == old(self).idgen,
            ({
                let c = old(self).clients@[i as int];
                let cs2 = old(self).clients@.update(
                    i as int,
                    ClientState { id: c.id, room: Some(h), watches: c.watches },
                );
                &&& final(self).clients@ == cs2
                &&& final(out)@ == old(out)@ + join_effects(cs2, c.id, h)
            }),
    {
        let id = self.clients[i].id;
        let hc = copy_string(&h);
        let prev = self.replace_entry(i, ClientState { id, room: None, watches: Vec::new() });
        let ClientState { id, room: _, watches } = prev;
        let e = ClientState { id, room: Some(h), watches };
        proof {
            old(self).lemma_wf_update(i as int, e);
        }
        self.replace_entry(i, e);
        proof {
            assert(self.clients@ =~= old(self).clients@.update(i as int, e));
        }
        let count = count_members(&self.clients, &hc);
        notify_watchers(&self.clients, &hc, count, out);
        broadcast(&self.clients, &hc, Some(id), &ClientboundPacket::ClientJoin { id }, out);
        greet_members(&self.clients, &hc, id, out);
        assert(final(out)@ =~= old(out)@ + join_effects(self.clients@, id, hc));
    }

    /// The connection at `i` relays `message`.
    fn relay(&self, i: usize, recipient: Option<Client>, message: String) -> (out: Vec<Delivery>)
        requires
            self.wf(),
            i < self.clients@.len(),
        ensures
            out@ == relay_effects(self.clients@, i as int, recipient, message),
    {
        let mut out = Vec::new();
        let sender = self.clients[i].id;
        match &self.clients[i].room {
            None => {},
            Some(h) => {
                match recipient {
                    Some(r) => {
                        proof {
                            lemma_members_contains(self.clients@, h@, None, r);
                        }
                        match self.index_of(r) {
                            None => {},
                            Some(j) => {
                                let hit = match &self.clients[j].room {
                                    Some(rr) => *rr == *h,
                                    None => false,
                                };
                                proof {
                                    assert forall|k: int|
                                        0 <= k < self.clients@.len() && (
                                        #[trigger] self.clients@[k]).id == r implies k == j by {
                                        if k != j {
                                            if k < j {
                                                assert(self.clients@[k].id != self.clients@[j as int].id);
                                            } else {
                                                assert(self.clients@[j as int].id != self.clients@[k].id);
                                            }
                                        }
                                    }
                                }
                                if hit {
                                    out.push(
                                        Delivery {
                                            to: r,
                                            packet: ClientboundPacket::Message { sender, message },
                                        },
                                    );
                                    assert(out@ =~= relay_effects(
                                        self.clients@,
                                        i as int,
                                        recipient,
                                        message,
                                    ));
                                }
                            },
                        }
                    },
                    None => {
                        broadcast(
                            &self.clients,
                            h,
                            Some(sender),
                            &ClientboundPacket::Message { sender, message },
                            &mut out,
                        );
                        assert(out@ =~= relay_effects(self.clients@, i as int, recipient, message));
                    },
                }
            },
        }
        out
    }

    /// The connection at `i` replaces its watch list by `list`.
    fn watch(&mut self, i: usize, list: Vec<String>) -> (out: Vec<Delivery>)
        requires
            old(self).wf(),
            i < old(self).clients@.len(),
        ensures
            final(self).wf(),
            final(self).idgen == old(self).idgen,
            ({
                let c = old(self).clients@[i as int];
                &&& final(self).clients@ == old(self).clients@.update(
                    i as int,
                    ClientState { id: c.id, room: c.room, watches: list },
                )
                &&& out@ == watch_replies(old(self).clients@, c.id, list@)
            }),
    {
        let id = self.clients[i].id;
        let mut out = Vec::new();
        let mut k: usize = 0;
        assert(list@.take(0) =~= Seq::<String>::empty());
        while k < list.len()
            invariant
                k <= list@.len(),
                self == old(self),
                out@ == watch_replies(self.clients@, id, list@.take(k as int)),
            decreases list.len() - k,
        {
            proof {
                lemma_take_step(list@, k as int);
            }
            let n = count_members(&self.clients, &list[k]);
            if n > 0 {
                out.push(
                    Delivery {
                        to: id,
                        packet: ClientboundPacket::RoomInfo {
                            hash: copy_string(&list[k]),
                            user_count: n,
                        },
                    },
                );
                assert(out@ =~= watch_replies(self.clients@, id, list@.take(k + 1)));
            }
            k = k + 1;
        }
        assert(list@.take(list@.len() as int) =~= list@);
        let prev = self.replace_entry(i, ClientState { id, room: None, watches: Vec::new() });
        let ClientState { id, room, watches: _ } = prev;
        let e = ClientState { id, room, watches: list };
        proof {
            old(self).lemma_wf_update(i as int, e);
        }
        self.replace_entry(i, e);
        out
    }

    /// Handles one packet from connection `client`. A packet from a
    /// connection that is not registered changes nothing.
    pub fn on_recv(&mut self, client: Client, packet: ServerboundPacket) -> (out: Vec<Delivery>)
        requires
            old(self).wf(),
        ensures
            final(self).wf(),
            final(self).last_id() == old(self).last_id(),
            forall|i: int|
                0 <= i < old(self).clients().len() && (#[trigger] old(self).clients()[i]).id
                    == client ==> (final(self).clients(), out@) == after_recv(
                    old(self).clients(),
                    i,
                    packet,
                ),
            (forall|i: int|
                0 <= i < old(self).clients().len() ==> (#[trigger] old(self).clients()[i]).id
                    != client) ==> final(self).clients() == old(self).clients() && out@.len() == 0,
    {
        let ghost p = packet;
        match self.index_of(client) {
            None => Vec::new(),
            Some(i) => {
                proof {
                    assert forall|k: int|
                        0 <= k < self.clients@.len() && (#[trigger] self.clients@[k]).id
                            == client implies k == i by {
                        if k < i {
                            assert(self.clients@[k].id != self.clients@[i as int].id);
                        } else if k > i {
                            assert(self.clients@[i as int].id != self.clients@[k].id);
                        }
                    }
                }
                match packet {
                    ServerboundPacket::Ping => Vec::new(),
                    ServerboundPacket::Join { hash } => {
                        let mut out = Vec::new();
                        self.leave_room(i, &mut out);
                        let ghost mid = self.clients@;
                        match hash {
                            None => {},
                            Some(h) => {
                                self.join_room(i, h, &mut out);
                                assert(mid[i as int].id == old(self).clients@[i as int].id);
                            },
                        }
                        assert(out@ =~= after_join(old(self).clients@, i as int, hash).1);
                        out
                    },
                    ServerboundPacket::Relay { recipient, message } => self.relay(
                        i,
                        recipient,
                        message,
                    ),
                    ServerboundPacket::WatchRooms(list) => self.watch(i, list),
                }
            },
        }
    }

    /// Connection `client` is gone: it leaves its room and stops watching.
    pub fn disconnect(&mut self, client: Client) -> (out: Vec<Delivery>)
        requires
            old(self).wf(),
        ensures
            final(self).wf(),
            final(self).last_id() == old(self).last_id(),
            forall|i: int|
                0 <= i < old(self).clients().len() && (#[trigger] old(self).clients()[i]).id
                    == client ==> (final(self).clients(), out@) == after_disconnect(
                    old(self).clients(),
                    i,
                ),
            (forall|i: int|
                0 <= i < old(self).clients().len() ==> (#[trigger] old(self).clients()[i]).id
                    != client) ==> final(self).clients() == old(self).clients() && out@.len() == 0,
    {
        match self.index_of(client) {
            None => Vec::new(),
            Some(i) => {
                proof {
                    assert forall|k: int|
                        0 <= k < self.clients@.len() && (#[trigger] self.clients@[k]).id
                            == client implies k == i by {
                        if k < i {
                            assert(self.clients@[k].id != self.clients@[i as int].id);
                        } else if k > i {
                            assert(self.clients@[i as int].id != self.clients@[k].id);
                        }
                    }
                }
                let entry = self.clients.remove(i);
                proof {
                    let r = self.clients@;
                    assert forall|a: int, b: int| 0 <= a < b < r.len() implies (
                    #[trigger] r[a]).id != (#[trigger] r[b]).id by {
                        let a0 = if a < i { a } else { a + 1 };
                        let b0 = if b < i { b } else { b + 1 };
                        assert(r[a] == old(self).clients@[a0]);
                        assert(r[b] == old(self).clients@[b0]);
                        assert(old(self).clients@[a0].id != old(self).clients@[b0].id);
                    }
                    assert forall|j: int| 0 <= j < r.len() implies (#[trigger] r[j]).id.0
                        <= self.idgen.last() by {
                        let j0 = if j < i { j } else { j + 1 };
                        assert(r[j] == old(self).clients@[j0]);
                    }
                }
                let mut out = Vec::new();
                match entry.room {
                    None => {},
                    Some(h) => {
                        let count = count_members(&self.clients, &h);
                        broadcast(
                            &self.clients,
                            &h,
                            None,
                            &ClientboundPacket::ClientLeave { id: client },
                            &mut out,
                        );
                        notify_watchers(&self.clients, &h, count, &mut out);
                        assert(out@ =~= leave_effects(self.clients@, client, h));
                    },
                }
                out
            },
        }
    }
}

} // verus!
