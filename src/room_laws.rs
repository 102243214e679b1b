//! Properties of the room registry, proved over its transitions.
use vstd::prelude::*;
use crate::protocol::{Client, ClientboundPacket, ServerboundPacket};
use crate::registry::{
    after_disconnect, after_join, after_recv, fan_out, greet, ids_distinct, in_room, join_effects,
    leave_effects, members, members_except, room_info, watchers, watching, ClientState, Delivery,
};

verus! {

/// The identifiers named by the `ClientJoin` notices (when `joining`) or the
/// `ClientLeave` notices (otherwise) that `out` sends to `x`, in order.
pub open spec fn notices_to(out: Seq<Delivery>, x: Client, joining: bool) -> Seq<Client>
    decreases out.len(),
{
    if out.len() == 0 {
        Seq::empty()
    } else {
        let rest = notices_to(out.drop_last(), x, joining);
        let d = out.last();
        if d.to == x {
            match d.packet {
                ClientboundPacket::ClientJoin { id } => if joining {
                    rest.push(id)
                } else {
                    rest
                },
                ClientboundPacket::ClientLeave { id } => if !joining {
                    rest.push(id)
                } else {
                    rest
                },
                _ => rest,
            }
        } else {
            rest
        }
    }
}

pub open spec fn is_notice(p: ClientboundPacket, joining: bool) -> bool {
    match p {
        ClientboundPacket::ClientJoin { .. } => joining,
        ClientboundPacket::ClientLeave { .. } => !joining,
        _ => false,
    }
}

pub open spec fn notice_id(p: ClientboundPacket) -> Client {
    match p {
        ClientboundPacket::ClientJoin { id } => id,
        ClientboundPacket::ClientLeave { id } => id,
        _ => Client(0),
    }
}

proof fn lemma_notices_append(a: Seq<Delivery>, b: Seq<Delivery>, x: Client, joining: bool)
    ensures
        notices_to(a + b, x, joining) == notices_to(a, x, joining) + notices_to(b, x, joining),
    decreases b.len(),
{
    if b.len() == 0 {
        assert(a + b =~= a);
        assert(notices_to(a, x, joining) + Seq::<Client>::empty() =~= notices_to(a, x, joining));
    } else {
        assert((a + b).drop_last() =~= a + b.drop_last());
        assert((a + b).last() == b.last());
        lemma_notices_append(a, b.drop_last(), x, joining);
        let l = notices_to(a, x, joining);
        let r = notices_to(b.drop_last(), x, joining);
        assert((l + r).push(notice_id(b.last().packet)) =~= l + r.push(notice_id(b.last().packet)));
    }
}

proof fn lemma_notices_fan_out(ids: Seq<Client>, p: ClientboundPacket, x: Client, joining: bool)
    requires
        ids.no_duplicates() || !is_notice(p, joining),
    ensures
        notices_to(fan_out(ids, p), x, joining) == if is_notice(p, joining) && ids.contains(x) {
            seq![notice_id(p)]
        } else {
            Seq::empty()
        },
    decreases ids.len(),
{
    if ids.len() > 0 {
        let d = ids.drop_last();
        if ids.no_duplicates() {
            assert forall|a: int, b: int| 0 <= a < d.len() && 0 <= b < d.len() && a != b implies d[a]
                != d[b] by {
                assert(d[a] == ids[a] && d[b] == ids[b]);
            }
        }
        lemma_notices_fan_out(d, p, x, joining);
        assert(fan_out(ids, p).drop_last() =~= fan_out(d, p));
        if ids.last() == x {
            assert(ids[ids.len() - 1] == x);
            if d.contains(x) {
                let k = d.index_of(x);
                assert(ids[k] == ids[ids.len() - 1]);
            }
            assert(Seq::<Client>::empty().push(notice_id(p)) =~= seq![notice_id(p)]);
        } else {
            if ids.contains(x) {
                let k = ids.index_of(x);
                assert(d[k] == x);
            }
            if d.contains(x) {
                let k = d.index_of(x);
                assert(ids[k] == x);
            }
        }
    }
}

proof fn lemma_notices_greet(c: Client, ids: Seq<Client>, x: Client)
    ensures
        notices_to(greet(c, ids), x, true) == if x == c {
            ids
        } else {
            Seq::empty()
        },
        notices_to(greet(c, ids), x, false).len() == 0,
    decreases ids.len(),
{
    if ids.len() > 0 {
        lemma_notices_greet(c, ids.drop_last(), x);
        assert(greet(c, ids).drop_last() =~= greet(c, ids.drop_last()));
        assert(ids.drop_last().push(ids.last()) =~= ids);
    }
}

proof fn lemma_members_distinct(cs: Seq<ClientState>, h: Seq<char>, ex: Option<Client>)
    requires
        ids_distinct(cs),
    ensures
        members_except(cs, h, ex).no_duplicates(),
    decreases cs.len(),
{
    if cs.len() > 0 {
        let d = cs.drop_last();
        assert(ids_distinct(d)) by {
            assert forall|a: int, b: int| 0 <= a < b < d.len() implies (#[trigger] d[a]).id != (
            #[trigger] d[b]).id by {
                assert(d[a] == cs[a] && d[b] == cs[b]);
            }
        }
        lemma_members_distinct(d, h, ex);
        let rest = members_except(d, h, ex);
        let last = cs.last().id;
        crate::registry::lemma_members_contains(d, h, ex, last);
        if rest.contains(last) {
            let j = choose|j: int|
                0 <= j < d.len() && (#[trigger] d[j]).id == last && in_room(d[j], h) && ex != Some(
                    last,
                );
            assert(cs[j] == d[j]);
            assert(cs[j].id != cs[cs.len() - 1].id);
        }
        let s = rest.push(last);
        assert forall|a: int, b: int| 0 <= a < s.len() && 0 <= b < s.len() && a != b implies s[a]
            != s[b] by {
            if a == rest.len() {
                assert(rest[b] == s[b]);
            } else if b == rest.len() {
                assert(rest[a] == s[a]);
            }
        }
    }
}

proof fn lemma_members_update(cs: Seq<ClientState>, i: int, e: ClientState, h: Seq<char>)
    requires
        0 <= i < cs.len(),
        e.id == cs[i].id,
    ensures
        members_except(cs.update(i, e), h, Some(e.id)) == members_except(cs, h, Some(e.id)),
    decreases cs.len(),
{
    let u = cs.update(i, e);
    if i < cs.len() - 1 {
        assert(u.drop_last() =~= cs.drop_last().update(i, e));
        lemma_members_update(cs.drop_last(), i, e, h);
    } else {
        assert(u.drop_last() =~= cs.drop_last());
    }
}

proof fn lemma_members_without(cs: Seq<ClientState>, h: Seq<char>, c: Client)
    requires
        forall|j: int| 0 <= j < cs.len() && (#[trigger] cs[j]).id == c ==> !in_room(cs[j], h),
    ensures
        members(cs, h) == members_except(cs, h, Some(c)),
        !members(cs, h).contains(c),
    decreases cs.len(),
{
    if cs.len() > 0 {
        let d = cs.drop_last();
        assert forall|j: int| 0 <= j < d.len() && (#[trigger] d[j]).id == c implies !in_room(
            d[j],
            h,
        ) by {
            assert(d[j] == cs[j]);
        }
        lemma_members_without(d, h, c);
    }
    crate::registry::lemma_members_contains(cs, h, None, c);
}

proof fn lemma_fan_out_contains(ids: Seq<Client>, p: ClientboundPacket, w: Client)
    requires
        ids.contains(w),
    ensures
        fan_out(ids, p).contains(Delivery { to: w, packet: p }),
    decreases ids.len(),
{
    let d = ids.drop_last();
    let f = fan_out(ids, p);
    if ids.last() == w {
        assert(f[f.len() - 1] == Delivery { to: w, packet: p });
    } else {
        let k = ids.index_of(w);
        assert(d[k] == w);
        lemma_fan_out_contains(d, p, w);
        let fd = fan_out(d, p);
        let m = fd.index_of(Delivery { to: w, packet: p });
        assert(f[m] == fd[m]);
    }
}

proof fn lemma_watchers_contains(cs: Seq<ClientState>, h: Seq<char>, k: int)
    requires
        0 <= k < cs.len(),
        watching(cs[k], h),
    ensures
        watchers(cs, h).contains(cs[k].id),
    decreases cs.len(),
{
    let d = cs.drop_last();
    let s = watchers(cs, h);
    if k == cs.len() - 1 {
        assert(s[s.len() - 1] == cs[k].id);
    } else {
        assert(d[k] == cs[k]);
        lemma_watchers_contains(d, h, k);
        let r = watchers(d, h);
        let m = r.index_of(cs[k].id);
        assert(s[m] == r[m]);
    }
}

/// What a departure from room `h` tells: each remaining member hears of `c`
/// once, nobody else hears of a departure.
proof fn lemma_leave_notices(cs: Seq<ClientState>, c: Client, h: String, m: Client)
    requires
        ids_distinct(cs),
    ensures
        notices_to(leave_effects(cs, c, h), m, false) == if members(cs, h@).contains(m) {
            seq![c]
        } else {
            Seq::empty()
        },
        notices_to(leave_effects(cs, c, h), m, true).len() == 0,
{
    lemma_members_distinct(cs, h@, None);
    lemma_notices_append(
        fan_out(members(cs, h@), ClientboundPacket::ClientLeave { id: c }),
        fan_out(watchers(cs, h@), room_info(cs, h)),
        m,
        false,
    );
    lemma_notices_append(
        fan_out(members(cs, h@), ClientboundPacket::ClientLeave { id: c }),
        fan_out(watchers(cs, h@), room_info(cs, h)),
        m,
        true,
    );
    lemma_notices_fan_out(members(cs, h@), ClientboundPacket::ClientLeave { id: c }, m, false);
    lemma_notices_fan_out(members(cs, h@), ClientboundPacket::ClientLeave { id: c }, m, true);
    lemma_notices_fan_out(watchers(cs, h@), room_info(cs, h), m, false);
    lemma_notices_fan_out(watchers(cs, h@), room_info(cs, h), m, true);
    assert(Seq::<Client>::empty() + Seq::<Client>::empty() =~= Seq::<Client>::empty());
    assert(seq![c] + Seq::<Client>::empty() =~= seq![c]);
}

/// Joining a room: the newcomer hears of every member already there exactly
/// once and of nobody else, and each of those members hears of the newcomer
/// exactly once.
pub proof fn join_snapshot(cs: Seq<ClientState>, i: int, h: String)
    requires
        ids_distinct(cs),
        0 <= i < cs.len(),
    ensures
        ({
            let c = cs[i].id;
            let existing = members_except(cs, h@, Some(c));
            let out = after_join(cs, i, Some(h)).1;
            &&& existing.no_duplicates()
            &&& notices_to(out, c, true) == existing
            &&& forall|m: Client| #[trigger]
                existing.contains(m) ==> notices_to(out, m, true) == seq![c]
            &&& forall|m: Client|
                !existing.contains(m) && m != c ==> (#[trigger] notices_to(out, m, true)).len()
                    == 0
        }),
{
    let c = cs[i].id;
    let existing = members_except(cs, h@, Some(c));
    let e1 = ClientState { id: c, room: None, watches: cs[i].watches };
    let cs1 = after_join(cs, i, None).0;
    let out1 = after_join(cs, i, None).1;
    let e2 = ClientState { id: c, room: Some(h), watches: cs[i].watches };
    let cs2 = cs1.update(i, e2);
    lemma_members_distinct(cs, h@, Some(c));
    match cs[i].room {
        None => {
            assert(cs1 == cs);
        },
        Some(_) => {
            lemma_members_update(cs, i, e1, h@);
        },
    }
    lemma_members_update(cs1, i, e2, h@);
    assert(members_except(cs2, h@, Some(c)) == existing);
    assert(ids_distinct(cs1)) by {
        assert forall|a: int, b: int| 0 <= a < b < cs1.len() implies (#[trigger] cs1[a]).id != (
        #[trigger] cs1[b]).id by {
            assert(cs[a].id != cs[b].id);
        }
    }
    assert(ids_distinct(cs2)) by {
        assert forall|a: int, b: int| 0 <= a < b < cs2.len() implies (#[trigger] cs2[a]).id != (
        #[trigger] cs2[b]).id by {
            assert(cs[a].id != cs[b].id);
        }
    }
    crate::registry::lemma_members_contains(cs, h@, Some(c), c);
    let out = after_join(cs, i, Some(h)).1;
    assert(out == out1 + join_effects(cs2, c, h));
    let w = fan_out(watchers(cs2, h@), room_info(cs2, h));
    let j = fan_out(existing, ClientboundPacket::ClientJoin { id: c });
    let g = greet(c, existing);
    assert(join_effects(cs2, c, h) == w + j + g);
    assert forall|m: Client| true implies notices_to(out, m, true) == notices_to(out1, m, true)
        + notices_to(w, m, true) + notices_to(j, m, true) + notices_to(g, m, true) by {
        lemma_notices_append(out1, w + j + g, m, true);
        lemma_notices_append(w + j, g, m, true);
        lemma_notices_append(w, j, m, true);
        assert(out1 + (w + j + g) =~= out1 + join_effects(cs2, c, h));
        assert(notices_to(out1, m, true) + (notices_to(w, m, true) + notices_to(j, m, true)
            + notices_to(g, m, true)) =~= notices_to(out1, m, true) + notices_to(w, m, true)
            + notices_to(j, m, true) + notices_to(g, m, true));
    }
    assert forall|m: Client| true implies notices_to(out1, m, true).len() == 0 && notices_to(
        w,
        m,
        true,
    ).len() == 0 && notices_to(j, m, true) == (if existing.contains(m) {
        seq![c]
    } else {
        Seq::<Client>::empty()
    }) && notices_to(g, m, true) == (if m == c {
        existing
    } else {
        Seq::<Client>::empty()
    }) by {
        match cs[i].room {
            None => {},
            Some(h0) => {
                assert(ids_distinct(cs1));
                lemma_leave_notices(cs1, c, h0, m);
            },
        }
        lemma_notices_fan_out(watchers(cs2, h@), room_info(cs2, h), m, true);
        lemma_notices_fan_out(existing, ClientboundPacket::ClientJoin { id: c }, m, true);
        lemma_notices_greet(c, existing, m);
    }
    assert(notices_to(out, c, true) =~= existing);
    assert forall|m: Client| #[trigger] existing.contains(m) implies notices_to(out, m, true)
        == seq![c] by {
        assert(notices_to(out, m, true) =~= seq![c]);
    }
}

/// Leaving a room by `Join { hash: None }`: each remaining member hears of the
/// departure exactly once; the one leaving, and anyone outside the room,
/// hears of none.
pub proof fn leave_broadcast(cs: Seq<ClientState>, i: int)
    requires
        ids_distinct(cs),
        0 <= i < cs.len(),
        cs[i].room is Some,
    ensures
        ({
            let c = cs[i].id;
            let h = cs[i].room->0;
            let (cs1, out) = after_join(cs, i, None);
            let remaining = members(cs1, h@);
            &&& remaining == members_except(cs, h@, Some(c))
            &&& !remaining.contains(c)
            &&& forall|m: Client| #[trigger]
                remaining.contains(m) ==> notices_to(out, m, false) == seq![c]
            &&& forall|m: Client|
                !remaining.contains(m) ==> (#[trigger] notices_to(out, m, false)).len() == 0
        }),
{
    let c = cs[i].id;
    let h = cs[i].room->0;
    let e1 = ClientState { id: c, room: None, watches: cs[i].watches };
    let cs1 = cs.update(i, e1);
    assert(ids_distinct(cs1)) by {
        assert forall|a: int, b: int| 0 <= a < b < cs1.len() implies (#[trigger] cs1[a]).id != (
        #[trigger] cs1[b]).id by {
            assert(cs[a].id != cs[b].id);
        }
    }
    assert forall|j: int| 0 <= j < cs1.len() && (#[trigger] cs1[j]).id == c implies !in_room(
        cs1[j],
        h@,
    ) by {
        if j != i {
            if j < i {
                assert(cs[j].id != cs[i].id);
            } else {
                assert(cs[i].id != cs[j].id);
            }
        }
    }
    lemma_members_without(cs1, h@, c);
    lemma_members_update(cs, i, e1, h@);
    assert forall|m: Client| true implies notices_to(after_join(cs, i, None).1, m, false) == (
    if members(cs1, h@).contains(m) {
        seq![c]
    } else {
        Seq::<Client>::empty()
    }) by {
        lemma_leave_notices(cs1, c, h, m);
    }
}

/// Disconnecting: each remaining member of the room hears of the departure
/// exactly once, and nobody else hears of one.
pub proof fn disconnect_broadcast(cs: Seq<ClientState>, i: int)
    requires
        ids_distinct(cs),
        0 <= i < cs.len(),
    ensures
        ({
            let c = cs[i].id;
            let (cs1, out) = after_disconnect(cs, i);
            forall|m: Client|
                #[trigger] notices_to(out, m, false) == match cs[i].room {
                    Some(h) => if members(cs1, h@).contains(m) {
                        seq![c]
                    } else {
                        Seq::empty()
                    },
                    None => Seq::<Client>::empty(),
                }
        }),
        forall|h: Seq<char>| !(#[trigger] members(after_disconnect(cs, i).0, h)).contains(cs[i].id),
{
    let c = cs[i].id;
    let cs1 = cs.remove(i);
    assert forall|a: int, b: int| 0 <= a < b < cs1.len() implies (#[trigger] cs1[a]).id != (
    #[trigger] cs1[b]).id by {
        let a0 = if a < i {
            a
        } else {
            a + 1
        };
        let b0 = if b < i {
            b
        } else {
            b + 1
        };
        assert(cs[a0].id != cs[b0].id);
    }
    assert forall|j: int| 0 <= j < cs1.len() implies (#[trigger] cs1[j]).id != c by {
        let j0 = if j < i {
            j
        } else {
            j + 1
        };
        if j0 < i {
            assert(cs[j0].id != cs[i].id);
        } else {
            assert(cs[i].id != cs[j0].id);
        }
    }
    assert forall|h: Seq<char>| !(#[trigger] members(cs1, h)).contains(c) by {
        lemma_members_without(cs1, h, c);
    }
    match cs[i].room {
        None => {},
        Some(h) => {
            assert forall|m: Client| true implies #[trigger] notices_to(
                after_disconnect(cs, i).1,
                m,
                false,
            ) == (if members(cs1, h@).contains(m) {
                seq![c]
            } else {
                Seq::<Client>::empty()
            }) by {
                lemma_leave_notices(cs1, c, h, m);
            }
        },
    }
}

/// Watching: subscribing to a single occupied room answers at once with its
/// occupancy, and a later join to that room sends the new occupancy to every
/// watcher of it, the subscriber among them.
pub proof fn watch_semantics(cs: Seq<ClientState>, i: int, list: Vec<String>, j: int)
    requires
        ids_distinct(cs),
        0 <= i < cs.len(),
        0 <= j < cs.len(),
        list@.len() == 1,
        members(cs, list@[0]@).len() > 0,
    ensures
        ({
            let h = list@[0];
            let (cs1, out1) = after_recv(cs, i, ServerboundPacket::WatchRooms(list));
            let (cs2, out2) = after_join(cs1, j, Some(h));
            &&& out1 == seq![Delivery { to: cs[i].id, packet: room_info(cs, h) }]
            &&& watchers(cs2, h@).contains(cs[i].id)
            &&& forall|w: Client| #[trigger]
                watchers(cs2, h@).contains(w) ==> out2.contains(
                    Delivery { to: w, packet: room_info(cs2, h) },
                )
        }),
{
    let h = list@[0];
    let c = cs[i];
    let cs1 = cs.update(i, ClientState { id: c.id, room: c.room, watches: list });
    assert(list@.drop_last() =~= Seq::<String>::empty());
    assert(list@.last() == h);
    assert(crate::registry::watch_replies(cs, c.id, list@.drop_last()) == Seq::<Delivery>::empty());
    assert(crate::registry::watch_replies(cs, c.id, list@) =~= seq![
        Delivery { to: c.id, packet: room_info(cs, h) },
    ]);
    let (cs2, out2) = after_join(cs1, j, Some(h));
    let (cs15, out15) = crate::registry::after_leave(cs1, j);
    assert(cs2[i].watches == list) by {
        assert(cs15[i].watches == list);
    }
    assert(list@[0]@ == h@);
    assert(watching(cs2[i], h@));
    lemma_watchers_contains(cs2, h@, i);
    let d = cs15[j];
    let cs2b = cs15.update(j, ClientState { id: d.id, room: Some(h), watches: d.watches });
    assert(cs2 == cs2b);
    let w = fan_out(watchers(cs2, h@), room_info(cs2, h));
    let je = join_effects(cs2, d.id, h);
    assert(out2 == out15 + je);
    assert forall|x: Client| #[trigger] watchers(cs2, h@).contains(x) implies out2.contains(
        Delivery { to: x, packet: room_info(cs2, h) },
    ) by {
        lemma_fan_out_contains(watchers(cs2, h@), room_info(cs2, h), x);
        let k = w.index_of(Delivery { to: x, packet: room_info(cs2, h) });
        assert(je[k] == w[k]);
        assert(out2[out15.len() + k] == je[k]);
    }
}

} // verus!
