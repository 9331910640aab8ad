//! The exchange with a client: what is sent again when a session is taken up, and that nothing
//! waits that could be sent.

use vstd::prelude::*;

use crate::assoc::{bound, cut, lookup};
use crate::attaching::first_of;
use crate::dispatch::HubCommand;
use crate::effects::EffectView;
use crate::forwarding::gate_of;
use crate::guarantees::distinct;
use crate::hub::HubView;
use crate::ids::ClientId;
use crate::inflight::{BacklogView, InflightView, OutState, PendingOutView};
use crate::lanes::{AppendJob, GateView, LaneOutcome, LANE_QUEUE_CAP};
use crate::message::PublicationView;
use crate::packet::{publish_of, PacketView};
use crate::qos::{weaker, QoS};
use crate::qos2::{Qos2OpOutcome, Qos2RetireResult};
use crate::reach::{lemma_delivering_reach, lemma_draining_reach, same_for};
use crate::delivery::first_state;
use crate::session::{AttachOutcome, OnlineView, PendingAttach, QueuedMessage, QueuedView, RecoveryView,
    SessionRecovery, StorageError};
use crate::shared::Matches;

verus! {

// What is sent again.

/// Whether the client still owes an answer to what holds the packet id.
pub open spec fn unanswered() -> spec_fn((u16, PendingOutView)) -> bool {
    |x: (u16, PendingOutView)|
        x.1.state == OutState::AwaitingPubAck || x.1.state == OutState::AwaitingPubRec
            || x.1.state == OutState::AwaitingPubComp
}

/// Whether `e` is what connection `conn` is sent again for what holds the packet id: the release,
/// where the client has confirmed the receipt, and else the message, marked as a duplicate.
pub open spec fn sent_again(e: EffectView, conn: u64, x: (u16, PendingOutView)) -> bool {
    if x.1.state == OutState::AwaitingPubComp {
        e == (EffectView::Packet { conn, packet: PacketView::PubRel(x.0) })
    } else {
        e matches EffectView::Packet {
            conn: n,
            packet: PacketView::Publish { dup, qos, retain, topic, pkid, payload, .. },
        } && n == conn && dup && !retain && pkid == Some(x.0) && topic == x.1.message.topic
            && payload == x.1.message.payload && qos == x.1.message.qos
    }
}

/// Whether `e` speaks of packet id `id` to a client.
pub open spec fn speaks_of(e: EffectView, id: u16) -> bool {
    e matches EffectView::Packet { packet, .. } && match packet {
        PacketView::Publish { pkid, .. } => pkid == Some(id),
        PacketView::PubRel(n) => n == id,
        PacketView::Disconnect { .. } => false,
    }
}

/// Whether `e` sends something again.
pub open spec fn repeats(e: EffectView) -> bool {
    e matches EffectView::Packet { packet, .. } && match packet {
        PacketView::Publish { dup, .. } => dup,
        PacketView::PubRel(_) => true,
        PacketView::Disconnect { .. } => false,
    }
}

/// Whether `client` holds packet id `id`, where there is one.
spec fn holds(h: HubView, client: Seq<char>, id: Option<u16>) -> bool {
    id matches Some(n) ==> bound(h.inf(client).pending, n)
}

/// Whether `e` speaks of packet id `id`, where there is one.
spec fn names(e: EffectView, id: Option<u16>) -> bool {
    id matches Some(n) && speaks_of(e, n)
}

/// Whether `b` goes on from `a` without a word of `id`, which the client holds, and without
/// sending anything again.
spec fn spares(a: HubView, b: HubView, client: Seq<char>, id: Option<u16>) -> bool {
    &&& a.effects.len() <= b.effects.len()
    &&& b.effects.take(a.effects.len() as int) == a.effects
    &&& forall|k: int|
        a.effects.len() <= k < b.effects.len() ==> !names(#[trigger] b.effects[k], id)
            && !repeats(b.effects[k])
    &&& holds(b, client, id)
}

proof fn lemma_spares(a: HubView, b: HubView, c: HubView, client: Seq<char>, id: Option<u16>)
    requires
        spares(a, b, client, id),
        spares(b, c, client, id),
    ensures
        spares(a, c, client, id),
{
    let n = a.effects.len() as int;
    let m = b.effects.len() as int;
    assert(c.effects.take(n) =~= c.effects.take(m).take(n));
    assert forall|k: int| n <= k < c.effects.len() implies !names(#[trigger] c.effects[k], id)
        && !repeats(c.effects[k]) by {
        if k < m {
            assert(c.effects[k] == c.effects.take(m)[k]);
        }
    }
}

proof fn lemma_spares_same(a: HubView, b: HubView, client: Seq<char>, id: Option<u16>)
    requires
        b.effects == a.effects,
        holds(b, client, id),
    ensures
        spares(a, b, client, id),
{
    assert(b.effects.take(a.effects.len() as int) =~= a.effects);
}

proof fn lemma_spares_push(a: HubView, b: HubView, e: EffectView, client: Seq<char>, id: Option<u16>)
    requires
        b.effects == a.effects.push(e),
        !names(e, id),
        !repeats(e),
        holds(b, client, id),
    ensures
        spares(a, b, client, id),
{
    assert(b.effects.take(a.effects.len() as int) =~= a.effects);
}

proof fn lemma_sending_qos_spares(h: HubView, client: Seq<char>, e: BacklogView, id: Option<u16>)
    requires
        holds(h, client, id),
    ensures
        spares(h, h.sending_qos(client, e).0, client, id),
{
    broadcast use crate::assoc::lemma_lookup_put, crate::assoc::lemma_lookup_cut;

    let r = h.sending_qos(client, e).0;
    crate::inflight::lemma_allocated_keeps_line(h.inf(client));
    let (inf, fresh) = h.inf(client).allocated();
    let n = id->Some_0;
    assert(id is Some ==> lookup(h.inf(client).pending, n) is Some);
    if e.message.qos == QoS::AtMostOnce {
        if h.is_online(client) {
            lemma_spares_push(h, r, r.effects.last(), client, id);
        } else {
            lemma_spares_same(h, r, client, id);
        }
    } else {
        match fresh {
            None => {
                if inf.reserve_outstanding {
                    lemma_spares_same(h, r, client, id);
                } else {
                    lemma_spares_push(h, r, r.effects.last(), client, id);
                }
            },
            Some(pkid) => {
                let p = PendingOutView {
                    message: e.message,
                    state: if e.message.qos == QoS::ExactlyOnce && e.offset is Some {
                        OutState::AwaitingIdRecord
                    } else {
                        first_state(e.message.qos)
                    },
                    offset: e.offset,
                };
                crate::assoc::lemma_lookup_ranked::<u16, PendingOutView>(inf.pending, pkid, p, n);
                let parked = inf.holding(pkid, p);
                assert(id is Some ==> lookup(parked.pending, n) is Some);
                assert(id is Some ==> lookup(cut(parked.pending, pkid), n) is Some);
                if e.message.qos == QoS::ExactlyOnce && e.offset is Some {
                    if h.lane(client).takes_delivery() {
                        assert(r.inf(client).pending == parked.pending);
                        lemma_spares_push(h, r, r.effects.last(), client, id);
                    } else {
                        assert(r.inf(client).pending == cut(parked.pending, pkid));
                        lemma_spares_same(h, r, client, id);
                    }
                } else {
                    assert(r.inf(client).pending == parked.pending);
                    if h.is_online(client) {
                        lemma_spares_push(h, r, r.effects.last(), client, id);
                    } else {
                        lemma_spares_same(h, r, client, id);
                    }
                }
            },
        }
    }
}

proof fn lemma_draining_spares(h: HubView, client: Seq<char>, n: nat, id: Option<u16>)
    requires
        holds(h, client, id),
    ensures
        spares(h, h.draining(client, n), client, id),
    decreases n,
{
    broadcast use crate::assoc::lemma_lookup_put;

    lemma_spares_same(h, h, client, id);
    if n > 0 && h.is_online(client) {
        match lookup(h.sessions.inflight, client) {
            Some(inf) => {
                if !(inf.is_full() || inf.records_pending > 0 || inf.backlog.len() == 0) {
                    let popped = h.with_inf(
                        client,
                        InflightView { backlog: inf.backlog.skip(1), ..inf },
                    );
                    lemma_spares_same(h, popped, client, id);
                    lemma_sending_qos_spares(popped, client, inf.backlog[0], id);
                    let sent = popped.sending_qos(client, inf.backlog[0]).0;
                    lemma_spares(h, popped, sent, client, id);
                    lemma_draining_spares(sent, client, (n - 1) as nat, id);
                    lemma_spares(h, sent, sent.draining(client, (n - 1) as nat), client, id);
                }
            },
            None => {},
        }
    }
}

proof fn lemma_truncating_spares(h: HubView, client: Seq<char>, id: Option<u16>)
    requires
        holds(h, client, id),
    ensures
        spares(h, h.truncating(client), client, id),
{
    broadcast use crate::assoc::lemma_lookup_put;

    let r = h.truncating(client);
    lemma_spares_same(h, h, client, id);
    match lookup(h.sessions.inflight, client) {
        Some(inf) => {
            if inf.safe_through() > inf.acked_through {
                lemma_spares_push(
                    h,
                    r,
                    EffectView::Ack { client, up_to: inf.safe_through() },
                    client,
                    id,
                );
            }
        },
        None => {},
    }
}

proof fn lemma_released_all_pending(inf: InflightView, gone: Seq<BacklogView>)
    ensures
        inf.released_all(gone).pending == inf.pending,
    decreases gone.len(),
{
    if gone.len() > 0 {
        lemma_released_all_pending(inf, gone.drop_last());
    }
}

proof fn lemma_to_client_spares(h: HubView, client: Seq<char>, e: BacklogView, id: Option<u16>)
    requires
        holds(h, client, id),
    ensures
        spares(h, h.to_client(client, e), client, id),
{
    broadcast use crate::assoc::lemma_lookup_put;

    let h1 = if e.offset is Some && e.message.qos != QoS::AtMostOnce {
        h.with_inf(client, h.inf(client).tracking(e.offset->Some_0))
    } else {
        h
    };
    let r = h.to_client(client, e);
    assert(h1.inf(client).pending == h.inf(client).pending);
    lemma_spares_same(h, h1, client, id);
    if e.message.qos == QoS::AtMostOnce {
        if !h1.sheds(client, e.message) {
            if h1.is_online(client) {
                lemma_spares_push(h, r, r.effects.last(), client, id);
            } else {
                lemma_spares_same(h, r, client, id);
            }
        }
    } else if h1.inf(client).must_wait() {
        let inf = h1.inf(client);
        let gone = inf.evicted(e, h1.limits);
        lemma_released_all_pending(inf.waiting(e, h1.limits), gone);
        let h2 = h1.with_inf(client, inf.waiting(e, h1.limits).released_all(gone));
        lemma_spares_same(h1, h2, client, id);
        lemma_truncating_spares(h2, client, id);
        let h3 = h1.queueing(client, e);
        lemma_spares(h1, h2, h2.truncating(client), client, id);
        assert(spares(h1, h3, client, id));
        lemma_spares(h, h1, h3, client, id);
        lemma_draining_spares(h3, client, h3.inf(client).backlog.len(), id);
        lemma_spares(h, h3, h3.drained(client), client, id);
    } else {
        lemma_sending_qos_spares(h1, client, e, id);
        lemma_spares(h, h1, r, client, id);
    }
}

proof fn lemma_replaying_spares(
    h: HubView,
    client: Seq<char>,
    revoked: Seq<Seq<char>>,
    queue: Seq<QueuedView>,
    id: Option<u16>,
)
    requires
        holds(h, client, id),
    ensures
        spares(h, h.replaying_each(client, revoked, queue), client, id),
    decreases queue.len(),
{
    lemma_spares_same(h, h, client, id);
    if queue.len() > 0 {
        let q = queue.last();
        lemma_replaying_spares(h, client, revoked, queue.drop_last(), id);
        let h1 = h.replaying_each(client, revoked, queue.drop_last());
        lemma_to_client_spares(
            h1,
            client,
            BacklogView {
                message: q.message,
                retain: false,
                message_expiry: match q.expiry_at {
                    Some(d) => Some(crate::attaching::remaining(h1.now, d)),
                    None => None,
                },
                offset: Some(q.offset),
            },
            id,
        );
        let h2 = h1.replaying_one(client, revoked, q);
        lemma_spares_same(h1, h1, client, id);
        assert(spares(h1, h2, client, id));
        lemma_spares(h, h1, h2, client, id);
    }
}

proof fn lemma_queue_spares(
    h: HubView,
    client: Seq<char>,
    revoked: Seq<Seq<char>>,
    queue: Seq<QueuedView>,
    id: Option<u16>,
)
    requires
        holds(h, client, id),
    ensures
        spares(h, h.replaying_queue(client, revoked, queue), client, id),
{
    broadcast use crate::assoc::lemma_lookup_put;

    lemma_replaying_spares(h, client, revoked, queue, id);
    let h1 = h.replaying_each(client, revoked, queue);
    let last = crate::attaching::last_offset(queue);
    if last > 0 {
        let h2 = h1.with_inf(client, h1.inf(client).replayed_through(last));
        lemma_spares_same(h1, h2, client, id);
        lemma_truncating_spares(h2, client, id);
        lemma_spares(h1, h2, h2.truncating(client), client, id);
        lemma_spares(h, h1, h2.truncating(client), client, id);
    }
}

proof fn lemma_resending(
    h: HubView,
    client: Seq<char>,
    pending: Seq<(u16, PendingOutView)>,
    o: OnlineView,
)
    requires
        lookup(h.sessions.online, client) == Some(o),
    ensures
        ({
            let r = h.resending(client, pending);
            let owed = pending.filter(unanswered());
            let n = h.effects.len() as int;
            &&& r.effects.len() == n + owed.len()
            &&& r.effects.take(n) == h.effects
            &&& forall|i: int|
                0 <= i < owed.len() ==> sent_again(r.effects[n + i], o.conn_id, #[trigger] owed[i])
            &&& r.sessions.inflight == h.sessions.inflight
            &&& lookup(r.sessions.online, client) matches Some(q) && q.conn_id == o.conn_id
        }),
    decreases pending.len(),
{
    broadcast use crate::assoc::lemma_lookup_put;

    reveal(Seq::filter);
    let n = h.effects.len() as int;
    if pending.len() == 0 {
        assert(h.effects.take(n) =~= h.effects);
    } else {
        let t = pending.drop_last();
        lemma_resending(h, client, t, o);
        let before = h.resending(client, t);
        let r = h.resending(client, pending);
        let rest = t.filter(unanswered());
        let owed = pending.filter(unanswered());
        let x = pending.last();
        if unanswered()(x) {
            assert(owed == rest.push(x));
            assert(r.effects.len() == before.effects.len() + 1);
            assert(r.effects.take(n) =~= before.effects.take(n));
            assert forall|i: int| 0 <= i < owed.len() implies sent_again(
                r.effects[n + i],
                o.conn_id,
                #[trigger] owed[i],
            ) by {
                if i < rest.len() {
                    assert(owed[i] == rest[i]);
                    assert(r.effects[n + i] == before.effects[n + i]);
                } else {
                    assert(owed[i] == x);
                }
            }
        } else {
            assert(owed == rest);
            assert(r == before);
        }
    }
}

/// Whether `b` knows what `a` knew of the exchange with `c`, which is not connected.
pub open spec fn away(a: HubView, b: HubView, c: Seq<char>) -> bool {
    &&& lookup(b.sessions.online, c) is None
    &&& lookup(b.sessions.inflight, c) == lookup(a.sessions.inflight, c)
}

proof fn lemma_delivering_away(
    h: HubView,
    client: Seq<char>,
    p: PublicationView,
    qos: QoS,
    retain: bool,
    gate: GateView,
    c: Seq<char>,
)
    requires
        lookup(h.sessions.online, c) is None,
    ensures
        away(h, h.delivering(client, p, qos, retain, gate).0, c),
{
    lemma_delivering_reach(h, client, p, qos, retain, gate, c);
}

proof fn lemma_delivering_all_away(
    h: HubView,
    p: PublicationView,
    targets: crate::delivery::Targets,
    gate: GateView,
    c: Seq<char>,
)
    requires
        lookup(h.sessions.online, c) is None,
    ensures
        away(h, h.delivering_all(p, targets, gate).0, c),
    decreases targets.len(),
{
    if targets.len() > 0 {
        let t = targets.last();
        lemma_delivering_all_away(h, p, targets.drop_last(), gate, c);
        let h1 = h.delivering_all(p, targets.drop_last(), gate).0;
        lemma_delivering_away(h1, t.0, p, weaker(p.qos, t.1), t.2, gate, c);
    }
}

proof fn lemma_sharing_all_away(
    h: HubView,
    p: PublicationView,
    gate: Option<u64>,
    m: Matches,
    c: Seq<char>,
)
    requires
        lookup(h.sessions.online, c) is None,
    ensures
        away(h, h.sharing_all(p, gate, m).0, c),
    decreases m.len(),
{
    if m.len() > 0 {
        lemma_sharing_all_away(h, p, gate, m.drop_last(), c);
        let h1 = h.sharing_all(p, gate, m.drop_last()).0;
        let (key, cs) = m.last();
        match h1.pick(key, cs) {
            Some(x) => {
                lemma_delivering_away(
                    h1.turning(key, cs.len()),
                    x.client,
                    p,
                    weaker(p.qos, x.qos),
                    false,
                    gate_of(gate),
                    c,
                );
            },
            None => {},
        }
    }
}

pub proof fn lemma_publishing_away(
    h: HubView,
    p: PublicationView,
    publisher: Option<Seq<char>>,
    gate: Option<u64>,
    c: Seq<char>,
)
    requires
        lookup(h.sessions.online, c) is None,
    ensures
        away(h, h.publishing(p, publisher, gate).0, c),
{
    let g = gate_of(gate);
    let h0 = h.keeping(p, g);
    lemma_delivering_all_away(h0, p, h.targets(p.topic, publisher, p.retain), g, c);
    let (h1, out1) = h.applying(p, publisher, g);
    assert(away(h, h1, c));
    lemma_sharing_all_away(h1, p, gate, h1.shared_matches(p.topic), c);
    let h2 = h1.sharing_all(p, gate, h1.shared_matches(p.topic)).0;
    crate::hearing::lemma_fanning_spares(h2, p, gate);
}

/// Whether, from place `n` of what is done, a session is taken up: its client has been told that
/// it is let in, each of `owed` is sent again in turn, and nothing else is.
pub open spec fn taken_up(
    es: Seq<EffectView>,
    n: int,
    conn: u64,
    token: u64,
    present: bool,
    owed: Seq<(u16, PendingOutView)>,
) -> bool {
    &&& 0 < n <= es.len() - owed.len()
    &&& es[n - 1] == (EffectView::Attached { token, result: AttachOutcome::Present(present) })
    &&& forall|i: int| 0 <= i < owed.len() ==> sent_again(es[n + i], conn, #[trigger] owed[i])
    &&& forall|k: int| n + owed.len() <= k < es.len() ==> !repeats(#[trigger] es[k])
    &&& forall|k: int, i: int|
        n + owed.len() <= k < es.len() && 0 <= i < owed.len() ==> !speaks_of(
            #[trigger] es[k],
            (#[trigger] owed[i]).0,
        )
}

/// A session is taken up where it stood. Its client is let in, and is sent again, in the order of
/// the packet ids that it holds, everything that it has not answered, and nothing else: what it has
/// confirmed to have received is released once more, and what it has not is sent once more as a
/// duplicate, under the packet id it had. What is sent behind it is new, and goes by other packet
/// ids.
pub proof fn law_session_is_taken_up(
    h: HubView,
    pending: PendingAttach,
    recovery: SessionRecovery,
    queue: Option<Vec<QueuedMessage>>,
    denied: Vec<String>,
    present: bool,
    subs: Seq<(Seq<char>, QoS)>,
)
    requires
        lookup(h.sessions.connecting, pending.deep_view().client) == Some(
            pending.deep_view().conn_id,
        ),
        recovery.deep_view() == (RecoveryView::Ready { present, subscriptions: subs }),
        !h.refuses_session(pending.deep_view().client, present),
    ensures
        exists|n: int| #[trigger]
            taken_up(
                h.after(
                    HubCommand::SessionRecovered { pending, recovery, queue, denied },
                ).effects,
                n,
                pending.deep_view().conn_id,
                pending.deep_view().reply,
                present,
                h.inf(pending.deep_view().client).pending.filter(unanswered()),
            ),
{
    broadcast use crate::assoc::lemma_lookup_put, crate::assoc::lemma_lookup_cut;

    reveal(HubView::after);
    let p = pending.deep_view();
    let d = denied.deep_view();
    let r = h.after(HubCommand::SessionRecovered { pending, recovery, queue, denied });
    let h0 = h.fetched(p.client);
    let h1 = h0.resubscribing(p.client, subs, d, p.session_expiry > 0).keeping_session(
        p.client,
        p.session_expiry,
    );
    assert(h1.sessions.inflight == h.sessions.inflight);
    let h2 = h1.with_inf(
        p.client,
        InflightView { receive_maximum: p.receive_maximum, ..h1.inf(p.client) },
    );
    let h3 = h2.replacing(p.client);
    assert(h3.inf(p.client).pending == h.inf(p.client).pending) by {
        match lookup(h2.sessions.online, p.client) {
            Some(old) => {
                let gone = h2.with_online(cut(h2.sessions.online, p.client)).doing(
                    EffectView::Close { conn: old.conn_id },
                );
                match old.will {
                    Some(w) => {
                        lemma_publishing_away(
                            gone,
                            PublicationView { message_expiry: None, ..w },
                            None,
                            None,
                            p.client,
                        );
                    },
                    None => {},
                }
            },
            None => {},
        }
    }
    let h4 = h3.connecting_as(p, present);
    let o = lookup(h4.sessions.online, p.client)->Some_0;
    let all = h.inf(p.client).pending;
    let owed = all.filter(unanswered());
    lemma_resending(h4, p.client, all, o);
    let h5 = h4.resending(p.client, all);
    let n = h4.effects.len() as int;
    assert(h5.effects.take(n)[n - 1] == h4.effects[n - 1]);
    let gone = crate::attaching::revoked(subs, d);
    assert(h5 == h0.letting_in(p, present, subs, d));
    match queue.deep_view() {
        Some(q) => {
            assert(r == h5.replaying_queue(p.client, gone, first_of(q)));
            lemma_queue_spares(h5, p.client, gone, first_of(q), None);
            let m = h5.effects.len() as int;
            assert forall|k: int| 0 <= k < m implies r.effects[k] == #[trigger] h5.effects[k] by {
                assert(r.effects.take(m)[k] == r.effects[k]);
            }
        },
        None => {
            assert(r == h5);
        },
    }
    assert forall|i: int, k: int|
        n + owed.len() <= k < r.effects.len() && 0 <= i < owed.len() implies !speaks_of(
        #[trigger] r.effects[k],
        (#[trigger] owed[i]).0,
    ) by {
        crate::ledger::lemma_filter_keeps(all, unanswered(), i);
        let j = choose|j: int| 0 <= j < all.len() && all[j] == owed[i];
        crate::assoc::lemma_position(all, owed[i].0);
        assert(all[j].0 == owed[i].0);
        assert(bound(all, owed[i].0));
        match queue.deep_view() {
            Some(q) => {
                lemma_queue_spares(h5, p.client, gone, first_of(q), Some(owed[i].0));
            },
            None => {},
        }
    }
    assert(taken_up(r.effects, n, p.conn_id, p.reply, present, owed));
}

/// Whether, from place `n` of what is done, `x` is sent again once on connection `conn`, and nothing
/// else is said of its packet id.
pub open spec fn repeated_once(
    es: Seq<EffectView>,
    n: int,
    at: int,
    conn: u64,
    token: u64,
    present: bool,
    x: (u16, PendingOutView),
) -> bool {
    &&& 0 < n <= at < es.len()
    &&& es[n - 1] == (EffectView::Attached { token, result: AttachOutcome::Present(present) })
    &&& sent_again(es[at], conn, x)
    &&& forall|k: int| n <= k < es.len() && k != at ==> !speaks_of(#[trigger] es[k], x.0)
}

/// When a session is taken up, each packet id whose receipt the client has confirmed gets exactly
/// one release on the new connection, and no message under that id; and each that waits for the
/// acknowledgement or the receipt gets exactly its message, as a duplicate, and no release.
pub proof fn law_each_is_sent_again_once(
    h: HubView,
    pending: PendingAttach,
    recovery: SessionRecovery,
    queue: Option<Vec<QueuedMessage>>,
    denied: Vec<String>,
    present: bool,
    subs: Seq<(Seq<char>, QoS)>,
    i: int,
)
    requires
        lookup(h.sessions.connecting, pending.deep_view().client) == Some(
            pending.deep_view().conn_id,
        ),
        recovery.deep_view() == (RecoveryView::Ready { present, subscriptions: subs }),
        !h.refuses_session(pending.deep_view().client, present),
        distinct(h.inf(pending.deep_view().client).pending),
        0 <= i < h.inf(pending.deep_view().client).pending.len(),
        unanswered()(h.inf(pending.deep_view().client).pending[i]),
    ensures
        exists|n: int, at: int| #[trigger]
            repeated_once(
                h.after(
                    HubCommand::SessionRecovered { pending, recovery, queue, denied },
                ).effects,
                n,
                at,
                pending.deep_view().conn_id,
                pending.deep_view().reply,
                present,
                h.inf(pending.deep_view().client).pending[i],
            ),
{
    let p = pending.deep_view();
    let all = h.inf(p.client).pending;
    let owed = all.filter(unanswered());
    let es = h.after(HubCommand::SessionRecovered { pending, recovery, queue, denied }).effects;
    law_session_is_taken_up(h, pending, recovery, queue, denied, present, subs);
    let n = choose|n: int| #[trigger] taken_up(es, n, p.conn_id, p.reply, present, owed);
    all.lemma_filter_contains(unanswered(), i);
    let j = choose|j: int| 0 <= j < owed.len() && owed[j] == all[i];
    crate::listening::lemma_distinct_filter(all, unanswered());
    let at = n + j;
    assert(sent_again(es[n + j], p.conn_id, owed[j]));
    assert forall|k: int| n <= k < es.len() && k != at implies !speaks_of(
        #[trigger] es[k],
        all[i].0,
    ) by {
        if k < n + owed.len() {
            let a = k - n;
            assert(sent_again(es[n + a], p.conn_id, owed[a]));
            if a < j {
                assert(owed[a].0 != owed[j].0);
            } else {
                assert(owed[j].0 != owed[a].0);
            }
        } else {
            assert(!speaks_of(es[k], owed[j].0));
        }
    }
    assert(repeated_once(es, n, at, p.conn_id, p.reply, present, all[i]));
}

// Nothing waits that could be sent.

/// Whether nothing waits for `client` that could be sent: nothing waits at all, or the client holds
/// as many packet ids as it takes, or a packet id is being recorded or reserved for it. Where its
/// lane is full, a message whose packet id would have to be recorded waits for that.
pub open spec fn caught_up(h: HubView, client: Seq<char>) -> bool {
    let inf = h.inf(client);
    ||| inf.backlog.len() == 0
    ||| inf.pending.len() >= inf.receive_maximum
    ||| inf.records_pending > 0
    ||| inf.reserve_outstanding
    ||| inf.backlog[0].message.qos == QoS::ExactlyOnce && inf.backlog[0].offset is Some && h.lane(
        client,
    ).queued >= LANE_QUEUE_CAP
}

proof fn lemma_draining_catches_up(h: HubView, client: Seq<char>, n: nat)
    requires
        h.is_online(client),
        n >= h.inf(client).backlog.len(),
    ensures
        caught_up(h.draining(client, n), client),
    decreases n,
{
    broadcast use crate::assoc::lemma_lookup_put;

    if n > 0 {
        match lookup(h.sessions.inflight, client) {
            Some(inf) => {
                if !(inf.is_full() || inf.records_pending > 0 || inf.backlog.len() == 0) {
                    let popped = h.with_inf(
                        client,
                        InflightView { backlog: inf.backlog.skip(1), ..inf },
                    );
                    let e = inf.backlog[0];
                    let (sent, outcome) = popped.sending_qos(client, e);
                    crate::inflight::lemma_allocated_keeps_line(popped.inf(client));
                    if outcome == crate::delivery::QosSend::Sent {
                        crate::delivery::lemma_sent_keeps_backlog(popped, client, e);
                        lemma_draining_catches_up(sent, client, (n - 1) as nat);
                    } else {
                        let (found, fresh) = popped.inf(client).allocated();
                        assert(e.message.qos != QoS::AtMostOnce);
                        match fresh {
                            None => {
                                assert(sent.inf(client).reserve_outstanding);
                            },
                            Some(pkid) => {
                                if popped.lane(client).takes_delivery() {
                                    assert(sent.inf(client).records_pending > 0);
                                } else {
                                    assert(sent.inf(client).backlog[0] == e);
                                    assert(sent.lane(client).queued >= LANE_QUEUE_CAP);
                                }
                            },
                        }
                    }
                }
            },
            None => {},
        }
    }
}

/// An acknowledgement makes room for what waits: once a client has acknowledged a message, nothing
/// waits for it that could be sent.
pub proof fn law_acknowledgement_makes_room(h: HubView, client: ClientId, pkid: u16)
    requires
        bound(h.sessions.online, client.deep_view()),
        h.held_by(client.deep_view(), pkid) matches Some(p) && p.state == OutState::AwaitingPubAck,
    ensures
        caught_up(h.after(HubCommand::PubAck { client, pkid }), client.deep_view()),
{
    reveal(HubView::after);
    let c = client.deep_view();
    let p = h.held_by(c, pkid)->Some_0;
    let h1 = h.with_inf(c, h.inf(c).acked(pkid, p)).truncating(c);
    let h2 = if h1.qos2.cleanup.contains(c) {
        h1.retiring(c)
    } else {
        h1
    };
    assert(h2.sessions.online == h.sessions.online);
    lemma_draining_catches_up(h2, c, h2.inf(c).backlog.len());
}

/// A retirement makes room for what waits: once the store has said which packet ids it has given
/// up, nothing waits for a connected client that could be sent.
pub proof fn law_retirement_makes_room(h: HubView, client: ClientId, r: Qos2RetireResult)
    requires
        bound(h.sessions.online, client.deep_view()),
        r.deep_view().client == client.deep_view(),
        r.deep_view().epoch == h.epoch(client.deep_view()),
    ensures
        caught_up(
            h.after(HubCommand::Qos2OpDone { client, step: Qos2OpOutcome::Retire(r) }),
            client.deep_view(),
        ),
{
    reveal(HubView::after);
    let c = client.deep_view();
    let v = r.deep_view();
    let h0 = h.job_finished(c);
    let h1 = h0.with_qos2(
        crate::qos2::Qos2View {
            retire_inflight: crate::assoc::without(h0.qos2.retire_inflight, c),
            ..h0.qos2
        },
    );
    let h2 = match lookup(h1.sessions.inflight, c) {
        Some(inf) => h1.with_inf(c, inf.retired(v)),
        None => h1,
    };
    let h3 = if h2.retires(c) {
        h2.cleaning(c, true).retiring(c)
    } else {
        h2.cleaning(c, false)
    };
    assert(h3.sessions.online == h.sessions.online);
    lemma_draining_catches_up(h3, c, h3.inf(c).backlog.len());
}

/// New packet ids let go out what waited for them: once packet ids are reserved, or could not be,
/// nothing waits for a connected client that could be sent.
pub proof fn law_reservation_makes_room(
    h: HubView,
    client: ClientId,
    result: Result<u16, StorageError>,
)
    requires
        bound(h.sessions.online, client.deep_view()),
    ensures
        caught_up(
            h.after(HubCommand::PkidBlockReserved { client, result }),
            client.deep_view(),
        ),
{
    reveal(HubView::after);
    let c = client.deep_view();
    let h1 = h.with_inf(
        c,
        InflightView {
            reserve_outstanding: false,
            banked_base: Some(
                match result {
                    Ok(base) => base,
                    Err(_) => 0,
                },
            ),
            ..h.inf(c)
        },
    );
    lemma_draining_catches_up(h1, c, h1.inf(c).backlog.len());
}

/// A recorded packet id lets go out what stood behind it: once it is recorded, nothing waits for a
/// connected client that could be sent.
pub proof fn law_record_makes_room(h: HubView, job: AppendJob, o: u64)
    requires
        bound(h.sessions.online, job.deep_view().client),
        job.deep_view().work is RecordOutbound,
    ensures
        caught_up(
            h.after(HubCommand::AppendDone { job, outcome: LaneOutcome::Stored(o) }),
            job.deep_view().client,
        ),
{
    broadcast use crate::assoc::lemma_lookup_put;

    reveal(HubView::after);
    let j = job.deep_view();
    let c = j.client;
    let pkid = j.work->RecordOutbound_pkid;
    let h1 = h.job_finished(c).record_over(c);
    let h2 = if h1.on_planned_conn(j) {
        h1.with_state(c, pkid, OutState::AwaitingPubRec).sending(
            c,
            publish_of(j.message, Some(pkid), false, j.retain, j.message_expiry),
            crate::delivery::room(j.message),
        )
    } else {
        h1.unstaged(c, pkid)
    };
    assert(lookup(h1.sessions.online, c) is Some);
    assert(lookup(h2.sessions.online, c) is Some);
    lemma_draining_catches_up(h2, c, h2.inf(c).backlog.len());
}

proof fn lemma_retiring_same(h: HubView, client: Seq<char>, other: Seq<char>)
    ensures
        other != client ==> same_for(h, h.retiring(client), other),
        lookup(h.retiring(client).sessions.online, other) == lookup(h.sessions.online, other),
        h.retiring(client).sessions.inflight == h.sessions.inflight,
{
    broadcast use crate::assoc::lemma_lookup_put;

}

proof fn lemma_retiring_each_same(h: HubView, clients: Seq<Seq<char>>, other: Seq<char>)
    requires
        !clients.contains(other),
    ensures
        same_for(h, h.retiring_each(clients), other),
    decreases clients.len(),
{
    if clients.len() > 0 {
        let t = clients.drop_last();
        let c = clients.last();
        assert(clients[clients.len() - 1] == c);
        assert(!t.contains(other)) by {
            if t.contains(other) {
                let i = choose|i: int| 0 <= i < t.len() && t[i] == other;
                assert(clients[i] == other);
            }
        }
        lemma_retiring_each_same(h, t, other);
        let h1 = h.retiring_each(t);
        lemma_retiring_same(h1, c, other);
        let h2 = h1.retiring(c);
        lemma_draining_reach(h2, c, h2.inf(c).backlog.len(), other);
    }
}

/// A sweep lets go out what waits: for every connected client that has packet ids to be given up,
/// nothing waits afterwards that could be sent.
pub proof fn law_sweep_makes_room(h: HubView, clients: Seq<Seq<char>>, client: Seq<char>)
    requires
        clients.no_duplicates(),
        clients.contains(client),
        lookup(h.sessions.online, client) is Some,
    ensures
        caught_up(h.retiring_each(clients), client),
    decreases clients.len(),
{
    let t = clients.drop_last();
    let c = clients.last();
    let h1 = h.retiring_each(t);
    let h2 = h1.retiring(c);
    let r = h2.drained(c);
    assert(clients[clients.len() - 1] == c);
    assert(t.no_duplicates());
    if c == client {
        assert(!t.contains(client)) by {
            if t.contains(client) {
                let i = choose|i: int| 0 <= i < t.len() && t[i] == client;
                assert(clients[i] == client);
            }
        }
        lemma_retiring_each_same(h, t, client);
        lemma_retiring_same(h1, c, client);
        assert(bound(h2.sessions.online, c) == lookup(h2.sessions.online, c) is Some);
        lemma_draining_catches_up(h2, c, h2.inf(c).backlog.len());
    } else {
        let i = choose|i: int| 0 <= i < clients.len() && clients[i] == client;
        assert(t[i] == client);
        law_sweep_makes_room(h, t, client);
        lemma_retiring_same(h1, c, client);
        lemma_draining_reach(h2, c, h2.inf(c).backlog.len(), client);
        assert(same_for(h1, r, client));
    }
}

} // verus!
