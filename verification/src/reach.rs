//! Who gets what is published: that everybody who subscribes does, and in which order.

use vstd::prelude::*;

use crate::assoc::{bound, lookup, put};
use crate::cluster::PeerView;
use crate::delivery::{first_state, room, QosSend, Submitted, Targets};
use crate::effects::EffectView;
use crate::forwarding::{fan_frames, gate_of};
use crate::guarantees::alike;
use crate::hub::{held, HubView};
use crate::inflight::{make_place, BacklogView, InflightView, OutState, PendingOutView};
use crate::lanes::{GateView, JobView, LaneJobView};
use crate::ledger::{KindView, ObligationView};
use crate::message::{MessageView, PublicationView};
use crate::packet::{publish_of, PacketView};
use crate::qos::{level, weaker, QoS};
use crate::retained::{retained_for, RetainedStateView, WriteView};
use crate::session::OnlineView;
use crate::shared::Matches;
use crate::subscribing::{admits, as_retained, replay, WishView};
use crate::subscriptions::{matching, Grants};
use crate::topic::{matches_topic, share_parts};
use crate::wire::{on_wire, FrameView, WirePublicationView};

verus! {

/// Whether `b` has everything to be done that `a` has, and possibly more, and keeps the same
/// retained messages.
pub open spec fn follows(a: HubView, b: HubView) -> bool {
    &&& a.effects.len() <= b.effects.len()
    &&& b.effects.take(a.effects.len() as int) == a.effects
    &&& a.retained == b.retained
}

/// Whether what `a` and `b` know of client `c` is the same.
pub open spec fn same_for(a: HubView, b: HubView, c: Seq<char>) -> bool {
    &&& lookup(a.sessions.online, c) == lookup(b.sessions.online, c)
    &&& lookup(a.sessions.lanes, c) == lookup(b.sessions.lanes, c)
    &&& lookup(a.sessions.inflight, c) == lookup(b.sessions.inflight, c)
}

pub proof fn lemma_follows(a: HubView, b: HubView, c: HubView)
    requires
        follows(a, b),
        follows(b, c),
    ensures
        follows(a, c),
{
    assert(c.effects.take(a.effects.len() as int) =~= b.effects.take(a.effects.len() as int));
}

pub proof fn lemma_follows_push(a: HubView, b: HubView, e: EffectView)
    requires
        b.effects == a.effects.push(e),
        a.retained == b.retained,
    ensures
        follows(a, b),
        b.effects.contains(e),
{
    assert(b.effects.take(a.effects.len() as int) =~= a.effects);
    assert(b.effects[a.effects.len() as int] == e);
}

pub proof fn lemma_follows_same(a: HubView, b: HubView)
    requires
        b.effects == a.effects,
        a.retained == b.retained,
    ensures
        follows(a, b),
{
    assert(b.effects.take(a.effects.len() as int) =~= a.effects);
}

pub proof fn lemma_follows_contains(a: HubView, b: HubView, e: EffectView)
    requires
        follows(a, b),
        a.effects.contains(e),
    ensures
        b.effects.contains(e),
{
    let i = choose|i: int| 0 <= i < a.effects.len() && a.effects[i] == e;
    assert(b.effects.take(a.effects.len() as int)[i] == e);
    assert(b.effects[i] == e);
}

pub proof fn lemma_sending_reach(h: HubView, client: Seq<char>, packet: PacketView, n: nat, other: Seq<char>)
    ensures
        follows(h, h.sending(client, packet, n)),
        other != client ==> same_for(h, h.sending(client, packet, n), other),
{
    let after = h.sending(client, packet, n);
    match lookup(h.sessions.online, client) {
        Some(o) => {
            lemma_follows_push(h, after, EffectView::Packet { conn: o.conn_id, packet });
            crate::assoc::lemma_lookup_put(
                h.sessions.online,
                client,
                OnlineView {
                    queued: held(o.queued, 1),
                    queued_bytes: held(o.queued_bytes, n),
                    ..o
                },
                other,
            );
        },
        None => {
            lemma_follows_same(h, after);
        },
    }
}

pub proof fn lemma_submitting_reach(h: HubView, job: JobView, other: Seq<char>)
    ensures
        follows(h, h.submitting(job).0),
        other != job.client ==> same_for(h, h.submitting(job).0, other),
        h.submitting(job).1 == Submitted::Queued ==> h.submitting(job).0.effects.contains(
            EffectView::Lane { client: job.client, job: LaneJobView::Deliver(job) },
        ),
{
    let lane = h.lane(job.client);
    let after = h.submitting(job).0;
    if lane.takes_delivery() {
        lemma_follows_push(
            h,
            after,
            EffectView::Lane { client: job.client, job: LaneJobView::Deliver(job) },
        );
        crate::assoc::lemma_lookup_put(h.sessions.lanes, job.client, lane.taken_in(), other);
    } else {
        lemma_follows_same(h, after);
        crate::assoc::lemma_lookup_put(h.sessions.lanes, job.client, lane, other);
    }
}

pub proof fn lemma_with_inf_reach(h: HubView, client: Seq<char>, inf: InflightView, other: Seq<char>)
    ensures
        follows(h, h.with_inf(client, inf)),
        other != client ==> same_for(h, h.with_inf(client, inf), other),
{
    lemma_follows_same(h, h.with_inf(client, inf));
    crate::assoc::lemma_lookup_put(h.sessions.inflight, client, inf, other);
}

pub proof fn lemma_sending_qos_reach(h: HubView, client: Seq<char>, e: BacklogView, other: Seq<char>)
    ensures
        follows(h, h.sending_qos(client, e).0),
        other != client ==> same_for(h, h.sending_qos(client, e).0, other),
{
    let after = h.sending_qos(client, e).0;
    if e.message.qos == QoS::AtMostOnce {
        lemma_sending_reach(
            h,
            client,
            publish_of(e.message, None, false, e.retain, e.message_expiry),
            room(e.message),
            other,
        );
    } else {
        let (inf, id) = h.inf(client).allocated();
        match id {
            None => {
                if inf.reserve_outstanding {
                    lemma_with_inf_reach(h, client, inf.waiting_first(e), other);
                } else {
                    let next = InflightView { reserve_outstanding: true, ..inf.waiting_first(e) };
                    lemma_with_inf_reach(h, client, next, other);
                    lemma_follows_push(
                        h.with_inf(client, next),
                        after,
                        EffectView::ReservePacketIds {
                            client,
                            count: crate::inflight::PKID_BLOCK,
                        },
                    );
                    lemma_follows(h, h.with_inf(client, next), after);
                }
            },
            Some(pkid) => {
                if e.message.qos == QoS::ExactlyOnce && e.offset is Some {
                    let offset = e.offset->Some_0;
                    let parked = inf.holding(
                        pkid,
                        PendingOutView {
                            message: e.message,
                            state: OutState::AwaitingIdRecord,
                            offset: Some(offset),
                        },
                    );
                    let staged = InflightView {
                        records_pending: held(inf.records_pending, 1),
                        ..parked
                    };
                    let h1 = h.with_inf(client, staged);
                    let job = h.record_job(client, e, pkid, offset);
                    lemma_with_inf_reach(h, client, staged, other);
                    lemma_submitting_reach(h1, job, other);
                    let h2 = h1.submitting(job).0;
                    lemma_follows(h, h1, h2);
                    let back = InflightView {
                        pending: crate::assoc::cut(parked.pending, pkid),
                        records_pending: (held(inf.records_pending, 1) - 1) as usize,
                        ..inf
                    }.waiting_first(e);
                    lemma_with_inf_reach(h2, client, back, other);
                    lemma_follows(h, h2, h2.with_inf(client, back));
                } else {
                    let holding = inf.holding(
                        pkid,
                        PendingOutView {
                            message: e.message,
                            state: first_state(e.message.qos),
                            offset: e.offset,
                        },
                    );
                    let h1 = h.with_inf(client, holding);
                    lemma_with_inf_reach(h, client, holding, other);
                    lemma_sending_reach(
                        h1,
                        client,
                        publish_of(e.message, Some(pkid), false, e.retain, e.message_expiry),
                        room(e.message),
                        other,
                    );
                    lemma_follows(h, h1, after);
                }
            },
        }
    }
}

pub proof fn lemma_draining_reach(h: HubView, client: Seq<char>, n: nat, other: Seq<char>)
    ensures
        follows(h, h.draining(client, n)),
        other != client ==> same_for(h, h.draining(client, n), other),
    decreases n,
{
    lemma_follows_same(h, h);
    if n > 0 && h.is_online(client) {
        match lookup(h.sessions.inflight, client) {
            Some(inf) => {
                if !(inf.is_full() || inf.records_pending > 0 || inf.backlog.len() == 0) {
                    let next = InflightView { backlog: inf.backlog.skip(1), ..inf };
                    let popped = h.with_inf(client, next);
                    lemma_with_inf_reach(h, client, next, other);
                    lemma_sending_qos_reach(popped, client, inf.backlog[0], other);
                    let sent = popped.sending_qos(client, inf.backlog[0]).0;
                    lemma_follows(h, popped, sent);
                    lemma_draining_reach(sent, client, (n - 1) as nat, other);
                    lemma_follows(h, sent, sent.draining(client, (n - 1) as nat));
                }
            },
            None => {},
        }
    }
}

pub proof fn lemma_truncating_reach(h: HubView, client: Seq<char>, other: Seq<char>)
    ensures
        follows(h, h.truncating(client)),
        other != client ==> same_for(h, h.truncating(client), other),
{
    lemma_follows_same(h, h);
    match lookup(h.sessions.inflight, client) {
        Some(inf) => {
            if inf.safe_through() > inf.acked_through {
                let next = InflightView { acked_through: inf.safe_through(), ..inf };
                lemma_with_inf_reach(h, client, next, other);
                lemma_follows_push(
                    h.with_inf(client, next),
                    h.truncating(client),
                    EffectView::Ack { client, up_to: inf.safe_through() },
                );
                lemma_follows(h, h.with_inf(client, next), h.truncating(client));
            }
        },
        None => {},
    }
}

pub proof fn lemma_to_client_reach(h: HubView, client: Seq<char>, e: BacklogView, other: Seq<char>)
    ensures
        follows(h, h.to_client(client, e)),
        other != client ==> same_for(h, h.to_client(client, e), other),
{
    lemma_follows_same(h, h);
    let owed = e.offset is Some && e.message.qos != QoS::AtMostOnce;
    let h1 = if owed {
        h.with_inf(client, h.inf(client).tracking(e.offset->Some_0))
    } else {
        h
    };
    if owed {
        lemma_with_inf_reach(h, client, h.inf(client).tracking(e.offset->Some_0), other);
    }
    if e.message.qos == QoS::AtMostOnce {
        lemma_sending_reach(
            h1,
            client,
            publish_of(e.message, None, false, e.retain, e.message_expiry),
            room(e.message),
            other,
        );
    } else if h1.inf(client).must_wait() {
        let inf = h1.inf(client);
        let gone = inf.evicted(e, h1.limits);
        let next = inf.waiting(e, h1.limits).released_all(gone);
        let h2 = h1.with_inf(client, next);
        lemma_with_inf_reach(h1, client, next, other);
        lemma_truncating_reach(h2, client, other);
        lemma_follows(h1, h2, h2.truncating(client));
        let h3 = h1.queueing(client, e);
        lemma_follows(h, h1, h3);
        lemma_draining_reach(h3, client, h3.inf(client).backlog.len(), other);
        lemma_follows(h, h3, h3.drained(client));
    } else {
        lemma_sending_qos_reach(h1, client, e, other);
        lemma_follows(h, h1, h1.sending_qos(client, e).0);
    }
}

pub proof fn lemma_in_order_reach(
    h: HubView,
    client: Seq<char>,
    m: MessageView,
    expiry: Option<u32>,
    other: Seq<char>,
)
    ensures
        follows(h, h.sending_in_order(client, m, expiry)),
        other != client ==> same_for(h, h.sending_in_order(client, m, expiry), other),
{
    lemma_submitting_reach(
        h,
        JobView {
            client,
            message: m,
            work: crate::lanes::WorkView::Passthrough,
            owed: crate::lanes::ThenView::Ungated,
            planned_conn: h.conn_of(client),
            retain: m.retain,
            message_expiry: expiry,
        },
        other,
    );
    lemma_to_client_reach(
        h,
        client,
        BacklogView { message: m, retain: m.retain, message_expiry: expiry, offset: None },
        other,
    );
}

/// A delivery to one client leaves the others as they are.
pub proof fn lemma_delivering_reach(
    h: HubView,
    client: Seq<char>,
    p: PublicationView,
    qos: QoS,
    retain: bool,
    gate: GateView,
    other: Seq<char>,
)
    ensures
        follows(h, h.delivering(client, p, qos, retain, gate).0),
        other != client ==> same_for(h, h.delivering(client, p, qos, retain, gate).0, other),
{
    lemma_follows_same(h, h);
    let m = p.message(qos, retain, h.now);
    lemma_submitting_reach(
        h,
        h.append_job(client, m, p.message_expiry, gate, h.conn_of(client)),
        other,
    );
    lemma_submitting_reach(h, h.append_job(client, m, p.message_expiry, gate, None), other);
    let h2 = h.appending(client, m, p.message_expiry, gate, h.conn_of(client)).0;
    lemma_in_order_reach(h, client, m, p.message_expiry, other);
    lemma_in_order_reach(h2, client, m, p.message_expiry, other);
    lemma_follows(h, h2, h2.sending_in_order(client, m, p.message_expiry));
}

pub proof fn lemma_delivering_all_reach(
    h: HubView,
    p: PublicationView,
    targets: Targets,
    gate: GateView,
    other: Seq<char>,
)
    ensures
        follows(h, h.delivering_all(p, targets, gate).0),
        (forall|i: int| 0 <= i < targets.len() ==> (#[trigger] targets[i]).0 != other) ==> same_for(
            h,
            h.delivering_all(p, targets, gate).0,
            other,
        ),
    decreases targets.len(),
{
    lemma_follows_same(h, h);
    if targets.len() > 0 {
        let rest = targets.drop_last();
        lemma_delivering_all_reach(h, p, rest, gate, other);
        let h1 = h.delivering_all(p, rest, gate).0;
        let t = targets.last();
        lemma_delivering_reach(h1, t.0, p, weaker(p.qos, t.1), t.2, gate, other);
        let h2 = h.delivering_all(p, targets, gate).0;
        lemma_follows(h, h1, h2);
        if forall|i: int| 0 <= i < targets.len() ==> (#[trigger] targets[i]).0 != other {
            assert forall|i: int| 0 <= i < rest.len() implies (#[trigger] rest[i]).0 != other by {
                assert(rest[i] == targets[i]);
            }
            assert(targets[targets.len() - 1] == t);
        }
    }
}

/// The targets are those of the clients that are not suppressed, each at most once.
pub proof fn lemma_targets(
    h: HubView,
    clients: Seq<Seq<char>>,
    topic: Seq<char>,
    publisher: Option<Seq<char>>,
    retain: bool,
    c: Seq<char>,
)
    requires
        clients.no_duplicates(),
    ensures
        ({
            let ts = h.targets_among(clients, topic, publisher, retain);
            &&& forall|i: int| 0 <= i < ts.len() ==> clients.contains((#[trigger] ts[i]).0)
            &&& forall|i: int, j: int|
                0 <= i < j < ts.len() ==> (#[trigger] ts[i]).0 != (#[trigger] ts[j]).0
            &&& clients.contains(c) && !h.suppressed(c, topic, publisher) ==> ts.contains(
                (c, h.granted(c, topic), retain && h.keeps_retain(c, topic)),
            )
        }),
    decreases clients.len(),
{
    if clients.len() > 0 {
        let rest = clients.drop_last();
        let x = clients.last();
        lemma_targets(h, rest, topic, publisher, retain, c);
        let ts = h.targets_among(clients, topic, publisher, retain);
        let rs = h.targets_among(rest, topic, publisher, retain);
        assert(clients[clients.len() - 1] == x);
        assert(!rest.contains(x)) by {
            if rest.contains(x) {
                let k = choose|k: int| 0 <= k < rest.len() && rest[k] == x;
                assert(clients[k] == clients[clients.len() - 1]);
            }
        }
        assert forall|i: int| 0 <= i < ts.len() implies clients.contains((#[trigger] ts[i]).0) by {
            if i < rs.len() {
                assert(rest.contains(rs[i].0));
                let k = choose|k: int| 0 <= k < rest.len() && rest[k] == rs[i].0;
                assert(clients[k] == ts[i].0);
            }
        }
        assert forall|i: int, j: int| 0 <= i < j < ts.len() implies (#[trigger] ts[i]).0 != (
        #[trigger] ts[j]).0 by {
            assert(ts[i] == rs[i]);
            assert(rest.contains(rs[i].0));
            if j < rs.len() {
                assert(ts[j] == rs[j]);
            }
        }
        if clients.contains(c) && !h.suppressed(c, topic, publisher) {
            let goal = (c, h.granted(c, topic), retain && h.keeps_retain(c, topic));
            if c == x {
                assert(ts[ts.len() - 1] == goal);
            } else {
                let k = choose|k: int| 0 <= k < clients.len() && clients[k] == c;
                assert(rest[k] == c);
                let i = choose|i: int| 0 <= i < rs.len() && rs[i] == goal;
                assert(ts[i] == goal);
            }
        }
    }
}

/// Where in a fan-out a target is reached, it is as it was before the fan-out.
pub proof fn lemma_reached(
    h: HubView,
    p: PublicationView,
    targets: Targets,
    gate: GateView,
    i: int,
) -> (at: HubView)
    requires
        0 <= i < targets.len(),
        forall|a: int, b: int|
            0 <= a < b < targets.len() ==> (#[trigger] targets[a]).0 != (#[trigger] targets[b]).0,
    ensures
        same_for(h, at, targets[i].0),
        alike(at, h),
        follows(
            at.delivering(targets[i].0, p, weaker(p.qos, targets[i].1), targets[i].2, gate).0,
            h.delivering_all(p, targets, gate).0,
        ),
        same_for(
            at.delivering(targets[i].0, p, weaker(p.qos, targets[i].1), targets[i].2, gate).0,
            h.delivering_all(p, targets, gate).0,
            targets[i].0,
        ),
    decreases targets.len(),
{
    let rest = targets.drop_last();
    let h1 = h.delivering_all(p, rest, gate).0;
    let t = targets.last();
    crate::guarantees::lemma_delivering_all(h, p, rest, gate);
    if i == targets.len() - 1 {
        assert forall|k: int| 0 <= k < rest.len() implies (#[trigger] rest[k]).0 != t.0 by {
            assert(rest[k] == targets[k]);
            assert(targets[i] == t);
        }
        lemma_delivering_all_reach(h, p, rest, gate, t.0);
        let done = h.delivering_all(p, targets, gate).0;
        lemma_follows_same(done, done);
        h1
    } else {
        assert forall|a: int, b: int| 0 <= a < b < rest.len() implies (#[trigger] rest[a]).0 != (
        #[trigger] rest[b]).0 by {
            assert(rest[a] == targets[a] && rest[b] == targets[b]);
        }
        assert(rest[i] == targets[i]);
        let at = lemma_reached(h, p, rest, gate, i);
        assert(targets[i].0 != targets[targets.len() - 1].0);
        lemma_delivering_reach(h1, t.0, p, weaker(p.qos, t.1), t.2, gate, targets[i].0);
        lemma_follows(
            at.delivering(rest[i].0, p, weaker(p.qos, rest[i].1), rest[i].2, gate).0,
            h1,
            h.delivering_all(p, targets, gate).0,
        );
        at
    }
}

/// What a publish is to client `c`, which subscribes to its topic: the message, as it waits for
/// its turn.
pub open spec fn turn_of(h: HubView, p: PublicationView, c: Seq<char>) -> BacklogView {
    let retain = p.retain && h.keeps_retain(c, p.topic);
    BacklogView {
        message: p.message(weaker(p.qos, h.granted(c, p.topic)), retain, h.now),
        retain,
        message_expiry: p.message_expiry,
        offset: None,
    }
}

/// The packet id under which `e` is sent to client `c` next.
pub open spec fn id_of_next(h: HubView, c: Seq<char>, e: BacklogView) -> Option<u16> {
    if e.message.qos == QoS::AtMostOnce {
        None
    } else {
        h.inf(c).allocated().1
    }
}

/// Whether client `c` subscribes to the topic of `p`, is connected, and has nothing recorded for
/// it, now or on account of `p`.
pub open spec fn within_earshot(
    h: HubView,
    p: PublicationView,
    publisher: Option<Seq<char>>,
    c: Seq<char>,
) -> bool {
    &&& matching(h.routing.table, p.topic).contains(c)
    &&& !h.suppressed(c, p.topic, publisher)
    &&& h.is_online(c)
    &&& !h.owes_durable(c, turn_of(h, p, c).message.qos)
    &&& !h.lane_busy(c)
}

/// Where in its fan-out a publish reaches client `c`.
pub proof fn lemma_turn(
    h: HubView,
    p: PublicationView,
    publisher: Option<Seq<char>>,
    gate: GateView,
    c: Seq<char>,
) -> (at: HubView)
    requires
        within_earshot(h, p, publisher, c),
        !(h.applying(p, publisher, gate).1 is Refused),
    ensures
        same_for(h, at, c),
        at.limits == h.limits,
        at.now == h.now,
        follows(at.to_client(c, turn_of(h, p, c)), h.applying(p, publisher, gate).0),
        same_for(at.to_client(c, turn_of(h, p, c)), h.applying(p, publisher, gate).0, c),
{
    let clients = matching(h.routing.table, p.topic);
    crate::subscriptions::law_matching(h.routing.table, p.topic, c);
    lemma_targets(h, clients, p.topic, publisher, p.retain, c);
    let ts = h.targets(p.topic, publisher, p.retain);
    let retain = p.retain && h.keeps_retain(c, p.topic);
    let goal = (c, h.granted(c, p.topic), retain);
    let i = choose|i: int| 0 <= i < ts.len() && ts[i] == goal;
    let kept = h.keeping(p, gate);
    let at = lemma_reached(kept, p, ts, gate, i);
    crate::guarantees::law_refused_apply_changes_nothing(h, p, publisher, gate);
    let qos = weaker(p.qos, h.granted(c, p.topic));
    let m = p.message(qos, retain, h.now);
    assert(at.is_online(c));
    assert(at.persistent(c) == h.persistent(c));
    assert(!at.owes_durable(c, qos));
    assert(!at.lane_busy(c));
    assert(at.delivering(c, p, qos, retain, gate).0 == at.to_client(c, turn_of(h, p, c)));
    at
}

/// The part of [`law_subscribers_hear`] that this node's own fan-out plays.
pub proof fn lemma_subscribers_hear(
    h: HubView,
    p: PublicationView,
    publisher: Option<Seq<char>>,
    gate: GateView,
    c: Seq<char>,
    o: OnlineView,
)
    requires
        within_earshot(h, p, publisher, c),
        lookup(h.sessions.online, c) == Some(o),
        goes_out(h, c, turn_of(h, p, c)),
        !(h.applying(p, publisher, gate).1 is Refused),
    ensures
        h.applying(p, publisher, gate).0.effects.contains(
            packet_of(o, turn_of(h, p, c), id_of_next(h, c, turn_of(h, p, c))),
        ),
{
    let at = lemma_turn(h, p, publisher, gate, c);
    let turn = turn_of(h, p, c);
    let e = packet_of(o, turn, id_of_next(h, c, turn));
    let sent = at.to_client(c, turn);
    assert(at.inf(c) == h.inf(c));
    assert(sent.effects == at.effects.push(e));
    assert(sent.effects[at.effects.len() as int] == e);
    lemma_follows_contains(sent, h.applying(p, publisher, gate).0, e);
}

/// Whether `e` goes out to client `c` at once: the connection is not so far behind that it is
/// shed, or, with a guarantee, the client may hold one more and a packet id is at hand.
pub open spec fn goes_out(h: HubView, c: Seq<char>, e: BacklogView) -> bool {
    if e.message.qos == QoS::AtMostOnce {
        !h.sheds(c, e.message)
    } else {
        !h.inf(c).must_wait() && h.inf(c).allocated().1 is Some
    }
}

/// The packet that carries `e` to a client under `pkid`.
pub open spec fn packet_of(o: OnlineView, e: BacklogView, pkid: Option<u16>) -> EffectView {
    EffectView::Packet {
        conn: o.conn_id,
        packet: publish_of(e.message, pkid, false, e.retain, e.message_expiry),
    }
}

/// The part of [`law_sessions_are_recorded`] that this node's own fan-out plays.
#[verifier::spinoff_prover]
#[verifier::rlimit(60)]
pub proof fn lemma_sessions_are_recorded(
    h: HubView,
    p: PublicationView,
    publisher: Option<Seq<char>>,
    gate: GateView,
    c: Seq<char>,
)
    requires
        matching(h.routing.table, p.topic).contains(c),
        !h.suppressed(c, p.topic, publisher),
        h.persistent(c),
        !h.is_online(c) || weaker(p.qos, h.granted(c, p.topic)) != QoS::AtMostOnce,
        !h.brownout,
        h.lane(c).takes_delivery(),
    ensures
        ({
            let retain = p.retain && h.keeps_retain(c, p.topic);
            let m = p.message(weaker(p.qos, h.granted(c, p.topic)), retain, h.now);
            h.applying(p, publisher, gate).0.effects.contains(
                EffectView::Lane {
                    client: c,
                    job: LaneJobView::Deliver(
                        h.append_job(c, m, p.message_expiry, gate, h.conn_of(c)),
                    ),
                },
            )
        }),
{
    let clients = matching(h.routing.table, p.topic);
    crate::subscriptions::law_matching(h.routing.table, p.topic, c);
    lemma_targets(h, clients, p.topic, publisher, p.retain, c);
    let ts = h.targets(p.topic, publisher, p.retain);
    let retain = p.retain && h.keeps_retain(c, p.topic);
    let goal = (c, h.granted(c, p.topic), retain);
    let i = choose|i: int| 0 <= i < ts.len() && ts[i] == goal;
    let kept = h.keeping(p, gate);
    let at = lemma_reached(kept, p, ts, gate, i);
    let qos = weaker(p.qos, h.granted(c, p.topic));
    let m = p.message(qos, retain, h.now);
    let job = h.append_job(c, m, p.message_expiry, gate, h.conn_of(c));
    assert(at.is_online(c) == h.is_online(c));
    assert(at.conn_of(c) == h.conn_of(c));
    assert(at.append_job(c, m, p.message_expiry, gate, at.conn_of(c)) == job);
    assert(at.lane(c) == h.lane(c));
    let recorded = at.delivering(c, p, qos, retain, gate).0;
    assert(recorded == at.submitting(job).0);
    lemma_submitting_reach(at, job, c);
    let e = EffectView::Lane { client: c, job: LaneJobView::Deliver(job) };
    lemma_follows_contains(recorded, kept.delivering_all(p, ts, gate).0, e);
}

pub proof fn lemma_retained_for(
    cache: Seq<(Seq<char>, MessageView)>,
    filter: Seq<char>,
    m: MessageView,
    i: int,
)
    requires
        0 <= i < cache.len(),
        cache[i] == (m.topic, m),
        matches_topic(filter, m.topic),
    ensures
        retained_for(cache, filter).contains(m),
    decreases cache.len(),
{
    let t = cache.drop_last();
    let all = retained_for(cache, filter);
    let rest = retained_for(t, filter);
    if i == cache.len() - 1 {
        assert(all[all.len() - 1] == m);
    } else {
        assert(t[i] == cache[i]);
        lemma_retained_for(t, filter, m, i);
        let j = choose|j: int| 0 <= j < rest.len() && rest[j] == m;
        assert(all[j] == m);
    }
}

/// A message that the store took is found for every filter that admits its topic; one without a
/// payload leaves the topic empty.
pub proof fn law_stored_reads_back(h: HubView, w: WriteView, filter: Seq<char>)
    ensures
        reads_back(h.retained_answered(w, true).retained.cache, w.message, filter),
{
    lemma_stored_reads_back(h.retained, w.message, filter);
}

/// Whether `m` is found in `cache`, by its topic and for `filter` if that admits it, or whether
/// its topic is empty if `m` is.
pub open spec fn reads_back(
    cache: Seq<(Seq<char>, MessageView)>,
    m: MessageView,
    filter: Seq<char>,
) -> bool {
    if m.payload.len() == 0 {
        !bound(cache, m.topic)
    } else {
        lookup(cache, m.topic) == Some(m) && (matches_topic(filter, m.topic) ==> retained_for(
            cache,
            filter,
        ).contains(m))
    }
}

pub proof fn lemma_stored_reads_back(s: RetainedStateView, m: MessageView, filter: Seq<char>)
    ensures
        reads_back(s.stored(m).cache, m, filter),
{
    let cache = s.stored(m).cache;
    if m.payload.len() == 0 {
        crate::assoc::lemma_lookup_cut(s.cache, m.topic, m.topic);
    } else {
        crate::assoc::lemma_lookup_put(s.cache, m.topic, m, m.topic);
        crate::assoc::lemma_position(cache, m.topic);
        if matches_topic(filter, m.topic) {
            lemma_retained_for(cache, filter, m, crate::assoc::position(cache, m.topic));
        }
    }
}

/// The part of [`law_retained_reads_back`] that this node's own fan-out plays.
pub proof fn lemma_retained_reads_back(
    h: HubView,
    p: PublicationView,
    publisher: Option<Seq<char>>,
    gate: GateView,
    filter: Seq<char>,
)
    requires
        p.retain,
        !h.retained.durable,
        !(h.applying(p, publisher, gate).1 is Refused),
    ensures
        ({
            let after = h.applying(p, publisher, gate).0;
            let m = p.message(p.qos, true, h.now);
            if h.retained.backed {
                after.effects.contains(
                    EffectView::StoreRetained {
                        write: WriteView { message: m, owed: gate.owed() },
                    },
                )
            } else {
                reads_back(after.retained.cache, m, filter)
            }
        }),
{
    let ts = h.targets(p.topic, publisher, p.retain);
    let kept = h.keeping(p, gate);
    lemma_delivering_all_reach(kept, p, ts, gate, p.topic);
    crate::guarantees::law_refused_apply_changes_nothing(h, p, publisher, gate);
    let after = h.applying(p, publisher, gate).0;
    let refused = gate.answered() && h.some_owe(ts, p.qos) && h.brownout;
    assert(!refused);
    assert(after.retained == kept.retained);
    let m = p.message(p.qos, true, h.now);
    if h.retained.backed {
        let e = EffectView::StoreRetained {
            write: WriteView { message: m, owed: gate.owed() },
        };
        assert(kept.effects == h.effects.push(e));
        assert(kept.effects[h.effects.len() as int] == e);
        lemma_follows_contains(kept, after, e);
    } else {
        lemma_stored_reads_back(h.retained, m, filter);
    }
}

/// Whether `b` has everything to be done that `a` has, and possibly more.
pub open spec fn grows(a: HubView, b: HubView) -> bool {
    a.effects.len() <= b.effects.len() && b.effects.take(a.effects.len() as int) == a.effects
}

pub proof fn lemma_grows(a: HubView, b: HubView, c: HubView)
    requires
        grows(a, b),
        grows(b, c),
    ensures
        grows(a, c),
{
    assert(c.effects.take(a.effects.len() as int) =~= b.effects.take(a.effects.len() as int));
}

pub proof fn lemma_grows_by(a: HubView, b: HubView, es: Seq<EffectView>)
    requires
        b.effects == a.effects + es,
    ensures
        grows(a, b),
{
    assert(b.effects.take(a.effects.len() as int) =~= a.effects);
}

pub proof fn lemma_grows_contains(a: HubView, b: HubView, e: EffectView)
    requires
        grows(a, b),
        a.effects.contains(e),
    ensures
        b.effects.contains(e),
{
    let i = choose|i: int| 0 <= i < a.effects.len() && a.effects[i] == e;
    assert(b.effects.take(a.effects.len() as int)[i] == e);
    assert(b.effects[i] == e);
}

pub proof fn lemma_sharing_all_grows(h: HubView, p: PublicationView, gate: Option<u64>, m: Matches)
    ensures
        grows(h, h.sharing_all(p, gate, m).0),
        h.sharing_all(p, gate, m).0.retained == h.retained,
    decreases m.len(),
{
    if m.len() == 0 {
        lemma_grows_by(h, h, Seq::empty());
    } else {
        lemma_sharing_all_grows(h, p, gate, m.drop_last());
        let h1 = h.sharing_all(p, gate, m.drop_last()).0;
        let (key, candidates) = m.last();
        let turned = h1.turning(key, candidates.len());
        let h2 = h1.sharing(p, gate, key, candidates).0;
        match h1.pick(key, candidates) {
            None => {
                lemma_grows_by(h1, h2, Seq::empty());
            },
            Some(c) => {
                match c.node {
                    None => {
                        lemma_delivering_reach(
                            turned,
                            c.client,
                            p,
                            weaker(p.qos, c.qos),
                            false,
                            gate_of(gate),
                            c.client,
                        );
                    },
                    Some(node) => {
                        let qos = weaker(p.qos, c.qos);
                        let placed = turned.placing(
                            p,
                            gate,
                            key,
                            node,
                            c.client,
                            qos,
                            seq![(Some(node), c.client)],
                        );
                        assert(placed.effects.take(h1.effects.len() as int) =~= h1.effects);
                    },
                }
            },
        }
        lemma_grows(h, h1, h2);
    }
}

pub proof fn lemma_forwarding_each_grows(h: HubView, id: u64, nodes: Seq<Seq<char>>)
    ensures
        grows(h, h.forwarding_each(id, nodes)),
        h.forwarding_each(id, nodes).retained == h.retained,
        h.forwarding_each(id, nodes).cluster == h.cluster,
    decreases nodes.len(),
{
    if nodes.len() == 0 {
        lemma_grows_by(h, h, Seq::empty());
    } else {
        lemma_forwarding_each_grows(h, id, nodes.drop_last());
        let h1 = h.forwarding_each(id, nodes.drop_last());
        let h2 = h.forwarding_each(id, nodes);
        assert(h2.effects.take(h1.effects.len() as int) =~= h1.effects);
        lemma_grows(h, h1, h2);
    }
}

pub proof fn lemma_fanning_out_grows(h: HubView, p: PublicationView, gate: Option<u64>)
    ensures
        grows(h, h.fanning_out(p, gate)),
        h.fanning_out(p, gate).retained == h.retained,
{
    let wanting = h.cluster.interest.wanting(p.topic);
    let gated = gate is Some && level(p.qos) >= 1;
    let h1 = if gated {
        h.forwarding_each(gate->Some_0, wanting)
    } else {
        h
    };
    if gated {
        lemma_forwarding_each_grows(h, gate->Some_0, wanting);
    } else {
        lemma_grows_by(h, h1, Seq::empty());
    }
    let h2 = h.fanning_out(p, gate);
    assert(h2.effects.take(h1.effects.len() as int) =~= h1.effects);
    lemma_grows(h, h1, h2);
}

pub proof fn lemma_committing_grows(h: HubView, p: PublicationView, gate: Option<u64>)
    ensures
        grows(h, h.committing(p, gate)),
        !h.retained.durable ==> h.committing(p, gate) == h,
{
    let after = h.committing(p, gate);
    assert(after.effects.take(h.effects.len() as int) =~= h.effects);
}

/// A publish that is not refused does what this node's own fan-out does, and then more.
pub proof fn lemma_publishing_grows(
    h: HubView,
    p: PublicationView,
    publisher: Option<Seq<char>>,
    gate: Option<u64>,
)
    requires
        !(h.publishing(p, publisher, gate).1 is Refused),
    ensures
        !(h.applying(p, publisher, gate_of(gate)).1 is Refused),
        grows(h.applying(p, publisher, gate_of(gate)).0, h.publishing(p, publisher, gate).0),
        !h.retained.durable ==> h.publishing(p, publisher, gate).0.retained == h.applying(
            p,
            publisher,
            gate_of(gate),
        ).0.retained,
{
    let h1 = h.applying(p, publisher, gate_of(gate)).0;
    let ts = h.targets(p.topic, publisher, p.retain);
    lemma_delivering_all_reach(h.keeping(p, gate_of(gate)), p, ts, gate_of(gate), p.topic);
    lemma_sharing_all_grows(h1, p, gate, h1.shared_matches(p.topic));
    let h2 = h1.sharing_all(p, gate, h1.shared_matches(p.topic)).0;
    lemma_fanning_out_grows(h2, p, gate);
    let h3 = h2.fanning_out(p, gate);
    lemma_grows(h1, h2, h3);
    lemma_committing_grows(h3, p, gate);
    lemma_grows(h1, h3, h3.committing(p, gate));
    let h4 = if p.retain {
        h3.committing(p, gate)
    } else {
        h3
    };
    let h5 = h.publishing(p, publisher, gate).0;
    assert(h5.effects == h4.effects);
    assert(h5.effects.take(h1.effects.len() as int) =~= h1.effects);
}

/// Everybody hears: a publish that is not refused is sent, at once, to every connected client
/// that subscribes to its topic, where it does not have to be recorded first and nothing is being
/// recorded for the client, if it can go out: without a guarantee, where the connection is not so
/// far behind that it is shed; with one, under a fresh packet id, where the client may hold one
/// more.
pub proof fn law_subscribers_hear(
    h: HubView,
    p: PublicationView,
    publisher: Option<Seq<char>>,
    gate: Option<u64>,
    c: Seq<char>,
    o: OnlineView,
)
    requires
        within_earshot(h, p, publisher, c),
        lookup(h.sessions.online, c) == Some(o),
        goes_out(h, c, turn_of(h, p, c)),
        !(h.publishing(p, publisher, gate).1 is Refused),
    ensures
        h.publishing(p, publisher, gate).0.effects.contains(
            packet_of(o, turn_of(h, p, c), id_of_next(h, c, turn_of(h, p, c))),
        ),
{
    lemma_publishing_grows(h, p, publisher, gate);
    lemma_subscribers_hear(h, p, publisher, gate_of(gate), c, o);
    lemma_grows_contains(
        h.applying(p, publisher, gate_of(gate)).0,
        h.publishing(p, publisher, gate).0,
        packet_of(o, turn_of(h, p, c), id_of_next(h, c, turn_of(h, p, c))),
    );
}

/// What cannot go out waits: a publish with a guarantee, for a client that may hold no more or has
/// others waiting, stands behind those that wait, of which only the first leave; one for which no
/// packet id is at hand stands before them.
pub proof fn law_subscribers_wait(
    h: HubView,
    p: PublicationView,
    publisher: Option<Seq<char>>,
    gate: GateView,
    c: Seq<char>,
)
    requires
        within_earshot(h, p, publisher, c),
        turn_of(h, p, c).message.qos != QoS::AtMostOnce,
        !goes_out(h, c, turn_of(h, p, c)),
        !(h.applying(p, publisher, gate).1 is Refused),
    ensures
        ({
            let e = turn_of(h, p, c);
            let line = h.applying(p, publisher, gate).0.inf(c).backlog;
            if h.inf(c).must_wait() {
                exists|k: int|
                    #![trigger make_place(h.inf(c).backlog, e, h.limits).push(e).skip(k)]
                    0 <= k <= make_place(h.inf(c).backlog, e, h.limits).len() + 1 && line
                        == make_place(h.inf(c).backlog, e, h.limits).push(e).skip(k)
            } else {
                line == seq![e] + h.inf(c).backlog
            }
        }),
{
    broadcast use crate::assoc::lemma_lookup_put;

    let at = lemma_turn(h, p, publisher, gate, c);
    let e = turn_of(h, p, c);
    assert(at.inf(c) == h.inf(c));
    assert(h.applying(p, publisher, gate).0.inf(c) == at.to_client(c, e).inf(c));
    if h.inf(c).must_wait() {
        law_waiting_in_line(at, c, e);
    } else {
        crate::inflight::lemma_allocated_keeps_line(h.inf(c));
        assert(at.to_client(c, e).inf(c).backlog == seq![e] + h.inf(c).backlog);
    }
}

/// Nobody is forgotten: a publish is handed to the store for every client that subscribes to its
/// topic, has a session that outlives its connection, and either is not connected or is to get it
/// with a guarantee. This fails only where no growth is taken, or the lane of the session is
/// full.
pub proof fn law_sessions_are_recorded(
    h: HubView,
    p: PublicationView,
    publisher: Option<Seq<char>>,
    gate: Option<u64>,
    c: Seq<char>,
)
    requires
        matching(h.routing.table, p.topic).contains(c),
        !h.suppressed(c, p.topic, publisher),
        h.persistent(c),
        !h.is_online(c) || weaker(p.qos, h.granted(c, p.topic)) != QoS::AtMostOnce,
        !h.brownout,
        h.lane(c).takes_delivery(),
    ensures
        ({
            let retain = p.retain && h.keeps_retain(c, p.topic);
            let m = p.message(weaker(p.qos, h.granted(c, p.topic)), retain, h.now);
            h.publishing(p, publisher, gate).0.effects.contains(
                EffectView::Lane {
                    client: c,
                    job: LaneJobView::Deliver(
                        h.append_job(c, m, p.message_expiry, gate_of(gate), h.conn_of(c)),
                    ),
                },
            )
        }),
{
    crate::guarantees::law_refused_publish_leaves_no_trace(h, p, publisher, gate);
    crate::guarantees::lemma_refused_only_in_brownout(h, p, publisher, gate);
    lemma_publishing_grows(h, p, publisher, gate);
    lemma_sessions_are_recorded(h, p, publisher, gate_of(gate), c);
    let retain = p.retain && h.keeps_retain(c, p.topic);
    let m = p.message(weaker(p.qos, h.granted(c, p.topic)), retain, h.now);
    lemma_grows_contains(
        h.applying(p, publisher, gate_of(gate)).0,
        h.publishing(p, publisher, gate).0,
        EffectView::Lane {
            client: c,
            job: LaneJobView::Deliver(
                h.append_job(c, m, p.message_expiry, gate_of(gate), h.conn_of(c)),
            ),
        },
    );
}

/// What is retained is read back: on a broker that keeps what it hears, the message of a retained
/// publish that is not refused is found for every filter that admits its topic, until another
/// takes its place; one without a payload leaves the topic empty. Where a store is behind the
/// messages, the store is asked to take the message, and it is found once the store took it.
pub proof fn law_retained_reads_back(
    h: HubView,
    p: PublicationView,
    publisher: Option<Seq<char>>,
    gate: Option<u64>,
    filter: Seq<char>,
)
    requires
        p.retain,
        !h.retained.durable,
        !(h.publishing(p, publisher, gate).1 is Refused),
    ensures
        ({
            let after = h.publishing(p, publisher, gate).0;
            let m = p.message(p.qos, true, h.now);
            let write = WriteView { message: m, owed: gate_of(gate).owed() };
            if h.retained.backed {
                &&& after.effects.contains(EffectView::StoreRetained { write })
                &&& reads_back(after.retained_answered(write, true).retained.cache, m, filter)
            } else {
                reads_back(after.retained.cache, m, filter)
            }
        }),
{
    lemma_publishing_grows(h, p, publisher, gate);
    lemma_retained_reads_back(h, p, publisher, gate_of(gate), filter);
    let m = p.message(p.qos, true, h.now);
    let write = WriteView { message: m, owed: gate_of(gate).owed() };
    if h.retained.backed {
        lemma_grows_contains(
            h.applying(p, publisher, gate_of(gate)).0,
            h.publishing(p, publisher, gate).0,
            EffectView::StoreRetained { write },
        );
        law_stored_reads_back(h.publishing(p, publisher, gate).0, write, filter);
    }
}

pub proof fn lemma_fan_frames(
    peers: Seq<(Seq<char>, PeerView)>,
    wanting: Seq<Seq<char>>,
    to_all: bool,
    frame: FrameView,
    i: int,
)
    requires
        0 <= i < peers.len(),
        to_all || wanting.contains(peers[i].0),
    ensures
        fan_frames(peers, wanting, false, to_all, frame).contains(
            EffectView::Frame { node: peers[i].0, frame },
        ),
    decreases peers.len(),
{
    let t = peers.drop_last();
    let rest = fan_frames(t, wanting, false, to_all, frame);
    let all = fan_frames(peers, wanting, false, to_all, frame);
    let goal = EffectView::Frame { node: peers[i].0, frame };
    if i == peers.len() - 1 {
        assert(all[all.len() - 1] == goal);
    } else {
        assert(t[i] == peers[i]);
        lemma_fan_frames(t, wanting, to_all, frame, i);
        let j = choose|j: int| 0 <= j < rest.len() && rest[j] == goal;
        assert(all[j] == goal);
    }
}

pub proof fn lemma_forwarding_each(
    h: HubView,
    id: u64,
    nodes: Seq<Seq<char>>,
    node: Seq<char>,
    p: PublicationView,
) -> (seq: u64)
    requires
        nodes.contains(node),
        h.cluster.linked(node),
        lookup(h.ledger.entries, id) matches Some(e) && e.publication == p,
    ensures
        h.forwarding_each(id, nodes).effects.contains(
            EffectView::Frame {
                node,
                frame: FrameView::PublishAcked { seq, publication: on_wire(p, p.qos, p.retain) },
            },
        ),
    decreases nodes.len(),
{
    let t = nodes.drop_last();
    lemma_forwarding_each_grows(h, id, t);
    lemma_forwarding_each_keeps(h, id, t, p);
    let h1 = h.forwarding_each(id, t);
    let h2 = h.forwarding_each(id, nodes);
    let last = ObligationView { node: nodes.last(), kind: KindView::Ordinary };
    let fresh = crate::ids::number_above(h1.ledger.forward_seq);
    if nodes.last() == node {
        let e = EffectView::Frame {
            node,
            frame: FrameView::PublishAcked {
                seq: fresh,
                publication: on_wire(p, p.qos, p.retain),
            },
        };
        assert(h2.effects == h1.effects + seq![e]);
        assert(h2.effects[h1.effects.len() as int] == e);
        fresh
    } else {
        let k = choose|k: int| 0 <= k < nodes.len() && nodes[k] == node;
        assert(t[k] == node);
        let s = lemma_forwarding_each(h, id, t, node, p);
        assert(h2.effects.take(h1.effects.len() as int) =~= h1.effects);
        lemma_grows_contains(
            h1,
            h2,
            EffectView::Frame {
                node,
                frame: FrameView::PublishAcked { seq: s, publication: on_wire(p, p.qos, p.retain) },
            },
        );
        s
    }
}

pub proof fn lemma_forwarding_each_keeps(
    h: HubView,
    id: u64,
    nodes: Seq<Seq<char>>,
    p: PublicationView,
)
    requires
        lookup(h.ledger.entries, id) matches Some(e) && e.publication == p,
    ensures
        lookup(h.forwarding_each(id, nodes).ledger.entries, id) matches Some(e) && e.publication
            == p,
    decreases nodes.len(),
{
    if nodes.len() > 0 {
        let t = nodes.drop_last();
        lemma_forwarding_each_keeps(h, id, t, p);
        let l = h.forwarding_each(id, t).ledger;
        let e = lookup(l.entries, id)->Some_0;
        let o = ObligationView { node: nodes.last(), kind: KindView::Ordinary };
        crate::assoc::lemma_lookup_put(
            l.entries,
            id,
            crate::ledger::PendingView {
                awaiting: put(e.awaiting, crate::ids::number_above(l.forward_seq), o),
                ..e
            },
            id,
        );
    }
}

/// Every node hears: the fan-out to other nodes sends a publish to every linked node that wants
/// its topic, to be answered where the publisher waits for a guarantee, else as it is.
pub proof fn law_nodes_hear(h: HubView, p: PublicationView, gate: Option<u64>, node: Seq<char>)
    requires
        h.cluster.linked(node),
        h.cluster.interest.wanting(p.topic).contains(node),
        gate matches Some(id) ==> (lookup(h.ledger.entries, id) matches Some(e) && e.publication
            == p),
    ensures
        ({
            let effects = h.fanning_out(p, gate).effects;
            let w = on_wire(p, p.qos, p.retain);
            if gate is Some && level(p.qos) >= 1 {
                exists|seq: u64|
                    effects.contains(
                        EffectView::Frame {
                            node,
                            frame: #[trigger] acked_frame(seq, w),
                        },
                    )
            } else {
                effects.contains(EffectView::Frame { node, frame: FrameView::Publish(w) })
            }
        }),
{
    let wanting = h.cluster.interest.wanting(p.topic);
    let gated = gate is Some && level(p.qos) >= 1;
    let to_all = p.retain && !h.retained.durable;
    let w = on_wire(p, p.qos, p.retain);
    let h2 = h.fanning_out(p, gate);
    if gated {
        let id = gate->Some_0;
        let h1 = h.forwarding_each(id, wanting);
        let seq = lemma_forwarding_each(h, id, wanting, node, p);
        assert(h2.effects.take(h1.effects.len() as int) =~= h1.effects);
        lemma_grows_contains(
            h1,
            h2,
            EffectView::Frame { node, frame: acked_frame(seq, w) },
        );
    } else {
        crate::assoc::lemma_position(h.cluster.peers, node);
        let i = crate::assoc::position(h.cluster.peers, node);
        let frame = FrameView::Publish(w);
        lemma_fan_frames(h.cluster.peers, wanting, to_all, frame, i);
        let frames = fan_frames(h.cluster.peers, wanting, false, to_all, frame);
        let e = EffectView::Frame { node, frame };
        let j = choose|j: int| 0 <= j < frames.len() && frames[j] == e;
        assert(wanting.len() > 0);
        assert(h2.effects[h.effects.len() + j] == e);
    }
}

/// The frame of a publish that is to be answered under `seq`.
pub open spec fn acked_frame(seq: u64, publication: WirePublicationView) -> FrameView {
    FrameView::PublishAcked { seq, publication }
}

/// Whoever subscribes is sent every retained message that its filter admits, no stronger than it
/// was granted, unless the filter is one of a shared group.
pub proof fn law_retained_is_replayed(
    cache: Seq<(Seq<char>, MessageView)>,
    held: Grants,
    wishes: Seq<WishView>,
    cap: Option<usize>,
    i: int,
    m: MessageView,
)
    requires
        0 <= i < wishes.len(),
        admits(held, wishes.take(i), wishes[i], cap),
        share_parts(wishes[i].filter) is None,
        retained_for(cache, wishes[i].filter).contains(m),
    ensures
        replay(cache, held, wishes, cap).contains(as_retained(m, wishes[i].qos)),
    decreases wishes.len(),
{
    let t = wishes.drop_last();
    let rest = replay(cache, held, t, cap);
    let all = replay(cache, held, wishes, cap);
    let goal = as_retained(m, wishes[i].qos);
    if i == wishes.len() - 1 {
        assert(wishes.take(i) =~= t);
        let found = retained_for(cache, wishes[i].filter);
        let k = choose|k: int| 0 <= k < found.len() && found[k] == m;
        assert(all[rest.len() + k] == goal);
    } else {
        assert(t[i] == wishes[i]);
        assert(t.take(i) =~= wishes.take(i));
        law_retained_is_replayed(cache, held, t, cap, i, m);
        let k = choose|k: int| 0 <= k < rest.len() && rest[k] == goal;
        assert(all[k] == goal);
    }
}

pub proof fn lemma_sending_qos_line(h: HubView, client: Seq<char>, e: BacklogView)
    ensures
        ({
            let (after, r) = h.sending_qos(client, e);
            &&& r != QosSend::Deferred ==> after.inf(client).backlog == h.inf(client).backlog
            &&& r == QosSend::Deferred ==> after.inf(client).backlog == seq![e] + h.inf(
                client,
            ).backlog
        }),
{
    broadcast use crate::assoc::lemma_lookup_put;

    crate::inflight::law_fresh_packet_id(h.inf(client));
    let after = h.sending_qos(client, e).0;
    if e.message.qos == QoS::AtMostOnce {
        lemma_sending_keeps_inf(
            h,
            client,
            publish_of(e.message, None, false, e.retain, e.message_expiry),
            room(e.message),
        );
    } else {
        let (inf, id) = h.inf(client).allocated();
        match id {
            None => {},
            Some(pkid) => {
                if e.message.qos == QoS::ExactlyOnce && e.offset is Some {
                    let offset = e.offset->Some_0;
                    let parked = inf.holding(
                        pkid,
                        PendingOutView {
                            message: e.message,
                            state: OutState::AwaitingIdRecord,
                            offset: Some(offset),
                        },
                    );
                    let staged = InflightView {
                        records_pending: held(inf.records_pending, 1),
                        ..parked
                    };
                    let h1 = h.with_inf(client, staged);
                    let job = h.record_job(client, e, pkid, offset);
                    assert(h1.submitting(job).0.sessions.inflight == h1.sessions.inflight);
                    assert(h1.inf(client) == staged);
                } else {
                    let holding = inf.holding(
                        pkid,
                        PendingOutView {
                            message: e.message,
                            state: first_state(e.message.qos),
                            offset: e.offset,
                        },
                    );
                    let h1 = h.with_inf(client, holding);
                    lemma_sending_keeps_inf(
                        h1,
                        client,
                        publish_of(e.message, Some(pkid), false, e.retain, e.message_expiry),
                        room(e.message),
                    );
                    assert(h1.inf(client) == holding);
                }
            },
        }
    }
}

pub proof fn lemma_sending_keeps_inf(h: HubView, client: Seq<char>, packet: PacketView, n: nat)
    ensures
        h.sending(client, packet, n).sessions.inflight == h.sessions.inflight,
{
}

pub proof fn lemma_draining_line(h: HubView, client: Seq<char>, n: nat) -> (k: int)
    ensures
        0 <= k <= h.inf(client).backlog.len(),
        h.draining(client, n).inf(client).backlog == h.inf(client).backlog.skip(k),
    decreases n,
{
    let b = h.inf(client).backlog;
    assert(b.skip(0) =~= b);
    if n > 0 && h.is_online(client) {
        match lookup(h.sessions.inflight, client) {
            Some(inf) => {
                if !(inf.is_full() || inf.records_pending > 0 || inf.backlog.len() == 0) {
                    let next = InflightView { backlog: inf.backlog.skip(1), ..inf };
                    let popped = h.with_inf(client, next);
                    crate::assoc::lemma_lookup_put(h.sessions.inflight, client, next, client);
                    lemma_sending_qos_line(popped, client, inf.backlog[0]);
                    let (sent, r) = popped.sending_qos(client, inf.backlog[0]);
                    if r == QosSend::Sent {
                        let k = lemma_draining_line(sent, client, (n - 1) as nat);
                        assert(b.skip(1).skip(k) =~= b.skip(k + 1));
                        k + 1
                    } else if r == QosSend::Deferred {
                        assert(seq![b[0]] + b.skip(1) =~= b);
                        0
                    } else {
                        1
                    }
                } else {
                    0
                }
            },
            None => 0,
        }
    } else {
        0
    }
}

pub proof fn lemma_released_all_line(inf: InflightView, gone: Seq<BacklogView>)
    ensures
        inf.released_all(gone).backlog == inf.backlog,
    decreases gone.len(),
{
    if gone.len() > 0 {
        lemma_released_all_line(inf, gone.drop_last());
    }
}

/// Nobody jumps the line: while messages with a guarantee wait for a client, one more of them
/// waits behind those, and messages leave the line from its front. Only the oldest make place
/// where the line is at a bound.
pub proof fn law_waiting_in_line(h: HubView, client: Seq<char>, e: BacklogView)
    requires
        e.message.qos != QoS::AtMostOnce,
        h.inf(client).must_wait(),
    ensures
        exists|k: int|
            #![trigger make_place(h.inf(client).backlog, e, h.limits).push(e).skip(k)]
            0 <= k <= make_place(h.inf(client).backlog, e, h.limits).len() + 1 && h.to_client(
                client,
                e,
            ).inf(client).backlog == make_place(h.inf(client).backlog, e, h.limits).push(e).skip(k),
{
    broadcast use crate::assoc::lemma_lookup_put;

    let h1 = if e.offset is Some {
        h.with_inf(client, h.inf(client).tracking(e.offset->Some_0))
    } else {
        h
    };
    let inf = h1.inf(client);
    assert(inf.backlog == h.inf(client).backlog);
    let line = make_place(inf.backlog, e, h1.limits).push(e);
    let gone = inf.evicted(e, h1.limits);
    lemma_released_all_line(inf.waiting(e, h1.limits), gone);
    let next = inf.waiting(e, h1.limits).released_all(gone);
    let h2 = h1.with_inf(client, next);
    assert(h2.inf(client).backlog == line);
    let h3 = h1.queueing(client, e);
    assert(h3.inf(client).backlog == line);
    let k = lemma_draining_line(h3, client, h3.inf(client).backlog.len());
    assert(line.skip(0) =~= line);
    let full = h3.inf(client).is_full();
    let n = if full {
        0
    } else {
        k
    };
    assert(h.to_client(client, e).inf(client).backlog == line.skip(n));
}

} // verus!
