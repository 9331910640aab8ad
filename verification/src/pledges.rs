//! What a publish may count on wherever it goes: that it is refused before anything is done where
//! it cannot be recorded, that it keeps its place behind what is being recorded, that its interval
//! runs on, and that the nodes it is forwarded by are told the truth.

use vstd::prelude::*;

use crate::assoc::{bound, lookup};
use crate::attaching::remaining;
use crate::dispatch::HubCommand;
use crate::effects::EffectView;
use crate::forwarding::{not_tried, untried, Tried};
use crate::hearing::{asked_for_silence, subscribes};
use crate::hub::HubView;
use crate::ids::NodeId;
use crate::inflight::InflightView;
use crate::lanes::{AppendJob, GateView, LaneJobView, LaneOutcome, ThenView, WorkView};
use crate::listening::listens;
use crate::message::{AppView, Publication, PublicationView};
use crate::outcome::{DurableOutcome, ForwardVerdict, PublishRefusal};
use crate::packet::{packet_properties, PropertyView};
use crate::qos::{weaker, QoS};
use crate::retained::RetainedStateView;
use crate::session::OnlineView;
use crate::shared::CandidateView;
use crate::sweeps::StoredView;
use crate::topic::share_parts;
use crate::wire::{FrameView, RetainedEntryView, PROTO_FORWARD_ANSWERS};

verus! {

/// While no growth is taken, a publish whose publisher waits and that would have to be recorded for
/// a subscriber is refused, and nothing is done of it.
pub proof fn law_brownout_refuses(
    h: HubView,
    p: PublicationView,
    publisher: Option<Seq<char>>,
    id: u64,
    client: Seq<char>,
)
    requires
        h.brownout,
        subscribes(h, client, p.topic),
        !(publisher == Some(client) && asked_for_silence(h, client, p.topic)),
        lookup(h.sessions.session_expiry, client) is Some,
        weaker(p.qos, h.granted(client, p.topic)) != QoS::AtMostOnce,
    ensures
        h.publishing(p, publisher, Some(id)) == (
            h,
            DurableOutcome::Refused(PublishRefusal::Brownout),
        ),
{
    let ts = h.targets(p.topic, publisher, p.retain);
    crate::hearing::law_fan_out(h, p.topic, publisher, p.retain, client, p.qos);
    let i = choose|i: int| 0 <= i < ts.len() && (#[trigger] ts[i]).0 == client;
    crate::hearing::lemma_targets_only(
        h,
        crate::subscriptions::matching(h.routing.table, p.topic),
        p.topic,
        publisher,
        p.retain,
        i,
    );
    assert(h.owes_durable(ts[i].0, weaker(p.qos, ts[i].1)));
    assert(h.some_owe(ts, p.qos));
}

/// Whoever is neither connected nor has a session is sent nothing, and nothing is recorded for it.
pub proof fn law_nobody_home(
    h: HubView,
    client: Seq<char>,
    p: PublicationView,
    qos: QoS,
    retain: bool,
    gate: GateView,
)
    requires
        lookup(h.sessions.online, client) is None,
        lookup(h.sessions.session_expiry, client) is None,
    ensures
        h.delivering(client, p, qos, retain, gate) == (h, DurableOutcome::Met),
{
}

/// A message does not overtake what is being recorded for its client: it goes through the lane of
/// the session, behind it, for the same connection, and nothing is sent before its turn.
pub proof fn law_lane_keeps_order(
    h: HubView,
    client: Seq<char>,
    p: PublicationView,
    qos: QoS,
    retain: bool,
    gate: GateView,
    o: OnlineView,
)
    requires
        lookup(h.sessions.online, client) == Some(o),
        !h.owes_durable(client, qos),
        lookup(h.sessions.lanes, client) matches Some(l) && l.outstanding > 0 && l.queued
            < crate::lanes::LANE_QUEUE_CAP,
    ensures
        ({
            let r = h.delivering(client, p, qos, retain, gate).0;
            &&& r.effects.len() == h.effects.len() + 1
            &&& r.effects.last() matches EffectView::Lane {
                client: c,
                job: LaneJobView::Deliver(job),
            } && c == client && job.client == client && job.work == WorkView::Passthrough
                && job.planned_conn == Some(o.conn_id) && job.retain == retain
                && job.message.topic == p.topic && job.message.payload == p.payload
                && job.message.qos == qos && job.message_expiry == p.message_expiry && job.owed
                == ThenView::Ungated
            &&& r.sessions.inflight == h.sessions.inflight
            &&& r.sessions.online == h.sessions.online
        }),
{
}

/// A message without a guarantee that comes out of the lane waits where others wait: behind them,
/// and it is not sent before its turn.
pub proof fn law_lane_does_not_overtake(h: HubView, job: AppendJob, inf: InflightView, o: OnlineView)
    requires
        job.deep_view().work == WorkView::Passthrough,
        job.deep_view().owed == ThenView::Ungated,
        job.deep_view().message.qos == QoS::AtMostOnce,
        lookup(h.sessions.online, job.deep_view().client) == Some(o),
        lookup(h.sessions.connecting, job.deep_view().client) is None,
        job.deep_view().planned_conn == Some(o.conn_id),
        lookup(h.sessions.inflight, job.deep_view().client) == Some(inf),
        inf.backlog.len() > 0 || inf.records_pending > 0 || inf.reserve_outstanding,
    ensures
        ({
            let j = job.deep_view();
            let r = h.after(HubCommand::AppendDone { job, outcome: LaneOutcome::Passed });
            &&& forall|k: int|
                h.effects.len() <= k < r.effects.len() ==> !(#[trigger] r.effects[k] is Packet)
            &&& r.inf(j.client).backlog.len() > 0
            &&& r.inf(j.client).backlog.last().message == j.message
            &&& r.inf(j.client).backlog.last().retain == j.retain
            &&& r.sessions.online == h.sessions.online
        }),
{
    broadcast use crate::assoc::lemma_lookup_put;

    reveal(HubView::after);
    let j = job.deep_view();
    let c = j.client;
    let h1 = h.job_finished(c);
    let e = j.entry(None);
    let gone = inf.evicted(e, h1.limits);
    crate::reach::lemma_released_all_line(inf.waiting(e, h1.limits), gone);
    let r = h.after(HubCommand::AppendDone { job, outcome: LaneOutcome::Passed });
    assert(r == h1.queueing(c, e));
    let h2 = h1.with_inf(c, inf.waiting(e, h1.limits).released_all(gone));
    assert(h2.inf(c).backlog.last() == e);
}

/// What is left of an interval is the time to its end.
pub proof fn law_interval_runs_on(now: u64, deadline: u64)
    requires
        now <= deadline,
    ensures
        deadline - now <= u32::MAX ==> now + remaining(now, deadline) == deadline,
        deadline - now > u32::MAX ==> remaining(now, deadline) == u32::MAX,
{
}

/// A packet says what is left of the life of its message, and whatever the application said of it,
/// and nothing else.
pub proof fn law_properties_travel(message_expiry: Option<u32>, app: AppView, x: PropertyView)
    ensures
        packet_properties(message_expiry, app).contains(x) <==> match x {
            PropertyView::MessageExpiryInterval(n) => message_expiry == Some(n),
            PropertyView::PayloadFormatIndicator(n) => app.payload_format == Some(n),
            PropertyView::ContentType(s) => app.content_type == Some(s),
            PropertyView::ResponseTopic(s) => app.response_topic == Some(s),
            PropertyView::CorrelationData(b) => app.correlation_data == Some(b),
            PropertyView::UserProperty(k, v) => app.user_properties.contains((k, v)),
        },
{
    let s0 = crate::packet::with_entry(
        Seq::empty(),
        match message_expiry {
            Some(n) => Some(PropertyView::MessageExpiryInterval(n)),
            None => None,
        },
    );
    let e1 = match app.payload_format {
        Some(n) => Some(PropertyView::PayloadFormatIndicator(n)),
        None => None,
    };
    let s1 = crate::packet::with_entry(s0, e1);
    let e2 = match app.content_type {
        Some(s) => Some(PropertyView::ContentType(s)),
        None => None,
    };
    let s2 = crate::packet::with_entry(s1, e2);
    let e3 = match app.response_topic {
        Some(s) => Some(PropertyView::ResponseTopic(s)),
        None => None,
    };
    let s3 = crate::packet::with_entry(s2, e3);
    let e4 = match app.correlation_data {
        Some(b) => Some(PropertyView::CorrelationData(b)),
        None => None,
    };
    let s4 = crate::packet::with_entry(s3, e4);
    let u = crate::packet::user_entries(app.user_properties);
    lemma_entry(
        Seq::empty(),
        match message_expiry {
            Some(n) => Some(PropertyView::MessageExpiryInterval(n)),
            None => None,
        },
        x,
    );
    lemma_entry(s0, e1, x);
    lemma_entry(s1, e2, x);
    lemma_entry(s2, e3, x);
    lemma_entry(s3, e4, x);
    let all = s4 + u;
    if s4.contains(x) {
        let i = choose|i: int| 0 <= i < s4.len() && s4[i] == x;
        assert(all[i] == x);
    }
    if u.contains(x) {
        let i = choose|i: int| 0 <= i < u.len() && u[i] == x;
        assert(all[s4.len() + i] == x);
        let pair = app.user_properties[i];
        assert(app.user_properties.contains(pair));
    }
    if all.contains(x) {
        let i = choose|i: int| 0 <= i < all.len() && all[i] == x;
        if i < s4.len() {
            assert(s4[i] == x);
        } else {
            assert(u[i - s4.len()] == x);
        }
    }
    match x {
        PropertyView::UserProperty(k, v) => {
            if app.user_properties.contains((k, v)) {
                let i = choose|i: int|
                    0 <= i < app.user_properties.len() && app.user_properties[i] == (k, v);
                assert(u[i] == x);
            }
        },
        _ => {},
    }
}

proof fn lemma_entry(s: Seq<PropertyView>, e: Option<PropertyView>, x: PropertyView)
    ensures
        crate::packet::with_entry(s, e).contains(x) <==> s.contains(x) || e == Some(x),
{
    let r = crate::packet::with_entry(s, e);
    if s.contains(x) {
        let i = choose|i: int| 0 <= i < s.len() && s[i] == x;
        assert(r[i] == x);
    }
    if e == Some(x) {
        assert(r[s.len() as int] == x);
    }
    if r.contains(x) {
        let i = choose|i: int| 0 <= i < r.len() && r[i] == x;
        if i < s.len() {
            assert(s[i] == x);
        }
    }
}

// What nodes are told.

/// A linked node is told the verdict on what it forwarded, under the number it gave; one that
/// speaks an older protocol is told whether it was stored.
pub proof fn law_nodes_are_answered(
    h: HubView,
    node: Seq<char>,
    seq: u64,
    verdict: ForwardVerdict,
    p: crate::cluster::PeerView,
)
    requires
        lookup(h.cluster.peers, node) == Some(p),
    ensures
        h.answering(node, seq, verdict).effects == h.effects.push(
            EffectView::Frame {
                node,
                frame: if p.proto >= PROTO_FORWARD_ANSWERS {
                    FrameView::PublishVerdict { seq, verdict }
                } else {
                    FrameView::PublishAck { seq, ok: verdict == ForwardVerdict::Stored }
                },
            },
        ),
{
    let e = h.answering(node, seq, verdict).effects.last();
    assert(h.effects + seq![e] =~= h.effects.push(e));
}

/// A publish that was forwarded here and that nobody here wants is not claimed to be stored while
/// somebody may still turn up who does; once the routing is settled it is, since nobody is missed.
pub proof fn law_unwanted_forward(
    h: HubView,
    node: NodeId,
    seq: u64,
    publication: Publication,
    peer: crate::cluster::PeerView,
)
    requires
        forall|c: Seq<char>| !#[trigger] subscribes(h, c, publication.deep_view().topic),
        !publication.deep_view().retain,
        lookup(h.sessions.remote_appends, (node.deep_view(), seq)) is None,
        lookup(h.cluster.peers, node.deep_view()) == Some(peer),
        peer.proto >= PROTO_FORWARD_ANSWERS,
    ensures
        h.after(HubCommand::RemotePublishAcked { node, seq, publication }).effects
            == h.effects.push(
            EffectView::Frame {
                node: node.deep_view(),
                frame: FrameView::PublishVerdict {
                    seq,
                    verdict: if h.cluster.unsettled() {
                        ForwardVerdict::Failed
                    } else {
                        ForwardVerdict::Stored
                    },
                },
            },
        ),
{
    reveal(HubView::after);
    reveal(HubView::after_cluster);
    let p = publication.deep_view();
    let n = node.deep_view();
    let ts = h.targets(p.topic, None, p.retain);
    assert(ts.len() == 0) by {
        if ts.len() > 0 {
            crate::hearing::law_fan_out(h, p.topic, None, p.retain, ts[0].0, p.qos);
            assert(ts[0].0 == ts[0].0);
            assert(!subscribes(h, ts[0].0, p.topic));
        }
    }
    assert(!h.some_owe(ts, p.qos));
    let g = GateView::Peer { node: n, seq };
    assert(h.applying(p, None, g) == (h, DurableOutcome::Met));
    let v = if h.cluster.unsettled() {
        ForwardVerdict::Failed
    } else {
        ForwardVerdict::Stored
    };
    law_nodes_are_answered(h, n, seq, v, peer);
}

/// A member that was tried is not tried again, and every other one still may be.
pub proof fn law_nobody_is_tried_twice(all: Seq<CandidateView>, tried: Tried, c: CandidateView)
    ensures
        untried(all, tried).contains(c) <==> all.contains(c) && !tried.contains((c.node, c.client)),
{
    let keep = not_tried(tried);
    let left = all.filter(keep);
    if left.contains(c) {
        let i = choose|i: int| 0 <= i < left.len() && left[i] == c;
        crate::ledger::lemma_filter_keeps(all, keep, i);
    }
    if all.contains(c) && keep(c) {
        let i = choose|i: int| 0 <= i < all.len() && all[i] == c;
        all.lemma_filter_contains(keep, i);
    }
}

// Changes that are handed over.

/// A change that another node hands over is committed once: one that was committed already is
/// acknowledged again under the token it got, one that waits already goes on waiting, and a new one
/// waits last.
pub proof fn law_handed_over_once(
    h: HubView,
    node: NodeId,
    topic: String,
    payload: crate::message::Payload,
    qos: u8,
    app: std::sync::Arc<crate::message::AppProperties>,
    seq: u64,
)
    requires
        h.retained.durable,
        h.retained.handoff is Some || h.retained.commit_inflight,
        h.retained.queue.len() < crate::retained::RETAINED_QUEUE_CAP,
        bound(h.cluster.peers, node.deep_view()),
    ensures
        ({
            let n = node.deep_view();
            let r = h.after(
                HubCommand::RemoteRetainedCommit { node, topic, payload, qos, app, seq },
            );
            let seen = lookup(h.retained.handoff_seen, n);
            let again = seen matches Some(s) && s.0 == seq;
            let waits = lookup(h.retained.handoff_pending, n) == Some(seq);
            &&& again ==> r.retained == h.retained && r.effects == h.effects.push(
                EffectView::Frame {
                    node: n,
                    frame: FrameView::RetainedCommitAck { seq, token: Some(seen->Some_0.1) },
                },
            )
            &&& !again && waits ==> r == h
            &&& !again && !waits ==> r.effects == h.effects && r.retained.queue.len()
                == h.retained.queue.len() + 1 && r.retained.queue.last().topic == topic@
                && r.retained.queue.last().payload == payload.deep_view()
                && r.retained.queue.last().qos == qos && r.retained.queue.last().reply == Some(
                (n, seq),
            ) && lookup(r.retained.handoff_pending, n) == Some(seq)
        }),
{
    broadcast use crate::assoc::lemma_lookup_put;

    reveal(HubView::after);
    reveal(HubView::after_cluster);
    let n = node.deep_view();
    let seen = lookup(h.retained.handoff_seen, n);
    assert(h.effects + Seq::<EffectView>::empty() =~= h.effects);
    let e = EffectView::Frame {
        node: n,
        frame: FrameView::RetainedCommitAck { seq, token: Some(seen->Some_0.1) },
    };
    assert(h.effects + seq![e] =~= h.effects.push(e));
}

/// What another node had of a topic is taken over where this node has nothing better: without
/// tokens, where it has no message and is told of one; with tokens, where it is told of a higher
/// one. Every other topic stays as it is.
pub proof fn law_snapshot_fills_gaps(
    s: RetainedStateView,
    e: RetainedEntryView,
    topic: Seq<char>,
)
    requires
        !s.backed,
    ensures
        ({
            let r = s.with_entry(s.cache, e);
            let better = match lookup(s.tokens, e.topic) {
                Some(held) => e.epoch > held.0 || (e.epoch == held.0 && e.offset > held.1),
                None => e.epoch > 0 || e.offset > 0 || lookup(s.cache, e.topic) is None,
            };
            let taken = if s.durable {
                better
            } else {
                lookup(s.cache, e.topic) is None && e.payload.len() > 0
            };
            &&& !taken ==> r == s
            &&& taken && s.durable ==> lookup(r.tokens, e.topic) == Some((e.epoch, e.offset))
            &&& topic != e.topic ==> lookup(r.cache, topic) == lookup(s.cache, topic)
            &&& taken && e.payload.len() == 0 ==> lookup(r.cache, e.topic) is None
            &&& taken && e.payload.len() > 0 ==> (lookup(r.cache, e.topic) matches Some(m)
                && m.topic == e.topic && m.payload == e.payload && m.app == e.props && m.retain)
        }),
{
    broadcast use crate::assoc::lemma_lookup_put, crate::assoc::lemma_lookup_cut;

    assert(bound(s.cache, e.topic) == lookup(s.cache, e.topic) is Some);
}

// Sessions that are taken over.

/// A stored session is taken over by the node that owns it, while its client is not connected and
/// does not attach: its deadline is watched from now on, and its subscriptions count, where none
/// were known. Any other stored session is left alone.
pub proof fn law_owned_sessions_are_taken_over(
    h: HubView,
    s: StoredView,
    f: Seq<char>,
)
    requires
        crate::guarantees::distinct(s.1),
    ensures
        ({
            let r = h.inheriting_one(s);
            let (client, subs, deadline) = s;
            let mine = lookup(h.sessions.online, client) is None && lookup(
                h.sessions.connecting,
                client,
            ) is None && h.cluster.owns(client, h.node_id);
            let fresh = lookup(h.routing.subs_by_client, client) is None && subs.len() > 0;
            &&& !mine ==> r == h
            &&& mine ==> lookup(r.sessions.expiring, client) == if lookup(
                h.sessions.expiring,
                client,
            ) is Some {
                lookup(h.sessions.expiring, client)
            } else {
                deadline
            }
            &&& mine && !fresh ==> r.routing == h.routing
            &&& mine && fresh && lookup(subs, f) is Some ==> lookup(
                r.routing.grants(client),
                f,
            ) == lookup(subs, f) && lookup(r.sessions.session_expiry, client) is Some && (
            share_parts(f) is None ==> listens(r.routing, client, f))
            &&& r.effects == h.effects
            &&& r.sessions.online == h.sessions.online
            &&& r.sessions.inflight == h.sessions.inflight
        }),
{
    broadcast use crate::assoc::lemma_lookup_put;

    let (client, subs, deadline) = s;
    crate::arrivals::lemma_entering_each(h.routing, client, subs, client, f, (f, f));
    assert(bound(h.sessions.online, client) == lookup(h.sessions.online, client) is Some);
    assert(bound(h.sessions.connecting, client) == lookup(h.sessions.connecting, client) is Some);
    assert(bound(h.sessions.expiring, client) == lookup(h.sessions.expiring, client) is Some);
}

/// The stored sessions are read at every sweep while sessions of a lost node may turn up, and once
/// in a while otherwise; never twice at the same time.
pub proof fn law_stored_sessions_are_read(h: HubView)
    ensures
        ({
            let r = h.reconciling();
            let due = h.cluster.takeover_ticks > 0 || r.sessions.reconcile_tick
                % crate::sweeps::EXPIRY_RECONCILE_EVERY == 0;
            &&& due && !h.cluster.scan_inflight ==> r.effects == h.effects.push(
                EffectView::ScanSessions,
            ) && r.cluster.scan_inflight
            &&& !due || h.cluster.scan_inflight ==> r.effects == h.effects
            &&& h.sessions.reconcile_tick < u32::MAX ==> r.sessions.reconcile_tick
                == h.sessions.reconcile_tick + 1
            &&& h.cluster.takeover_ticks > 0 ==> r.cluster.takeover_ticks + 1
                == h.cluster.takeover_ticks
        }),
{
}

} // verus!
