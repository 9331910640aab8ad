//! What the hub promises across its parts.

use vstd::prelude::*;

use crate::assoc::{bound, keys, lookup, position, put, put_ranked, RankedKey};

use crate::delivery::{first_state, room, Targets};
use crate::effects::EffectView;
use crate::forwarding::gate_of;
use crate::hub::{held, HubView, RoutingView};
use crate::inflight::{BacklogView, InflightView, OutState, PendingOutView};
use crate::lanes::{GateView, JobView, LaneJobView};

use crate::message::{MessageView, PublicationView};

use crate::packet::PacketView;
use crate::qos::{weaker, QoS};
use crate::session::OnlineView;
use crate::shared::{local_candidates, local_matches, with_node, with_remote, CandidateView, Groups,
    KeyView, Matches, RemoteGroupView, SharedKey};

verus! {

/// Whether two hubs agree on what decides about a delivery: who is connected, whose session is
/// kept, who subscribes to what, and whether growth is taken.
pub open spec fn alike(a: HubView, b: HubView) -> bool {
    &&& a.brownout == b.brownout
    &&& a.now == b.now
    &&& a.node_id == b.node_id
    &&& a.limits == b.limits
    &&& a.cluster == b.cluster
    &&& a.routing == (RoutingView { shared_cursor: a.routing.shared_cursor, ..b.routing })
    &&& a.sessions.session_expiry == b.sessions.session_expiry
    &&& keys(a.sessions.online) == keys(b.sessions.online)
}

pub proof fn lemma_bound_by_keys<K, V, W>(s: Seq<(K, V)>, t: Seq<(K, W)>, k: K)
    requires
        keys(s) == keys(t),
    ensures
        position(s, k) == position(t, k),
        bound(s, k) == bound(t, k),
{
    assert(keys(s).len() == s.len());
    assert(keys(t).len() == t.len());
    crate::assoc::lemma_position(s, k);
    let i = position(s, k);
    if i < s.len() {
        assert(keys(s)[i] == s[i].0);
        assert(keys(t)[i] == t[i].0);
    }
    assert forall|j: int| 0 <= j < i implies (#[trigger] t[j]).0 != k by {
        assert(s[j].0 != k);
        assert(keys(s)[j] == s[j].0);
        assert(keys(t)[j] == t[j].0);
    }
    crate::assoc::lemma_position_at(t, k, i);
}

pub proof fn lemma_keys_put<K, V>(s: Seq<(K, V)>, k: K, v: V)
    requires
        bound(s, k),
    ensures
        keys(put(s, k, v)) == keys(s),
{
    crate::assoc::lemma_position(s, k);
    assert(keys(put(s, k, v)) =~= keys(s));
}

pub proof fn lemma_sending(h: HubView, client: Seq<char>, packet: PacketView, n: nat)
    ensures
        alike(h.sending(client, packet, n), h),
        h.sending(client, packet, n).routing == h.routing,
        h.sending(client, packet, n).sessions.inflight == h.sessions.inflight,
{
    match lookup(h.sessions.online, client) {
        Some(o) => {
            lemma_keys_put(
                h.sessions.online,
                client,
                OnlineView {
                    queued: held(o.queued, 1),
                    queued_bytes: held(o.queued_bytes, n),
                    ..o
                },
            );
        },
        None => {},
    }
}

pub proof fn lemma_submitting(h: HubView, job: JobView)
    ensures
        alike(h.submitting(job).0, h),
        h.submitting(job).0.routing == h.routing,
        h.submitting(job).0.sessions.inflight == h.sessions.inflight,
        h.submitting(job).0.sessions.online == h.sessions.online,
{
}

pub proof fn lemma_sending_qos(h: HubView, client: Seq<char>, e: BacklogView)
    ensures
        alike(h.sending_qos(client, e).0, h),
        h.sending_qos(client, e).0.routing == h.routing,
{
    if e.message.qos == QoS::AtMostOnce {
        lemma_sending(
            h,
            client,
            crate::packet::publish_of(e.message, None, false, e.retain, e.message_expiry),
            room(e.message),
        );
    } else {
        let (inf, id) = h.inf(client).allocated();
        match id {
            None => {},
            Some(pkid) => {
                if e.message.qos == QoS::ExactlyOnce && e.offset is Some {
                    let offset = e.offset->Some_0;
                    let parked = inf.holding(
                        pkid,
                        PendingOutView {
                            message: e.message,
                            state: OutState::AwaitingIdRecord,
                            offset: Some(offset),
                        },
                    );
                    lemma_submitting(
                        h.with_inf(
                            client,
                            InflightView {
                                records_pending: held(inf.records_pending, 1),
                                ..parked
                            },
                        ),
                        h.record_job(client, e, pkid, offset),
                    );
                } else {
                    lemma_sending(
                        h.with_inf(
                            client,
                            inf.holding(
                                pkid,
                                PendingOutView {
                                    message: e.message,
                                    state: first_state(e.message.qos),
                                    offset: e.offset,
                                },
                            ),
                        ),
                        client,
                        crate::packet::publish_of(
                            e.message,
                            Some(pkid),
                            false,
                            e.retain,
                            e.message_expiry,
                        ),
                        room(e.message),
                    );
                }
            },
        }
    }
}

pub proof fn lemma_draining(h: HubView, client: Seq<char>, n: nat)
    ensures
        alike(h.draining(client, n), h),
        h.draining(client, n).routing == h.routing,
    decreases n,
{
    if n > 0 && h.is_online(client) {
        match lookup(h.sessions.inflight, client) {
            Some(inf) => {
                if !(inf.is_full() || inf.records_pending > 0 || inf.backlog.len() == 0) {
                    let popped = h.with_inf(
                        client,
                        InflightView { backlog: inf.backlog.skip(1), ..inf },
                    );
                    lemma_sending_qos(popped, client, inf.backlog[0]);
                    lemma_draining(
                        popped.sending_qos(client, inf.backlog[0]).0,
                        client,
                        (n - 1) as nat,
                    );
                }
            },
            None => {},
        }
    }
}

pub proof fn lemma_to_client(h: HubView, client: Seq<char>, e: BacklogView)
    ensures
        alike(h.to_client(client, e), h),
        h.to_client(client, e).routing == h.routing,
{
    let h1 = if e.offset is Some && e.message.qos != QoS::AtMostOnce {
        h.with_inf(client, h.inf(client).tracking(e.offset->Some_0))
    } else {
        h
    };
    if e.message.qos == QoS::AtMostOnce {
        lemma_sending(
            h1,
            client,
            crate::packet::publish_of(e.message, None, false, e.retain, e.message_expiry),
            room(e.message),
        );
    } else if h1.inf(client).must_wait() {
        let h2 = h1.queueing(client, e);
        assert(alike(h2, h1));
        lemma_draining(h2, client, h2.inf(client).backlog.len());
    } else {
        lemma_sending_qos(h1, client, e);
    }
}

pub proof fn lemma_sending_in_order(h: HubView, client: Seq<char>, m: MessageView, expiry: Option<u32>)
    ensures
        alike(h.sending_in_order(client, m, expiry), h),
        h.sending_in_order(client, m, expiry).routing == h.routing,
{
    if !h.lane_busy(client) {
        lemma_to_client(
            h,
            client,
            BacklogView { message: m, retain: m.retain, message_expiry: expiry, offset: None },
        );
    }
}

pub proof fn lemma_delivering(
    h: HubView,
    client: Seq<char>,
    p: PublicationView,
    qos: QoS,
    retain: bool,
    gate: GateView,
)
    ensures
        alike(h.delivering(client, p, qos, retain, gate).0, h),
        h.delivering(client, p, qos, retain, gate).0.routing == h.routing,
        h.delivering(client, p, qos, retain, gate).1 is Refused ==> h.brownout
            && gate.answered() && h.owes_durable(client, qos),
{
    let m = p.message(qos, retain, h.now);
    let h2 = h.appending(client, m, p.message_expiry, gate, h.conn_of(client)).0;
    lemma_submitting(
        h,
        h.append_job(client, m, p.message_expiry, gate, h.conn_of(client)),
    );
    lemma_submitting(h, h.append_job(client, m, p.message_expiry, gate, None));
    lemma_sending_in_order(h, client, m, p.message_expiry);
    lemma_sending_in_order(h2, client, m, p.message_expiry);
}

/// A fan-out changes nothing that decides about a delivery, and is refused only for brownout.
pub proof fn lemma_delivering_all(h: HubView, p: PublicationView, targets: Targets, gate: GateView)
    ensures
        alike(h.delivering_all(p, targets, gate).0, h),
        h.delivering_all(p, targets, gate).0.routing == h.routing,
        h.delivering_all(p, targets, gate).1 is Refused ==> h.brownout && gate.answered()
            && h.some_owe(targets, p.qos),
    decreases targets.len(),
{
    if targets.len() > 0 {
        let rest = targets.drop_last();
        lemma_delivering_all(h, p, rest, gate);
        let (h1, worst) = h.delivering_all(p, rest, gate);
        let t = targets.last();
        lemma_delivering(h1, t.0, p, weaker(p.qos, t.1), t.2, gate);
        let (h2, out) = h1.delivering(t.0, p, weaker(p.qos, t.1), t.2, gate);
        if worst.worse(out) is Refused {
            if worst is Refused {
                let i = choose|i: int|
                    0 <= i < rest.len() && h.owes_durable(
                        (#[trigger] rest[i]).0,
                        weaker(p.qos, rest[i].1),
                    );
                assert(targets[i] == rest[i]);
            } else {
                assert(targets[targets.len() - 1] == t);
            }
        }
    }
}

/// A publish that is refused on this node has changed nothing here.
pub proof fn law_refused_apply_changes_nothing(
    h: HubView,
    p: PublicationView,
    publisher: Option<Seq<char>>,
    gate: GateView,
)
    ensures
        h.applying(p, publisher, gate).1 is Refused ==> h.applying(p, publisher, gate).0 == h,
{
    let targets = h.targets(p.topic, publisher, p.retain);
    let kept = h.keeping(p, gate);
    lemma_delivering_all(kept, p, targets, gate);
    if kept.some_owe(targets, p.qos) {
        let i = choose|i: int|
            0 <= i < targets.len() && kept.owes_durable(
                (#[trigger] targets[i]).0,
                weaker(p.qos, targets[i].1),
            );
        assert(h.owes_durable(targets[i].0, weaker(p.qos, targets[i].1)));
    }
}

pub proof fn lemma_applying_alike(
    h: HubView,
    p: PublicationView,
    publisher: Option<Seq<char>>,
    gate: GateView,
)
    ensures
        alike(h.applying(p, publisher, gate).0, h),
        h.applying(p, publisher, gate).0.routing == h.routing,
{
    let targets = h.targets(p.topic, publisher, p.retain);
    lemma_delivering_all(h.keeping(p, gate), p, targets, gate);
}

/// No key is bound twice.
pub open spec fn distinct<K, V>(s: Seq<(K, V)>) -> bool {
    forall|i: int, j: int| 0 <= i < j < s.len() ==> (#[trigger] s[i]).0 != (#[trigger] s[j]).0
}

pub proof fn lemma_distinct_ranked<K: RankedKey, V>(s: Seq<(K::V, V)>, k: K::V, v: V)
    requires
        distinct(s),
    ensures
        distinct(put_ranked::<K, V>(s, k, v)),
{
    crate::assoc::lemma_position(s, k);
    crate::assoc::lemma_rank_bound::<K, V>(s, k);
    let t = put_ranked::<K, V>(s, k, v);
    let n = crate::assoc::rank::<K, V>(s, k);
    assert forall|i: int, j: int| 0 <= i < j < t.len() implies (#[trigger] t[i]).0 != (
    #[trigger] t[j]).0 by {
        if bound(s, k) {
            assert(t[i].0 == s[i].0);
            assert(t[j].0 == s[j].0);
        } else {
            let a = if i < n {
                i
            } else {
                i - 1
            };
            let b = if j < n {
                j
            } else {
                j - 1
            };
            if i != n {
                assert(t[i] == s[a]);
            }
            if j != n {
                assert(t[j] == s[b]);
            }
        }
    }
}

proof fn lemma_local_distinct<W>(g: Groups, online: Seq<(Seq<char>, W)>, topic: Seq<char>)
    ensures
        distinct(local_matches(g, online, topic)),
    decreases g.len(),
{
    if g.len() > 0 {
        lemma_local_distinct(g.drop_last(), online, topic);
        let rest = local_matches(g.drop_last(), online, topic);
        lemma_distinct_ranked::<SharedKey, Seq<CandidateView>>(
            rest,
            g.last().0,
            crate::shared::candidates_of(rest, g.last().0) + local_candidates(
                g.last().1,
                online,
            ),
        );
    }
}

proof fn lemma_node_distinct(
    m: Matches,
    node: Seq<char>,
    groups: Seq<RemoteGroupView>,
    topic: Seq<char>,
)
    requires
        distinct(m),
    ensures
        distinct(with_node(m, node, groups, topic)),
    decreases groups.len(),
{
    if groups.len() > 0 {
        lemma_node_distinct(m, node, groups.drop_last(), topic);
        let rest = with_node(m, node, groups.drop_last(), topic);
        let g = groups.last();
        lemma_distinct_ranked::<SharedKey, Seq<CandidateView>>(
            rest,
            (g.group, g.filter),
            crate::shared::candidates_of(rest, (g.group, g.filter))
                + crate::shared::remote_candidates(node, g.members),
        );
    }
}

proof fn lemma_remote_distinct(
    m: Matches,
    remote: Seq<(Seq<char>, Seq<RemoteGroupView>)>,
    topic: Seq<char>,
)
    requires
        distinct(m),
    ensures
        distinct(with_remote(m, remote, topic)),
    decreases remote.len(),
{
    if remote.len() > 0 {
        lemma_remote_distinct(m, remote.drop_last(), topic);
        lemma_node_distinct(
            with_remote(m, remote.drop_last(), topic),
            remote.last().0,
            remote.last().1,
            topic,
        );
    }
}

proof fn lemma_local_alike<W>(
    g: Groups,
    a: Seq<(Seq<char>, W)>,
    b: Seq<(Seq<char>, W)>,
    topic: Seq<char>,
)
    requires
        keys(a) == keys(b),
    ensures
        local_matches(g, a, topic) == local_matches(g, b, topic),
    decreases g.len(),
{
    if g.len() > 0 {
        lemma_local_alike(g.drop_last(), a, b, topic);
        let members = g.last().1;
        assert forall|i: int| 0 <= i < members.len() implies #[trigger] bound(a, members[i].0)
            == bound(b, members[i].0) by {
            lemma_bound_by_keys(a, b, members[i].0);
        }
        assert(local_candidates(members, a) =~= local_candidates(members, b));
    }
}

/// Where the groups stand that hubs alike reach.
pub proof fn lemma_matches_alike(a: HubView, b: HubView, topic: Seq<char>)
    requires
        alike(a, b),
    ensures
        a.shared_matches(topic) == b.shared_matches(topic),
        distinct(a.shared_matches(topic)),
{
    lemma_local_alike(a.routing.shared, a.sessions.online, b.sessions.online, topic);
    lemma_local_distinct(a.routing.shared, a.sessions.online, topic);
    lemma_remote_distinct(
        local_matches(a.routing.shared, a.sessions.online, topic),
        a.cluster.remote_shared,
        topic,
    );
}

proof fn lemma_sharing(
    h: HubView,
    p: PublicationView,
    gate: Option<u64>,
    key: KeyView,
    candidates: Seq<CandidateView>,
    other: KeyView,
)
    ensures
        alike(h.sharing(p, gate, key, candidates).0, h),
        other != key ==> lookup(
            h.sharing(p, gate, key, candidates).0.routing.shared_cursor,
            other,
        ) == lookup(h.routing.shared_cursor, other),
        h.sharing(p, gate, key, candidates).1 is Refused ==> h.brownout && gate is Some
            && h.owes_in_group((key, candidates), p.qos),
{
    let turned = h.turning(key, candidates.len());
    if candidates.len() > 0 {
        crate::assoc::lemma_lookup_put(
            h.routing.shared_cursor,
            key,
            ((crate::shared::turn(h.routing.shared_cursor, key, candidates.len()) + 1)
                % (candidates.len() as int)) as usize,
            other,
        );
    }
    match h.pick(key, candidates) {
        None => {},
        Some(c) => {
            match c.node {
                None => {
                    lemma_delivering(
                        turned,
                        c.client,
                        p,
                        weaker(p.qos, c.qos),
                        false,
                        gate_of(gate),
                    );
                },
                Some(node) => {},
            }
        },
    }
}

pub proof fn lemma_sharing_all(h: HubView, p: PublicationView, gate: Option<u64>, m: Matches, k: KeyView)
    requires
        distinct(m),
        forall|i: int| 0 <= i < m.len() ==> (#[trigger] m[i]).0 != k,
    ensures
        alike(h.sharing_all(p, gate, m).0, h),
        lookup(h.sharing_all(p, gate, m).0.routing.shared_cursor, k) == lookup(
            h.routing.shared_cursor,
            k,
        ),
        h.sharing_all(p, gate, m).1 is Refused ==> h.brownout && gate is Some && exists|i: int|
            0 <= i < m.len() && h.owes_in_group(#[trigger] m[i], p.qos),
    decreases m.len(),
{
    if m.len() > 0 {
        let rest = m.drop_last();
        let g = m.last();
        assert forall|i: int| 0 <= i < rest.len() implies (#[trigger] rest[i]).0 != k by {
            assert(rest[i] == m[i]);
        }
        assert forall|i: int| 0 <= i < rest.len() implies (#[trigger] rest[i]).0 != g.0 by {
            assert(rest[i] == m[i]);
            assert(m[i].0 != m[m.len() - 1].0);
        }
        assert(distinct(rest)) by {
            assert forall|i: int, j: int| 0 <= i < j < rest.len() implies (#[trigger] rest[i]).0
                != (#[trigger] rest[j]).0 by {
                assert(rest[i] == m[i] && rest[j] == m[j]);
            }
        }
        lemma_sharing_all(h, p, gate, rest, k);
        lemma_sharing_all(h, p, gate, rest, g.0);
        let (h1, worst, placed) = h.sharing_all(p, gate, rest);
        assert(m[m.len() - 1].0 != k);
        lemma_sharing(h1, p, gate, g.0, g.1, k);
        let out = h1.sharing(p, gate, g.0, g.1).1;
        assert(h1.pick(g.0, g.1) == h.pick(g.0, g.1));
        if worst.worse(out) is Refused {
            if worst is Refused {
                let i = choose|i: int|
                    0 <= i < rest.len() && h.owes_in_group(#[trigger] rest[i], p.qos);
                assert(m[i] == rest[i]);
            } else {
                assert(h.owes_in_group(m[m.len() - 1], p.qos));
            }
        }
    }
}

/// A publish that is refused has left no trace: nothing was kept, sent, forwarded or asked of
/// the store on its behalf.
pub proof fn law_refused_publish_leaves_no_trace(
    h: HubView,
    p: PublicationView,
    publisher: Option<Seq<char>>,
    gate: Option<u64>,
)
    ensures
        h.publishing(p, publisher, gate).1 is Refused ==> h.publishing(p, publisher, gate).0 == h,
{
    law_refused_apply_changes_nothing(h, p, publisher, gate_of(gate));
    lemma_applying_alike(h, p, publisher, gate_of(gate));
    if !(gate is Some && h.shared_plan_owes(p.topic, p.qos) && h.brownout) {
        let (h1, out1) = h.applying(p, publisher, gate_of(gate));
        if !(out1 is Refused) {
            let m = h1.shared_matches(p.topic);
            lemma_matches_alike(h1, h, p.topic);
            let k = lemma_fresh_key(m);
            lemma_sharing_all(h1, p, gate, m, k);
            if h1.sharing_all(p, gate, m).1 is Refused {
                let i = choose|i: int| 0 <= i < m.len() && h1.owes_in_group(#[trigger] m[i], p.qos);
                assert(h.owes_in_group(h.shared_matches(p.topic)[i], p.qos));
                assert(h.shared_plan_owes(p.topic, p.qos));
            }
        }
    }
}

/// A publish is refused only while no growth is taken, and only where somebody is told.
pub proof fn lemma_refused_only_in_brownout(
    h: HubView,
    p: PublicationView,
    publisher: Option<Seq<char>>,
    gate: Option<u64>,
)
    ensures
        h.publishing(p, publisher, gate).1 is Refused ==> h.brownout && gate is Some,
{
    lemma_applying_alike(h, p, publisher, gate_of(gate));
    lemma_delivering_all(
        h.keeping(p, gate_of(gate)),
        p,
        h.targets(p.topic, publisher, p.retain),
        gate_of(gate),
    );
    let h1 = h.applying(p, publisher, gate_of(gate)).0;
    let m = h1.shared_matches(p.topic);
    lemma_matches_alike(h1, h, p.topic);
    let k = lemma_fresh_key(m);
    lemma_sharing_all(h1, p, gate, m, k);
}

/// There is always a key that is not bound.
proof fn lemma_fresh_key(m: Matches) -> (k: KeyView)
    ensures
        forall|i: int| 0 <= i < m.len() ==> (#[trigger] m[i]).0 != k,
{
    let n = lemma_longest(m);
    let name = Seq::new((n + 1) as nat, |i: int| 'a');
    (name, Seq::empty())
}

proof fn lemma_longest(m: Matches) -> (n: nat)
    ensures
        forall|i: int| 0 <= i < m.len() ==> (#[trigger] m[i]).0.0.len() <= n,
    decreases m.len(),
{
    if m.len() == 0 {
        0
    } else {
        let r = lemma_longest(m.drop_last());
        let n = if r < m.last().0.0.len() {
            m.last().0.0.len()
        } else {
            r
        };
        assert forall|i: int| 0 <= i < m.len() implies (#[trigger] m[i]).0.0.len() <= n by {
            if i < m.len() - 1 {
                assert(m.drop_last()[i] == m[i]);
            }
        }
        n
    }
}

/// A message that has to be recorded for a subscriber is not sent before it is: its delivery
/// only hands it to the lane of the session. This holds wherever somebody waits for the outcome,
/// and wherever growth is taken.
pub proof fn law_recorded_before_sent(
    h: HubView,
    client: Seq<char>,
    p: PublicationView,
    qos: QoS,
    retain: bool,
    gate: GateView,
)
    requires
        h.owes_durable(client, qos),
        gate.answered() || !h.brownout,
    ensures
        ({
            let h2 = h.delivering(client, p, qos, retain, gate).0;
            let m = p.message(qos, retain, h.now);
            let job = h.append_job(client, m, p.message_expiry, gate, h.conn_of(client));
            &&& h2.sessions.online == h.sessions.online
            &&& h2.sessions.inflight == h.sessions.inflight
            &&& h2.effects == h.effects || h2.effects == h.effects.push(
                EffectView::Lane { client, job: LaneJobView::Deliver(job) },
            )
        }),
{
    if !h.is_online(client) {
        assert(h.conn_of(client) is None);
    }
}

proof fn lemma_sent_within(h: HubView, client: Seq<char>, e: BacklogView)
    requires
        !h.inf(client).is_full(),
    ensures
        h.sending_qos(client, e).0.inf(client).pending.len() <= h.inf(client).receive_maximum,
        h.sending_qos(client, e).0.inf(client).receive_maximum == h.inf(client).receive_maximum,
{
    broadcast use crate::assoc::lemma_lookup_put;

    let inf0 = h.inf(client);
    crate::inflight::law_fresh_packet_id(inf0);
    lemma_allocated_keeps(inf0);
    let (inf, id) = inf0.allocated();
    if e.message.qos == QoS::AtMostOnce {
        lemma_sending(
            h,
            client,
            crate::packet::publish_of(e.message, None, false, e.retain, e.message_expiry),
            room(e.message),
        );
    } else {
        match id {
            None => {},
            Some(pkid) => {
                if e.message.qos == QoS::ExactlyOnce && e.offset is Some {
                    let offset = e.offset->Some_0;
                    let entry = PendingOutView {
                        message: e.message,
                        state: OutState::AwaitingIdRecord,
                        offset: Some(offset),
                    };
                    crate::assoc::lemma_put_ranked_len::<u16, PendingOutView>(
                        inf.pending,
                        pkid,
                        entry,
                    );
                    let parked = inf.holding(pkid, entry);
                    crate::assoc::lemma_cut_len(parked.pending, pkid);
                    lemma_submitting(
                        h.with_inf(
                            client,
                            InflightView {
                                records_pending: held(inf.records_pending, 1),
                                ..parked
                            },
                        ),
                        h.record_job(client, e, pkid, offset),
                    );
                } else {
                    let entry = PendingOutView {
                        message: e.message,
                        state: first_state(e.message.qos),
                        offset: e.offset,
                    };
                    crate::assoc::lemma_put_ranked_len::<u16, PendingOutView>(
                        inf.pending,
                        pkid,
                        entry,
                    );
                    lemma_sending(
                        h.with_inf(client, inf.holding(pkid, entry)),
                        client,
                        crate::packet::publish_of(
                            e.message,
                            Some(pkid),
                            false,
                            e.retain,
                            e.message_expiry,
                        ),
                        room(e.message),
                    );
                }
            },
        }
    }
}

proof fn lemma_allocated_keeps(inf: InflightView)
    ensures
        inf.allocated().0.receive_maximum == inf.receive_maximum,
    decreases
        (if inf.banked_base is Some {
            (crate::inflight::PKID_BLOCK + 1) as int
        } else {
            0
        }) + inf.block_remaining,
{
    if !(inf.block_remaining == 0 && inf.banked_base is None) {
        let refilled = if inf.block_remaining == 0 {
            InflightView {
                next_pkid: if inf.banked_base == Some(0u16) {
                    inf.next_pkid
                } else {
                    inf.banked_base->Some_0
                },
                block_remaining: crate::inflight::PKID_BLOCK,
                banked_base: None,
                ..inf
            }
        } else {
            inf
        };
        let id = crate::inflight::next_id(refilled.next_pkid);
        let used = InflightView {
            next_pkid: id,
            block_remaining: (refilled.block_remaining - 1) as u16,
            ..refilled
        };
        if bound(used.pending, id) {
            lemma_allocated_keeps(used);
        }
    }
}

proof fn lemma_drained_within(h: HubView, client: Seq<char>, n: nat)
    requires
        h.inf(client).pending.len() <= h.inf(client).receive_maximum,
    ensures
        h.draining(client, n).inf(client).pending.len() <= h.inf(client).receive_maximum,
        h.draining(client, n).inf(client).receive_maximum == h.inf(client).receive_maximum,
    decreases n,
{
    broadcast use crate::assoc::lemma_lookup_put;

    if n > 0 && h.is_online(client) {
        match lookup(h.sessions.inflight, client) {
            Some(inf) => {
                if !(inf.is_full() || inf.records_pending > 0 || inf.backlog.len() == 0) {
                    let popped = h.with_inf(
                        client,
                        InflightView { backlog: inf.backlog.skip(1), ..inf },
                    );
                    assert(popped.inf(client).pending == inf.pending);
                    lemma_sent_within(popped, client, inf.backlog[0]);
                    lemma_drained_within(
                        popped.sending_qos(client, inf.backlog[0]).0,
                        client,
                        (n - 1) as nat,
                    );
                }
            },
            None => {},
        }
    }
}

proof fn lemma_released_all_keeps(inf: InflightView, gone: Seq<BacklogView>)
    ensures
        inf.released_all(gone).pending == inf.pending,
        inf.released_all(gone).receive_maximum == inf.receive_maximum,
    decreases gone.len(),
{
    if gone.len() > 0 {
        lemma_released_all_keeps(inf, gone.drop_last());
    }
}

/// A client never holds more unacknowledged messages than it said it takes: what is over that
/// waits.
pub proof fn law_receive_maximum(h: HubView, client: Seq<char>, e: BacklogView)
    requires
        h.inf(client).pending.len() <= h.inf(client).receive_maximum,
    ensures
        h.to_client(client, e).inf(client).pending.len() <= h.inf(client).receive_maximum,
        h.drained(client).inf(client).pending.len() <= h.inf(client).receive_maximum,
{
    broadcast use crate::assoc::lemma_lookup_put;

    lemma_drained_within(h, client, h.inf(client).backlog.len());
    let h1 = if e.offset is Some && e.message.qos != QoS::AtMostOnce {
        h.with_inf(client, h.inf(client).tracking(e.offset->Some_0))
    } else {
        h
    };
    assert(h1.inf(client).pending == h.inf(client).pending);
    if e.message.qos == QoS::AtMostOnce {
        lemma_sending(
            h1,
            client,
            crate::packet::publish_of(e.message, None, false, e.retain, e.message_expiry),
            room(e.message),
        );
    } else if h1.inf(client).must_wait() {
        let inf = h1.inf(client);
        let gone = inf.evicted(e, h1.limits);
        lemma_released_all_keeps(inf.waiting(e, h1.limits), gone);
        let queued = h1.with_inf(client, inf.waiting(e, h1.limits).released_all(gone));
        assert(queued.inf(client).pending == inf.pending);
        let h2 = h1.queueing(client, e);
        assert(h2.inf(client).pending == inf.pending);
        assert(h2.inf(client).receive_maximum == inf.receive_maximum);
        lemma_drained_within(h2, client, h2.inf(client).backlog.len());
    } else {
        lemma_sent_within(h1, client, e);
    }
}

} // verus!
