//! In which turn a client is sent what: what is recorded first, what waits for packet ids, what of
//! a stored queue is replayed, and how topics and filters meet.

use vstd::prelude::*;

use crate::assoc::lookup;
use crate::attaching::first_of;
use crate::dispatch::HubCommand;
use crate::effects::EffectView;
use crate::hub::HubView;
use crate::ids::ClientId;
use crate::inflight::{next_id, BacklogView, OutState, PendingOutView, PKID_BLOCK};
use crate::lanes::{LaneJobView, WorkView};
use crate::message::PublicationView;
use crate::qos::{level, QoS};
use crate::session::{OnlineView, QueuedView, REPLAY_LIMIT};
use crate::sweeps::SweepPolicyView;
use crate::topic::{admitting_filter, levels, levels_match, matches_topic};

verus! {

/// The packet id of a message with the greater guarantee that has a place in the durable queue is
/// recorded first: nothing is sent before it is, and the message holds the id meanwhile.
pub proof fn law_packet_id_is_recorded_first(
    h: HubView,
    client: Seq<char>,
    e: BacklogView,
    offset: u64,
    pkid: u16,
    o: OnlineView,
)
    requires
        lookup(h.sessions.online, client) == Some(o),
        e.message.qos == QoS::ExactlyOnce,
        e.offset == Some(offset),
        !h.inf(client).must_wait(),
        h.inf(client).tracking(offset).allocated().1 == Some(pkid),
        h.lane(client).takes_delivery(),
    ensures
        ({
            let r = h.to_client(client, e);
            &&& r.effects.len() == h.effects.len() + 1
            &&& r.effects.last() matches EffectView::Lane {
                client: c,
                job: LaneJobView::Deliver(job),
            } && c == client && job.client == client && job.message == e.message && job.retain
                == e.retain && job.message_expiry == e.message_expiry && job.planned_conn == Some(
                o.conn_id,
            ) && job.work == (WorkView::RecordOutbound { pkid, offset })
            &&& lookup(r.inf(client).pending, pkid) == Some(
                PendingOutView {
                    message: e.message,
                    state: OutState::AwaitingIdRecord,
                    offset: Some(offset),
                },
            )
            &&& r.inf(client).records_pending > 0
            &&& r.inf(client).outstanding.contains(offset)
        }),
{
    broadcast use crate::assoc::lemma_lookup_put;

    let inf = h.inf(client).tracking(offset);
    crate::inflight::lemma_allocated_keeps_line(inf);
    crate::listening::lemma_adjoin_contains(h.inf(client).outstanding, offset, offset);
    crate::assoc::lemma_lookup_ranked::<u16, PendingOutView>(
        inf.allocated().0.pending,
        pkid,
        PendingOutView {
            message: e.message,
            state: OutState::AwaitingIdRecord,
            offset: Some(offset),
        },
        pkid,
    );
}

/// Without a packet id to give, a message waits first in line, nothing is sent, and more packet ids
/// are asked for, once.
pub proof fn law_packet_ids_are_asked_for(
    h: HubView,
    client: Seq<char>,
    e: BacklogView,
)
    requires
        e.message.qos != QoS::AtMostOnce,
        e.offset is None,
        !h.inf(client).must_wait(),
        h.inf(client).allocated().1 is None,
    ensures
        ({
            let r = h.to_client(client, e);
            &&& r.effects == if h.inf(client).reserve_outstanding {
                h.effects
            } else {
                h.effects.push(EffectView::ReservePacketIds { client, count: PKID_BLOCK })
            }
            &&& r.inf(client).backlog == seq![e]
            &&& r.inf(client).reserve_outstanding
            &&& r.inf(client).pending == h.inf(client).pending
        }),
{
    broadcast use crate::assoc::lemma_lookup_put;

    crate::inflight::lemma_allocated_keeps_line(h.inf(client));
    assert(seq![e] + h.inf(client).backlog =~= seq![e]);
}

/// Packet ids go up by one, and begin again at one: zero is none.
pub proof fn law_packet_ids_go_round(n: u16)
    ensures
        next_id(n) != 0,
        n < u16::MAX ==> next_id(n) == n + 1,
        n == u16::MAX ==> next_id(n) == 1,
{
}

// The replay of a stored queue.

/// Whether the message `q` of a queue is passed over on replay: it is on the wire or waits already,
/// its time is up, or of the filters of the client only one that was revoked admits it.
pub open spec fn passed_over(
    h: HubView,
    client: Seq<char>,
    gone: Seq<Seq<char>>,
    q: QueuedView,
) -> bool {
    let inf = h.inf(client);
    let grants = h.routing.grants(client);
    ||| exists|i: int|
        0 <= i < inf.pending.len() && (#[trigger] inf.pending[i]).1.offset == Some(q.offset)
            && inf.pending[i].1.state != OutState::AwaitingIdRecord
    ||| exists|i: int|
        0 <= i < inf.backlog.len() && (#[trigger] inf.backlog[i]).offset == Some(q.offset)
    ||| q.expiry_at matches Some(d) && d <= h.now
    ||| (exists|i: int|
        0 <= i < gone.len() && matches_topic(
            admitting_filter(#[trigger] gone[i]),
            q.message.topic,
        )) && !(exists|i: int|
        0 <= i < grants.len() && matches_topic(
            admitting_filter((#[trigger] grants[i]).0),
            q.message.topic,
        ))
}

/// A message of a stored queue that is passed over changes nothing; any other one without a
/// guarantee in its way is sent, for the first time and not as retained, to a connection that keeps
/// up.
pub proof fn law_passed_over_is_not_sent(
    h: HubView,
    client: Seq<char>,
    gone: Seq<Seq<char>>,
    q: QueuedView,
    o: OnlineView,
)
    requires
        lookup(h.sessions.online, client) == Some(o),
    ensures
        passed_over(h, client, gone, q) ==> h.replaying_one(client, gone, q) == h,
        !passed_over(h, client, gone, q) && q.message.qos == QoS::AtMostOnce && !h.sheds(
            client,
            q.message,
        ) ==> ({
            let r = h.replaying_one(client, gone, q);
            &&& r.effects.len() == h.effects.len() + 1
            &&& crate::hearing::carries(
                r.effects.last(),
                o.conn_id,
                q.message.topic,
                q.message.payload,
                false,
                false,
                QoS::AtMostOnce,
            )
            &&& crate::hearing::says(
                r.effects.last(),
                match q.expiry_at {
                    Some(d) => Some(crate::attaching::remaining(h.now, d)),
                    None => None,
                },
                q.message.app,
            )
        }),
        !passed_over(h, client, gone, q) && q.message.qos == QoS::AtLeastOnce
            && !h.inf(client).must_wait() && h.inf(client).tracking(q.offset).allocated().1 is Some
            ==> ({
            let r = h.replaying_one(client, gone, q);
            let pkid = h.inf(client).tracking(q.offset).allocated().1->Some_0;
            &&& r.effects.len() == h.effects.len() + 1
            &&& crate::hearing::carries(
                r.effects.last(),
                o.conn_id,
                q.message.topic,
                q.message.payload,
                false,
                false,
                QoS::AtLeastOnce,
            )
            &&& crate::hearing::says(
                r.effects.last(),
                match q.expiry_at {
                    Some(d) => Some(crate::attaching::remaining(h.now, d)),
                    None => None,
                },
                q.message.app,
            )
            &&& lookup(r.inf(client).pending, pkid) == Some(
                PendingOutView {
                    message: q.message,
                    state: OutState::AwaitingPubAck,
                    offset: Some(q.offset),
                },
            )
        }),
{
    broadcast use crate::assoc::lemma_lookup_put;

    let grants = h.routing.grants(client);
    let ks = crate::assoc::keys(grants);
    assert(crate::attaching::some_admit(ks, q.message.topic) == exists|i: int|
        0 <= i < grants.len() && matches_topic(
            admitting_filter((#[trigger] grants[i]).0),
            q.message.topic,
        )) by {
        if crate::attaching::some_admit(ks, q.message.topic) {
            let i = choose|i: int|
                0 <= i < ks.len() && matches_topic(
                    admitting_filter(#[trigger] ks[i]),
                    q.message.topic,
                );
            assert(grants[i].0 == ks[i]);
        }
        if exists|i: int|
            0 <= i < grants.len() && matches_topic(
                admitting_filter((#[trigger] grants[i]).0),
                q.message.topic,
            ) {
            let i = choose|i: int|
                0 <= i < grants.len() && matches_topic(
                    admitting_filter((#[trigger] grants[i]).0),
                    q.message.topic,
                );
            assert(ks[i] == grants[i].0);
        }
    }
    let inf = h.inf(client).tracking(q.offset);
    crate::inflight::lemma_allocated_keeps_line(inf);
    if inf.allocated().1 is Some {
        let pkid = inf.allocated().1->Some_0;
        crate::assoc::lemma_lookup_ranked::<u16, PendingOutView>(
            inf.allocated().0.pending,
            pkid,
            PendingOutView {
                message: q.message,
                state: OutState::AwaitingPubAck,
                offset: Some(q.offset),
            },
            pkid,
        );
    }
}

/// The replay covers what it replayed: nothing up to the last message of the queue is sent again by
/// a job that is done later, for it stands at or below what the connection has covered.
pub proof fn law_replay_covers_its_queue(
    h: HubView,
    client: Seq<char>,
    gone: Seq<Seq<char>>,
    queue: Seq<QueuedView>,
)
    requires
        queue.len() > 0,
        queue.last().offset > 0,
    ensures
        h.replaying_queue(client, gone, queue).inf(client).high_water >= queue.last().offset,
        h.replaying_queue(client, gone, queue).inf(client).tracked_through >= queue.last().offset,
{
    broadcast use crate::assoc::lemma_lookup_put;

}

/// Of a long queue the oldest part is replayed, in its order.
pub proof fn law_oldest_first(queue: Seq<QueuedView>, i: int)
    requires
        0 <= i < first_of(queue).len(),
    ensures
        first_of(queue)[i] == queue[i],
        first_of(queue).len() == if queue.len() > REPLAY_LIMIT {
            REPLAY_LIMIT as nat
        } else {
            queue.len()
        },
{
}

// Stored subscriptions, and commits.

/// A session that is stored has its subscriptions stored anew when it unsubscribes: those that are
/// left.
pub proof fn law_unsubscribing_is_stored(
    h: HubView,
    client: ClientId,
    filters: Vec<String>,
    i: int,
)
    requires
        lookup(h.sessions.session_expiry, client.deep_view()) is Some,
        0 <= i < filters.deep_view().len(),
    ensures
        ({
            let c = client.deep_view();
            let r = h.after(HubCommand::Unsubscribe { client, filters });
            &&& r.effects.len() > h.effects.len()
            &&& r.effects[h.effects.len() as int] matches EffectView::SetSubscriptions {
                client: d,
                subscriptions,
            } && d == c && lookup(subscriptions, filters.deep_view()[i]) is None && subscriptions
                == r.routing.grants(c)
        }),
{
    reveal(HubView::after);
    let c = client.deep_view();
    let fs = filters.deep_view();
    assert(fs.contains(fs[i]));
    crate::listening::lemma_leaving_each(h.routing, c, fs, c, fs[i], (fs[i], fs[i]));
}

/// A retained message that owners commit is committed by this node where it owns the topic and
/// nothing is under way: the change is what was published, and it is known which publish waits.
pub proof fn law_retained_publish_is_committed(h: HubView, p: PublicationView, gate: Option<u64>)
    requires
        h.retained.durable,
        h.retained.handoff is None,
        !h.retained.commit_inflight,
        h.retained.queue.len() == 0,
        h.cluster.owner(p.topic, h.node_id) == Some(h.node_id),
    ensures
        ({
            let r = h.committing(p, gate);
            &&& r.effects.len() == h.effects.len() + 1
            &&& r.effects.last() matches EffectView::CommitRetained { mutation } && mutation.topic
                == p.topic && mutation.payload == p.payload && mutation.qos == level(p.qos)
                && mutation.app == p.app && mutation.publish == gate && mutation.reply is None
            &&& gate matches Some(id) ==> lookup(h.ledger.entries, id) is Some ==> (lookup(
                r.ledger.entries,
                id,
            ) matches Some(e) && e.awaiting_retained)
        }),
{
    broadcast use crate::assoc::lemma_lookup_put;

}

/// Where the store did not keep what a session asked for, nothing is granted: every wish is turned
/// down, and nothing else happens.
pub proof fn law_unstored_wishes_are_turned_down(
    h: HubView,
    client: ClientId,
    wishes: Vec<crate::subscribing::Wish>,
    reply: Option<u64>,
)
    requires
        lookup(h.sessions.session_expiry, client.deep_view()) is Some,
    ensures
        h.after(HubCommand::Subscribe { client, wishes, reply, stored: false }) == (HubView {
            effects: match reply {
                Some(token) => h.effects.push(
                    EffectView::Subscribed {
                        token,
                        verdicts: Seq::new(wishes.deep_view().len(), |i: int| false),
                    },
                ),
                None => h.effects,
            },
            ..h
        }),
{
    reveal(HubView::after);
}

// Policies.

/// A client loses exactly those of its subscriptions that it may not have any more.
pub proof fn law_lost_grants(
    f: SweepPolicyView,
    client: Seq<char>,
    grants: crate::subscriptions::Grants,
    filter: Seq<char>,
)
    ensures
        f.lost_grants(client, grants).contains(filter) <==> f.denied.contains((client, filter))
            && exists|i: int| 0 <= i < grants.len() && (#[trigger] grants[i]).0 == filter,
    decreases grants.len(),
{
    let all = f.lost_grants(client, grants);
    if grants.len() > 0 {
        let t = grants.drop_last();
        let rest = f.lost_grants(client, t);
        law_lost_grants(f, client, t, filter);
        assert(grants[grants.len() - 1] == grants.last());
        if exists|i: int| 0 <= i < t.len() && (#[trigger] t[i]).0 == filter {
            let i = choose|i: int| 0 <= i < t.len() && (#[trigger] t[i]).0 == filter;
            assert(grants[i].0 == filter);
        }
        if exists|i: int| 0 <= i < grants.len() && (#[trigger] grants[i]).0 == filter {
            let i = choose|i: int| 0 <= i < grants.len() && (#[trigger] grants[i]).0 == filter;
            if i < t.len() {
                assert(t[i].0 == filter);
            }
        }
        if all.contains(filter) {
            let i = choose|i: int| 0 <= i < all.len() && all[i] == filter;
            if i < rest.len() {
                assert(rest[i] == filter);
            }
        }
        if rest.contains(filter) {
            let i = choose|i: int| 0 <= i < rest.len() && rest[i] == filter;
            assert(all[i] == filter);
        }
        if all.len() > rest.len() && grants.last().0 == filter {
            assert(all[rest.len() as int] == filter);
        }
    }
}

/// A link is cut exactly if its node came with a certificate that is revoked.
pub proof fn law_lost_peers(
    f: SweepPolicyView,
    peers: Seq<(Seq<char>, crate::cluster::PeerView)>,
    node: Seq<char>,
)
    ensures
        f.lost_peers(peers).contains(node) <==> exists|i: int|
            0 <= i < peers.len() && (#[trigger] peers[i]).0 == node && (
            peers[i].1.cert_serial matches Some(s) && f.peer_revoked.contains(s)),
    decreases peers.len(),
{
    let all = f.lost_peers(peers);
    if peers.len() > 0 {
        let t = peers.drop_last();
        let rest = f.lost_peers(t);
        law_lost_peers(f, t, node);
        assert(peers[peers.len() - 1] == peers.last());
        if all.contains(node) {
            let i = choose|i: int| 0 <= i < all.len() && all[i] == node;
            if i < rest.len() {
                assert(rest[i] == node);
                let j = choose|j: int|
                    0 <= j < t.len() && (#[trigger] t[j]).0 == node && (
                    t[j].1.cert_serial matches Some(s) && f.peer_revoked.contains(s));
                assert(peers[j] == t[j]);
            }
        }
        if exists|i: int|
            0 <= i < peers.len() && (#[trigger] peers[i]).0 == node && (
            peers[i].1.cert_serial matches Some(s) && f.peer_revoked.contains(s)) {
            let i = choose|i: int|
                0 <= i < peers.len() && (#[trigger] peers[i]).0 == node && (
                peers[i].1.cert_serial matches Some(s) && f.peer_revoked.contains(s));
            if i < t.len() {
                assert(t[i] == peers[i]);
                let j = choose|j: int| 0 <= j < rest.len() && rest[j] == node;
                assert(all[j] == node);
            } else {
                assert(all[rest.len() as int] == node);
            }
        }
    }
}

// Topics and filters.

proof fn lemma_levels_match_plain(f: Seq<Seq<char>>, t: Seq<Seq<char>>)
    requires
        forall|i: int|
            0 <= i < f.len() ==> #[trigger] f[i] != seq!['#'] && f[i] != seq!['+'],
    ensures
        levels_match(f, t) <==> f == t,
    decreases f.len(),
{
    if f.len() == 0 {
        if t.len() == 0 {
            assert(f =~= t);
        }
    } else if t.len() > 0 {
        let fs = f.skip(1);
        let ts = t.skip(1);
        assert forall|i: int| 0 <= i < fs.len() implies #[trigger] fs[i] != seq!['#'] && fs[i]
            != seq!['+'] by {
            assert(fs[i] == f[i + 1]);
        }
        lemma_levels_match_plain(fs, ts);
        if f[0] == t[0] && fs == ts {
            assert forall|i: int| 0 <= i < f.len() implies f[i] == t[i] by {
                if i > 0 {
                    assert(fs[i - 1] == f[i]);
                    assert(ts[i - 1] == t[i]);
                }
            }
            assert(fs.len() == f.len() - 1 && ts.len() == t.len() - 1);
            assert(f =~= t);
        }
    }
}

/// A filter without wildcards admits a topic exactly if they have the same levels.
pub proof fn law_plain_filter(filter: Seq<char>, topic: Seq<char>)
    requires
        forall|i: int|
            0 <= i < levels(filter).len() ==> #[trigger] levels(filter)[i] != seq!['#']
                && levels(filter)[i] != seq!['+'],
        filter.len() > 0 ==> filter[0] != '+' && filter[0] != '#',
    ensures
        matches_topic(filter, topic) <==> levels(filter) == levels(topic),
{
    lemma_levels_match_plain(levels(filter), levels(topic));
}

proof fn lemma_levels_match_single(f: Seq<Seq<char>>, t: Seq<Seq<char>>, k: int)
    requires
        f.len() == t.len(),
        0 <= k < f.len(),
        f[k] == seq!['+'],
        forall|i: int| 0 <= i < f.len() && i != k ==> f[i] == #[trigger] t[i],
        forall|i: int| 0 <= i < f.len() ==> #[trigger] f[i] != seq!['#'],
    ensures
        levels_match(f, t),
    decreases f.len(),
{
    let fs = f.skip(1);
    let ts = t.skip(1);
    assert forall|i: int| 0 <= i < fs.len() implies #[trigger] fs[i] != seq!['#'] by {
        assert(fs[i] == f[i + 1]);
    }
    if k > 0 {
        assert forall|i: int| 0 <= i < fs.len() && i != k - 1 implies fs[i] == #[trigger] ts[i] by {
            assert(ts[i] == t[i + 1]);
        }
        assert(fs[k - 1] == f[k]);
        assert(f[0] == t[0]);
        lemma_levels_match_single(fs, ts, k - 1);
    } else {
        assert forall|i: int| 0 <= i < fs.len() implies fs[i] == #[trigger] ts[i] by {
            assert(ts[i] == t[i + 1]);
        }
        assert(fs =~= ts);
        lemma_levels_match_same(fs);
    }
}

proof fn lemma_levels_match_same(f: Seq<Seq<char>>)
    requires
        forall|i: int| 0 <= i < f.len() ==> #[trigger] f[i] != seq!['#'],
    ensures
        levels_match(f, f),
    decreases f.len(),
{
    if f.len() > 0 {
        assert forall|i: int| 0 <= i < f.skip(1).len() implies #[trigger] f.skip(1)[i]
            != seq!['#'] by {
            assert(f.skip(1)[i] == f[i + 1]);
        }
        lemma_levels_match_same(f.skip(1));
    }
}

/// A wildcard for one level admits whatever stands there, and nothing but one level: a filter that
/// differs from a topic only in that level admits it, and no topic has more or fewer levels.
pub proof fn law_single_level_wildcard(filter: Seq<char>, topic: Seq<char>, k: int)
    requires
        !(topic.len() > 0 && topic[0] == '$'),
        0 <= k < levels(filter).len(),
        levels(filter)[k] == seq!['+'],
        forall|i: int| 0 <= i < levels(filter).len() ==> #[trigger] levels(filter)[i] != seq!['#'],
    ensures
        levels(filter).len() == levels(topic).len() && (forall|i: int|
            0 <= i < levels(filter).len() && i != k ==> levels(filter)[i] == #[trigger] levels(
                topic,
            )[i]) ==> matches_topic(filter, topic),
        matches_topic(filter, topic) ==> levels(filter).len() == levels(topic).len(),
{
    let f = levels(filter);
    let t = levels(topic);
    if f.len() == t.len() && (forall|i: int|
        0 <= i < f.len() && i != k ==> f[i] == #[trigger] t[i]) {
        lemma_levels_match_single(f, t, k);
    }
    if matches_topic(filter, topic) {
        lemma_levels_match_len(f, t);
    }
}

proof fn lemma_levels_match_len(f: Seq<Seq<char>>, t: Seq<Seq<char>>)
    requires
        levels_match(f, t),
        forall|i: int| 0 <= i < f.len() ==> #[trigger] f[i] != seq!['#'],
    ensures
        f.len() == t.len(),
    decreases f.len(),
{
    if f.len() > 0 {
        assert(f[0] != seq!['#']);
        assert forall|i: int| 0 <= i < f.skip(1).len() implies #[trigger] f.skip(1)[i]
            != seq!['#'] by {
            assert(f.skip(1)[i] == f[i + 1]);
        }
        lemma_levels_match_len(f.skip(1), t.skip(1));
    }
}

/// The wildcard for all levels admits every topic but those of the broker itself, which no filter
/// that begins with a wildcard admits.
pub proof fn law_all_levels_wildcard(topic: Seq<char>, filter: Seq<char>)
    ensures
        !(topic.len() > 0 && topic[0] == '$') ==> matches_topic(seq!['#'], topic),
        topic.len() > 0 && topic[0] == '$' && filter.len() > 0 && (filter[0] == '#' || filter[0]
            == '+') ==> !matches_topic(filter, topic),
{
    let f = seq!['#'];
    crate::topic::lemma_slash(f);
    assert(levels(f) =~= seq![f]);
}

} // verus!
