//! The form in which subscribers hear what is published: with which guarantee, with which retain
//! flag, and that nobody else hears.

use vstd::prelude::*;

use crate::assoc::lookup;
use crate::dispatch::HubCommand;
use crate::effects::EffectView;
use crate::forwarding::gate_of;
use crate::hub::HubView;
use crate::ids::ClientId;
use crate::inflight::BacklogView;
use crate::lanes::{GateView, JobView, LaneJobView, WorkView};
use crate::listening::{belongs, flagged, listens, stands_here};
use crate::message::{AppView, MessageView, Publication, PublicationView};
use crate::packet::{packet_properties, PacketView};
use crate::qos::{level, weaker, QoS};
use crate::reach::{follows, goes_out, id_of_next, lemma_delivering_all_reach,
    lemma_delivering_reach, lemma_follows, lemma_follows_contains, lemma_follows_same,
    lemma_to_client_reach, same_for, turn_of};
use crate::session::OnlineView;
use crate::shared::{candidates_of, KeyView, Matches};
use crate::subscribing::{as_retained, replay, verdicts, Wish, WishView};
use crate::subscriptions::{matching, Grants};
use crate::topic::{matches_topic, share_parts};

verus! {

/// Whether `client` has an ordinary subscription that admits `topic`.
pub open spec fn subscribes(h: HubView, client: Seq<char>, topic: Seq<char>) -> bool {
    exists|f: Seq<char>| #[trigger] listens(h.routing, client, f) && matches_topic(f, topic)
}

/// Whether `client` asked, with a filter that admits `topic`, to get messages with the retain flag
/// they were published with.
pub open spec fn asked_for_flag(h: HubView, client: Seq<char>, topic: Seq<char>) -> bool {
    exists|f: Seq<char>|
        #[trigger] flagged(h.routing.retain_as_published, client, f) && matches_topic(f, topic)
}

/// Whether `client` asked, with a filter that admits `topic`, not to get its own messages back.
pub open spec fn asked_for_silence(h: HubView, client: Seq<char>, topic: Seq<char>) -> bool {
    exists|f: Seq<char>|
        #[trigger] flagged(h.routing.no_local, client, f) && matches_topic(f, topic)
}

/// Whether `qos` is what a message published with `published` reaches `client` with: no stronger
/// than that, no stronger than some grant of the client that admits the topic, and no weaker than
/// these allow.
pub open spec fn fits(
    h: HubView,
    client: Seq<char>,
    topic: Seq<char>,
    published: QoS,
    qos: QoS,
) -> bool {
    let grants = h.routing.grants(client);
    &&& level(qos) <= level(published)
    &&& forall|i: int|
        0 <= i < grants.len() && matches_topic((#[trigger] grants[i]).0, topic) ==> level(
            grants[i].1,
        ) <= level(qos) || level(published) <= level(qos)
    &&& qos == QoS::AtMostOnce || exists|i: int|
        0 <= i < grants.len() && matches_topic((#[trigger] grants[i]).0, topic) && level(qos)
            <= level(grants[i].1)
}

pub proof fn lemma_fits(h: HubView, client: Seq<char>, topic: Seq<char>, published: QoS)
    ensures
        fits(h, client, topic, published, weaker(published, h.granted(client, topic))),
{
    crate::subscriptions::law_strongest(h.routing.grants(client), topic);
}

/// A client gets messages of a topic with the retain flag they were published with exactly if it
/// asked for that with a filter that admits the topic.
pub proof fn law_flag_is_kept_on_request(h: HubView, client: Seq<char>, topic: Seq<char>)
    ensures
        h.keeps_retain(client, topic) <==> asked_for_flag(h, client, topic),
{
    let s = crate::assoc::lookup_or(h.routing.retain_as_published, client, Seq::empty());
    if h.keeps_retain(client, topic) {
        let i = choose|i: int| 0 <= i < s.len() && matches_topic(#[trigger] s[i], topic);
        assert(s.contains(s[i]));
        assert(flagged(h.routing.retain_as_published, client, s[i]));
    }
    if asked_for_flag(h, client, topic) {
        let f = choose|f: Seq<char>|
            #[trigger] flagged(h.routing.retain_as_published, client, f) && matches_topic(f, topic);
        let i = choose|i: int| 0 <= i < s.len() && s[i] == f;
        assert(matches_topic(s[i], topic));
    }
}

/// A client is spared a message exactly if it is its own and the client asked for that with a
/// filter that admits the topic.
pub proof fn law_own_messages_are_spared_on_request(
    h: HubView,
    client: Seq<char>,
    topic: Seq<char>,
    publisher: Option<Seq<char>>,
)
    ensures
        h.suppressed(client, topic, publisher) <==> publisher == Some(client)
            && asked_for_silence(h, client, topic),
{
    let s = crate::assoc::lookup_or(h.routing.no_local, client, Seq::empty());
    if h.suppressed(client, topic, publisher) {
        let i = choose|i: int| 0 <= i < s.len() && matches_topic(#[trigger] s[i], topic);
        assert(s.contains(s[i]));
        assert(flagged(h.routing.no_local, client, s[i]));
    }
    if asked_for_silence(h, client, topic) {
        let f = choose|f: Seq<char>|
            #[trigger] flagged(h.routing.no_local, client, f) && matches_topic(f, topic);
        let i = choose|i: int| 0 <= i < s.len() && s[i] == f;
        assert(matches_topic(s[i], topic));
    }
}

pub proof fn lemma_matching(h: HubView, topic: Seq<char>, client: Seq<char>)
    ensures
        matching(h.routing.table, topic).contains(client) <==> subscribes(h, client, topic),
        matching(h.routing.table, topic).no_duplicates(),
{
    let s = h.routing.table;
    crate::subscriptions::law_matching(s, topic, client);
    if matching(s, topic).contains(client) {
        let i = choose|i: int|
            0 <= i < s.len() && (#[trigger] s[i]).1 == client && matches_topic(s[i].0, topic);
        assert(s.contains((s[i].0, client)));
        assert(listens(h.routing, client, s[i].0));
    }
    if subscribes(h, client, topic) {
        let f = choose|f: Seq<char>|
            #[trigger] listens(h.routing, client, f) && matches_topic(f, topic);
        let i = choose|i: int| 0 <= i < s.len() && s[i] == (f, client);
        assert(s[i].1 == client && matches_topic(s[i].0, topic));
    }
}

pub proof fn lemma_targets_only(
    h: HubView,
    clients: Seq<Seq<char>>,
    topic: Seq<char>,
    publisher: Option<Seq<char>>,
    retain: bool,
    i: int,
)
    requires
        0 <= i < h.targets_among(clients, topic, publisher, retain).len(),
    ensures
        ({
            let t = h.targets_among(clients, topic, publisher, retain)[i];
            &&& clients.contains(t.0)
            &&& !h.suppressed(t.0, topic, publisher)
            &&& t.1 == h.granted(t.0, topic)
            &&& t.2 == (retain && h.keeps_retain(t.0, topic))
        }),
    decreases clients.len(),
{
    if clients.len() > 0 {
        let t = clients.drop_last();
        let rest = h.targets_among(t, topic, publisher, retain);
        if i < rest.len() {
            lemma_targets_only(h, t, topic, publisher, retain, i);
            let j = choose|j: int| 0 <= j < t.len() && t[j] == rest[i].0;
            assert(clients[j] == rest[i].0);
        } else {
            assert(clients[clients.len() - 1] == clients.last());
        }
    }
}

/// A fan-out is for whoever subscribes to the topic, each once, but for a publisher that asked not
/// to get its own messages back. Each gets the message with the strongest guarantee that a
/// subscription of its own admits, and with the retain flag exactly if the message was published
/// with it and the client asked for it.
pub proof fn law_fan_out(
    h: HubView,
    topic: Seq<char>,
    publisher: Option<Seq<char>>,
    retain: bool,
    client: Seq<char>,
    published: QoS,
)
    ensures
        ({
            let ts = h.targets(topic, publisher, retain);
            &&& (exists|i: int| 0 <= i < ts.len() && (#[trigger] ts[i]).0 == client) <==> subscribes(
                h,
                client,
                topic,
            ) && !(publisher == Some(client) && asked_for_silence(h, client, topic))
            &&& forall|i: int, j: int|
                0 <= i < j < ts.len() ==> (#[trigger] ts[i]).0 != (#[trigger] ts[j]).0
            &&& forall|i: int|
                0 <= i < ts.len() && (#[trigger] ts[i]).0 == client ==> (ts[i].2 <==> retain
                    && asked_for_flag(h, client, topic)) && fits(
                    h,
                    client,
                    topic,
                    published,
                    weaker(published, ts[i].1),
                )
        }),
{
    let ts = h.targets(topic, publisher, retain);
    let clients = matching(h.routing.table, topic);
    lemma_matching(h, topic, client);
    crate::reach::lemma_targets(h, clients, topic, publisher, retain, client);
    law_flag_is_kept_on_request(h, client, topic);
    law_own_messages_are_spared_on_request(h, client, topic, publisher);
    lemma_fits(h, client, topic, published);
    assert forall|i: int| 0 <= i < ts.len() && (#[trigger] ts[i]).0 == client implies clients.contains(
        client,
    ) && !h.suppressed(client, topic, publisher) && ts[i].1 == h.granted(client, topic) && ts[i].2
        == (retain && h.keeps_retain(client, topic)) by {
        lemma_targets_only(h, clients, topic, publisher, retain, i);
    }
    if clients.contains(client) && !h.suppressed(client, topic, publisher) {
        let goal = (client, h.granted(client, topic), retain && h.keeps_retain(client, topic));
        let i = choose|i: int| 0 <= i < ts.len() && ts[i] == goal;
        assert(ts[i].0 == client);
    }
}

/// Whether `e` is a PUBLISH to connection `conn` that carries this.
pub open spec fn carries(
    e: EffectView,
    conn: u64,
    topic: Seq<char>,
    payload: Seq<u8>,
    dup: bool,
    retain: bool,
    qos: QoS,
) -> bool {
    e matches EffectView::Packet {
        conn: n,
        packet: PacketView::Publish { dup: d, qos: q, retain: r, topic: t, payload: y, pkid, .. },
    } && n == conn && t == topic && y == payload && d == dup && r == retain && q == qos && (
    pkid is Some <==> qos != QoS::AtMostOnce)
}

/// Whether `e` is a PUBLISH that says `message_expiry` of the life of its message, and what the
/// application said of it.
pub open spec fn says(e: EffectView, message_expiry: Option<u32>, app: AppView) -> bool {
    e matches EffectView::Packet { packet: PacketView::Publish { properties, .. }, .. }
        && properties == packet_properties(message_expiry, app)
}

/// Whether `e` hands `job` to the lane of `client`, to be recorded.
pub open spec fn hands_over(e: EffectView, client: Seq<char>, job: JobView) -> bool {
    e == (EffectView::Lane { client, job: LaneJobView::Deliver(job) })
}

/// Whether a publish may be sent to `client` at once: the client is connected, and the message
/// neither has to be recorded for it first nor stand behind others.
pub open spec fn within_reach(h: HubView, p: PublicationView, client: Seq<char>) -> bool {
    &&& h.is_online(client)
    &&& !h.owes_durable(client, weaker(p.qos, h.granted(client, p.topic)))
    &&& !h.lane_busy(client)
    &&& goes_out(h, client, turn_of(h, p, client))
}

/// A subscriber hears a live publish in the right form: it is sent the topic and the payload that
/// were published, for the first time, with the guarantee that the publish and its subscriptions
/// allow, and with RETAIN set exactly if the message was published with it and the client asked,
/// with a filter that admits the topic, to get messages with the flag they were published with.
pub proof fn law_live_publish_keeps_its_form(
    h: HubView,
    p: PublicationView,
    publisher: Option<Seq<char>>,
    gate: Option<u64>,
    client: Seq<char>,
    o: OnlineView,
)
    requires
        subscribes(h, client, p.topic),
        !(publisher == Some(client) && asked_for_silence(h, client, p.topic)),
        lookup(h.sessions.online, client) == Some(o),
        within_reach(h, p, client),
        !(h.publishing(p, publisher, gate).1 is Refused),
    ensures
        exists|i: int, retain: bool, qos: QoS|
            0 <= i < h.publishing(p, publisher, gate).0.effects.len() && #[trigger] carries(
                h.publishing(p, publisher, gate).0.effects[i],
                o.conn_id,
                p.topic,
                p.payload,
                false,
                retain,
                qos,
            ) && says(
                h.publishing(p, publisher, gate).0.effects[i],
                p.message_expiry,
                p.app,
            ) && (retain <==> p.retain && asked_for_flag(h, client, p.topic)) && fits(
                h,
                client,
                p.topic,
                p.qos,
                qos,
            ),
{
    lemma_matching(h, p.topic, client);
    law_own_messages_are_spared_on_request(h, client, p.topic, publisher);
    law_flag_is_kept_on_request(h, client, p.topic);
    lemma_fits(h, client, p.topic, p.qos);
    crate::reach::law_subscribers_hear(h, p, publisher, gate, client, o);
    let turn = turn_of(h, p, client);
    let e = crate::reach::packet_of(o, turn, id_of_next(h, client, turn));
    let es = h.publishing(p, publisher, gate).0.effects;
    let i = choose|i: int| 0 <= i < es.len() && es[i] == e;
    let qos = weaker(p.qos, h.granted(client, p.topic));
    let retain = p.retain && h.keeps_retain(client, p.topic);
    assert(carries(es[i], o.conn_id, p.topic, p.payload, false, retain, qos));
}

/// A session that outlives its connection gets a publish in the right form too: what is handed to
/// the store is the topic, the payload and the properties that were published, with the guarantee
/// that the publish and the subscriptions of the client allow, with the retain flag exactly if the
/// message was published with it and the client asked for it, and with the end of the interval
/// that the message was published with.
pub proof fn law_recorded_publish_keeps_its_form(
    h: HubView,
    p: PublicationView,
    publisher: Option<Seq<char>>,
    gate: Option<u64>,
    client: Seq<char>,
)
    requires
        subscribes(h, client, p.topic),
        !(publisher == Some(client) && asked_for_silence(h, client, p.topic)),
        h.persistent(client),
        !h.is_online(client) || weaker(p.qos, h.granted(client, p.topic)) != QoS::AtMostOnce,
        !h.brownout,
        h.lane(client).takes_delivery(),
    ensures
        exists|i: int, job: JobView|
            0 <= i < h.publishing(p, publisher, gate).0.effects.len() && #[trigger] hands_over(
                h.publishing(p, publisher, gate).0.effects[i],
                client,
                job,
            ) && {
                &&& job.client == client
                &&& job.message.topic == p.topic
                &&& job.message.payload == p.payload
                &&& job.message.app == p.app
                &&& job.message.retain == (p.retain && asked_for_flag(h, client, p.topic))
                &&& job.retain == job.message.retain
                &&& job.message_expiry == p.message_expiry
                &&& fits(h, client, p.topic, p.qos, job.message.qos)
                &&& job.planned_conn == h.conn_of(client)
                &&& job.owed == gate_of(gate).owed()
                &&& job.work == (WorkView::Append {
                    expiry_at: match p.message_expiry {
                        Some(secs) => Some(
                            if h.now + secs > u64::MAX {
                                u64::MAX
                            } else {
                                (h.now + secs) as u64
                            },
                        ),
                        None => None,
                    },
                })
            },
{
    lemma_matching(h, p.topic, client);
    law_own_messages_are_spared_on_request(h, client, p.topic, publisher);
    law_flag_is_kept_on_request(h, client, p.topic);
    lemma_fits(h, client, p.topic, p.qos);
    crate::reach::law_sessions_are_recorded(h, p, publisher, gate, client);
    let retain = p.retain && h.keeps_retain(client, p.topic);
    let m = p.message(weaker(p.qos, h.granted(client, p.topic)), retain, h.now);
    let job = h.append_job(client, m, p.message_expiry, gate_of(gate), h.conn_of(client));
    let es = h.publishing(p, publisher, gate).0.effects;
    let e = EffectView::Lane { client, job: LaneJobView::Deliver(job) };
    let i = choose|i: int| 0 <= i < es.len() && es[i] == e;
    assert(hands_over(es[i], client, job));
}

/// Nobody else hears: a message of another node does nothing for a client that does not subscribe
/// to its topic. Nothing is sent to it, nothing waits for it, and nothing is recorded for it.
pub proof fn law_nobody_else_hears(h: HubView, publication: Publication, client: Seq<char>)
    requires
        !subscribes(h, client, publication.deep_view().topic),
    ensures
        same_for(h, h.after(HubCommand::RemotePublish { publication }), client),
{
    reveal(HubView::after);
    reveal(HubView::after_cluster);
    let p = publication.deep_view();
    lemma_unheard(h, p, None, GateView::Nobody, client);
}

proof fn lemma_unheard(
    h: HubView,
    p: PublicationView,
    publisher: Option<Seq<char>>,
    gate: GateView,
    client: Seq<char>,
)
    requires
        !subscribes(h, client, p.topic) || (publisher == Some(client) && asked_for_silence(
            h,
            client,
            p.topic,
        )),
    ensures
        same_for(h, h.applying(p, publisher, gate).0, client),
{
    law_fan_out(h, p.topic, publisher, p.retain, client, p.qos);
    let ts = h.targets(p.topic, publisher, p.retain);
    assert forall|i: int| 0 <= i < ts.len() implies (#[trigger] ts[i]).0 != client by {
        if ts[i].0 == client {
            assert(exists|j: int| 0 <= j < ts.len() && (#[trigger] ts[j]).0 == client);
        }
    }
    lemma_delivering_all_reach(h.keeping(p, gate), p, ts, gate, client);
}

proof fn lemma_sharing_spares(
    h: HubView,
    p: PublicationView,
    gate: Option<u64>,
    m: Matches,
    client: Seq<char>,
)
    requires
        forall|i: int| 0 <= i < m.len() ==> !stands_here((#[trigger] m[i]).1, client),
    ensures
        same_for(h, h.sharing_all(p, gate, m).0, client),
    decreases m.len(),
{
    if m.len() > 0 {
        let t = m.drop_last();
        assert forall|i: int| 0 <= i < t.len() implies !stands_here((#[trigger] t[i]).1, client) by {
            assert(t[i] == m[i]);
        }
        lemma_sharing_spares(h, p, gate, t, client);
        let h1 = h.sharing_all(p, gate, t).0;
        let (key, cs) = m.last();
        assert(m[m.len() - 1] == m.last());
        crate::shared::law_choice(h1.routing.shared_cursor, key, cs, h1.sessions.session_expiry);
        match h1.pick(key, cs) {
            Some(c) => {
                let i = choose|i: int| 0 <= i < cs.len() && cs[i] == c;
                match c.node {
                    None => {
                        assert(c.client != client) by {
                            if c.client == client {
                                assert(cs[i].node is None && cs[i].client == client);
                            }
                        }
                        lemma_delivering_reach(
                            h1.turning(key, cs.len()),
                            c.client,
                            p,
                            weaker(p.qos, c.qos),
                            false,
                            gate_of(gate),
                            client,
                        );
                    },
                    Some(_) => {},
                }
            },
            None => {},
        }
    }
}

/// A publish does nothing for whoever neither subscribes to its topic nor belongs to a group whose
/// filter admits it; nor, outside its groups, for a publisher that asked not to get its own
/// messages back. Nothing is sent to it, nothing waits for it, and nothing is recorded for it.
pub proof fn law_publish_spares_others(
    h: HubView,
    p: PublicationView,
    publisher: Option<Seq<char>>,
    gate: Option<u64>,
    client: Seq<char>,
)
    requires
        !subscribes(h, client, p.topic) || (publisher == Some(client) && asked_for_silence(
            h,
            client,
            p.topic,
        )),
        forall|key: KeyView|
            #[trigger] belongs(h.routing.shared, client, key) ==> !matches_topic(key.1, p.topic),
    ensures
        same_for(h, h.publishing(p, publisher, gate).0, client),
{
    lemma_unheard(h, p, publisher, gate_of(gate), client);
    let (h1, out1) = h.applying(p, publisher, gate_of(gate));
    crate::guarantees::lemma_applying_alike(h, p, publisher, gate_of(gate));
    let m = h1.shared_matches(p.topic);
    assert(h1.routing.shared == h.routing.shared);
    crate::guarantees::lemma_matches_alike(h1, h1, p.topic);
    assert forall|i: int| 0 <= i < m.len() implies !stands_here((#[trigger] m[i]).1, client) by {
        let key = m[i].0;
        crate::listening::law_members_are_candidates(h1, p.topic, client, key);
        crate::assoc::lemma_position_at(m, key, i);
        assert(candidates_of(m, key) == m[i].1);
    }
    lemma_sharing_spares(h1, p, gate, m, client);
    if !(out1 is Refused) {
        let h2 = h1.sharing_all(p, gate, m).0;
        lemma_fanning_spares(h2, p, gate);
    }
}

pub proof fn lemma_fanning_spares(h: HubView, p: PublicationView, gate: Option<u64>)
    ensures
        h.fanning_out(p, gate).sessions == h.sessions,
        h.fanning_out(p, gate).committing(p, gate).sessions == h.sessions,
{
    if gate is Some {
        lemma_forwarding_spares(h, gate->Some_0, h.cluster.interest.wanting(p.topic));
    }
}

proof fn lemma_forwarding_spares(h: HubView, id: u64, nodes: Seq<Seq<char>>)
    ensures
        h.forwarding_each(id, nodes).sessions == h.sessions,
    decreases nodes.len(),
{
    if nodes.len() > 0 {
        lemma_forwarding_spares(h, id, nodes.drop_last());
    }
}

// Retained messages.

/// Where in a replay of `messages` one of them is sent.
proof fn lemma_replay_turn(
    h: HubView,
    client: Seq<char>,
    messages: Seq<MessageView>,
    k: int,
) -> (at: HubView)
    requires
        0 <= k < messages.len(),
    ensures
        at == h.replaying(client, messages.take(k)),
        follows(
            at.to_client(
                client,
                BacklogView {
                    message: messages[k],
                    retain: true,
                    message_expiry: None,
                    offset: None,
                },
            ),
            h.replaying(client, messages),
        ),
    decreases messages.len(),
{
    let t = messages.drop_last();
    let e = |i: int|
        BacklogView { message: messages[i], retain: true, message_expiry: None, offset: None };
    let at = h.replaying(client, messages.take(k));
    if k == messages.len() - 1 {
        assert(messages.take(k) =~= t);
        lemma_follows_same(at.to_client(client, e(k)), at.to_client(client, e(k)));
    } else {
        lemma_replay_turn(h, client, t, k);
        assert(t.take(k) =~= messages.take(k));
        assert(t[k] == messages[k]);
        let h1 = h.replaying(client, t);
        lemma_to_client_reach(h1, client, e(messages.len() - 1), client);
        lemma_follows(at.to_client(client, e(k)), h1, h.replaying(client, messages));
    }
    at
}

/// Messages without a guarantee that are replayed take one place each on the connection.
proof fn lemma_replay_room(
    h: HubView,
    client: Seq<char>,
    messages: Seq<MessageView>,
    o: OnlineView,
)
    requires
        lookup(h.sessions.online, client) == Some(o),
        h.limits.max_outbound_bytes is None,
        o.queued + messages.len() <= crate::inflight::MAX_OUTBOUND_QUEUE,
        forall|i: int|
            0 <= i < messages.len() ==> (#[trigger] messages[i]).qos == QoS::AtMostOnce,
    ensures
        ({
            let r = h.replaying(client, messages);
            &&& r.limits == h.limits
            &&& lookup(r.sessions.online, client) matches Some(q) && q.conn_id == o.conn_id
                && q.queued == o.queued + messages.len()
        }),
    decreases messages.len(),
{
    broadcast use crate::assoc::lemma_lookup_put;

    if messages.len() > 0 {
        let t = messages.drop_last();
        assert forall|i: int| 0 <= i < t.len() implies (#[trigger] t[i]).qos == QoS::AtMostOnce by {
            assert(t[i] == messages[i]);
        }
        assert(messages[messages.len() - 1] == messages.last());
        lemma_replay_room(h, client, t, o);
    }
}

proof fn lemma_replay_weak(
    cache: Seq<(Seq<char>, MessageView)>,
    held: Grants,
    wishes: Seq<WishView>,
    cap: Option<usize>,
    i: int,
)
    requires
        forall|j: int| 0 <= j < wishes.len() ==> (#[trigger] wishes[j]).qos == QoS::AtMostOnce,
        0 <= i < replay(cache, held, wishes, cap).len(),
    ensures
        replay(cache, held, wishes, cap)[i].qos == QoS::AtMostOnce,
    decreases wishes.len(),
{
    if wishes.len() > 0 {
        let t = wishes.drop_last();
        assert forall|j: int| 0 <= j < t.len() implies (#[trigger] t[j]).qos == QoS::AtMostOnce by {
            assert(t[j] == wishes[j]);
        }
        assert(wishes[wishes.len() - 1] == wishes.last());
        let rest = replay(cache, held, t, cap);
        if i < rest.len() {
            lemma_replay_weak(cache, held, t, cap, i);
        }
    }
}

/// Whoever subscribes is sent what is retained, and told that it is: for each filter that a
/// connected client is granted without a guarantee, outside the shared groups, the message that is
/// kept for a topic that the filter admits is sent to it with its payload and with RETAIN set. The
/// connection is not so far behind that anything is shed.
pub proof fn law_retained_is_sent_as_retained(
    h: HubView,
    client: ClientId,
    wishes: Vec<Wish>,
    reply: Option<u64>,
    stored: bool,
    i: int,
    m: MessageView,
    k: int,
    o: OnlineView,
)
    requires
        !h.persistent(client.deep_view()) || stored,
        lookup(h.sessions.online, client.deep_view()) == Some(o),
        0 <= i < wishes.deep_view().len(),
        verdicts(
            h.routing.grants(client.deep_view()),
            wishes.deep_view(),
            h.quotas.max_subscriptions_per_client,
        )[i],
        share_parts(wishes.deep_view()[i].filter) is None,
        forall|j: int|
            0 <= j < wishes.deep_view().len() ==> (#[trigger] wishes.deep_view()[j]).qos
                == QoS::AtMostOnce,
        0 <= k < h.retained.cache.len(),
        h.retained.cache[k] == (m.topic, m),
        matches_topic(wishes.deep_view()[i].filter, m.topic),
        h.limits.max_outbound_bytes is None,
        o.queued + replay(
            h.retained.cache,
            h.routing.grants(client.deep_view()),
            wishes.deep_view(),
            h.quotas.max_subscriptions_per_client,
        ).len() <= crate::inflight::MAX_OUTBOUND_QUEUE,
    ensures
        exists|n: int|
            0 <= n < h.after(HubCommand::Subscribe { client, wishes, reply, stored }).effects.len()
                && #[trigger] carries(
                h.after(HubCommand::Subscribe { client, wishes, reply, stored }).effects[n],
                o.conn_id,
                m.topic,
                m.payload,
                false,
                true,
                QoS::AtMostOnce,
            ),
{
    reveal(HubView::after);
    let r = h.after(HubCommand::Subscribe { client, wishes, reply, stored });
    let c = client.deep_view();
    let ws = wishes.deep_view();
    let cap = h.quotas.max_subscriptions_per_client;
    let held = h.routing.grants(c);
    let ms = replay(h.retained.cache, held, ws, cap);
    crate::listening::lemma_verdict(held, ws, cap, i);
    crate::reach::lemma_retained_for(h.retained.cache, ws[i].filter, m, k);
    crate::reach::law_retained_is_replayed(h.retained.cache, held, ws, cap, i, m);
    let goal = as_retained(m, ws[i].qos);
    let j = choose|j: int| 0 <= j < ms.len() && ms[j] == goal;
    let h1 = h.with_routing(h.routing.granting(c, held, ws, cap)).granted_to(
        reply,
        verdicts(held, ws, cap),
    ).gossiping();
    assert(r == h1.replaying(c, ms));
    let at = lemma_replay_turn(h1, c, ms, j);
    let t = ms.take(j);
    assert forall|a: int| 0 <= a < t.len() implies (#[trigger] t[a]).qos == QoS::AtMostOnce by {
        lemma_replay_weak(h.retained.cache, held, ws, cap, a);
    }
    lemma_replay_weak(h.retained.cache, held, ws, cap, j);
    lemma_replay_room(h1, c, t, o);
    let e = BacklogView { message: ms[j], retain: true, message_expiry: None, offset: None };
    let sent = at.to_client(c, e);
    let n = at.effects.len() as int;
    let packet = sent.effects[n];
    assert(sent.effects == at.effects.push(packet));
    assert(carries(packet, o.conn_id, m.topic, m.payload, false, true, QoS::AtMostOnce));
    assert(sent.effects.contains(packet));
    lemma_follows_contains(sent, r, packet);
    let a = choose|a: int| 0 <= a < r.effects.len() && r.effects[a] == packet;
    assert(carries(r.effects[a], o.conn_id, m.topic, m.payload, false, true, QoS::AtMostOnce));
}

/// With a guarantee too: the first message that is replayed to a client that may hold one more is
/// sent with RETAIN set, for the first time, no stronger than it was kept and than was granted.
pub proof fn law_first_retained_is_sent_as_retained(
    h: HubView,
    client: ClientId,
    wishes: Vec<Wish>,
    reply: Option<u64>,
    stored: bool,
    o: OnlineView,
)
    requires
        !h.persistent(client.deep_view()) || stored,
        lookup(h.sessions.online, client.deep_view()) == Some(o),
        replay(
            h.retained.cache,
            h.routing.grants(client.deep_view()),
            wishes.deep_view(),
            h.quotas.max_subscriptions_per_client,
        ).len() > 0,
        ({
            let first = replay(
                h.retained.cache,
                h.routing.grants(client.deep_view()),
                wishes.deep_view(),
                h.quotas.max_subscriptions_per_client,
            )[0];
            goes_out(
                h,
                client.deep_view(),
                BacklogView { message: first, retain: true, message_expiry: None, offset: None },
            )
        }),
    ensures
        ({
            let first = replay(
                h.retained.cache,
                h.routing.grants(client.deep_view()),
                wishes.deep_view(),
                h.quotas.max_subscriptions_per_client,
            )[0];
            exists|n: int|
                0 <= n < h.after(
                    HubCommand::Subscribe { client, wishes, reply, stored },
                ).effects.len() && #[trigger] carries(
                    h.after(HubCommand::Subscribe { client, wishes, reply, stored }).effects[n],
                    o.conn_id,
                    first.topic,
                    first.payload,
                    false,
                    true,
                    first.qos,
                )
        }),
{
    reveal(HubView::after);
    let r = h.after(HubCommand::Subscribe { client, wishes, reply, stored });
    let c = client.deep_view();
    let ws = wishes.deep_view();
    let cap = h.quotas.max_subscriptions_per_client;
    let held = h.routing.grants(c);
    let ms = replay(h.retained.cache, held, ws, cap);
    let h1 = h.with_routing(h.routing.granting(c, held, ws, cap)).granted_to(
        reply,
        verdicts(held, ws, cap),
    ).gossiping();
    assert(r == h1.replaying(c, ms));
    let at = lemma_replay_turn(h1, c, ms, 0);
    assert(at == h1);
    let e = BacklogView { message: ms[0], retain: true, message_expiry: None, offset: None };
    let sent = at.to_client(c, e);
    let n = at.effects.len() as int;
    let packet = sent.effects[n];
    assert(at.inf(c) == h.inf(c));
    assert(sent.effects == at.effects.push(packet));
    assert(carries(packet, o.conn_id, ms[0].topic, ms[0].payload, false, true, ms[0].qos));
    assert(sent.effects.contains(packet));
    lemma_follows_contains(sent, r, packet);
    let a = choose|a: int| 0 <= a < r.effects.len() && r.effects[a] == packet;
    assert(carries(r.effects[a], o.conn_id, ms[0].topic, ms[0].payload, false, true, ms[0].qos));
}

/// Nothing is replayed that was not asked for: every message that is replayed is kept for a topic
/// that a granted filter outside the shared groups admits, and is no stronger than it was kept and
/// than was granted.
pub proof fn law_only_wished_is_replayed(
    cache: Seq<(Seq<char>, MessageView)>,
    held: Grants,
    wishes: Seq<WishView>,
    cap: Option<usize>,
    i: int,
)
    requires
        0 <= i < replay(cache, held, wishes, cap).len(),
    ensures
        exists|j: int, k: int|
            0 <= j < wishes.len() && 0 <= k < cache.len() && verdicts(held, wishes, cap)[j]
                && share_parts((#[trigger] wishes[j]).filter) is None && matches_topic(
                wishes[j].filter,
                (#[trigger] cache[k]).0,
            ) && {
                let m = replay(cache, held, wishes, cap)[i];
                &&& m.topic == cache[k].1.topic
                &&& m.payload == cache[k].1.payload
                &&& level(m.qos) <= level(cache[k].1.qos)
                &&& level(m.qos) <= level(wishes[j].qos)
            },
    decreases wishes.len(),
{
    if wishes.len() > 0 {
        let t = wishes.drop_last();
        let w = wishes.last();
        let rest = replay(cache, held, t, cap);
        let all = replay(cache, held, wishes, cap);
        let last = wishes.len() - 1;
        assert(wishes[last] == w);
        crate::listening::lemma_verdict(held, wishes, cap, last);
        assert(wishes.take(last) =~= t);
        if i < rest.len() {
            assert(all[i] == rest[i]);
            law_only_wished_is_replayed(cache, held, t, cap, i);
            let (j, k) = choose|j: int, k: int|
                0 <= j < t.len() && 0 <= k < cache.len() && verdicts(held, t, cap)[j]
                    && share_parts((#[trigger] t[j]).filter) is None && matches_topic(
                    t[j].filter,
                    (#[trigger] cache[k]).0,
                ) && {
                    let m = rest[i];
                    &&& m.topic == cache[k].1.topic
                    &&& m.payload == cache[k].1.payload
                    &&& level(m.qos) <= level(cache[k].1.qos)
                    &&& level(m.qos) <= level(t[j].qos)
                };
            assert(wishes[j] == t[j]);
            crate::listening::lemma_verdict(held, t, cap, j);
            crate::listening::lemma_verdict(held, wishes, cap, j);
            assert(t.take(j) =~= wishes.take(j));
            assert(matches_topic(wishes[j].filter, cache[k].0));
        } else {
            let found = crate::retained::retained_for(cache, w.filter);
            let a = i - rest.len();
            let k = lemma_found_is_kept(cache, w.filter, a);
            assert(all[i] == as_retained(found[a], w.qos));
            assert(matches_topic(wishes[last].filter, cache[k].0));
        }
    }
}

proof fn lemma_found_is_kept(
    cache: Seq<(Seq<char>, MessageView)>,
    filter: Seq<char>,
    i: int,
) -> (k: int)
    requires
        0 <= i < crate::retained::retained_for(cache, filter).len(),
    ensures
        0 <= k < cache.len(),
        cache[k].1 == crate::retained::retained_for(cache, filter)[i],
        matches_topic(filter, cache[k].0),
    decreases cache.len(),
{
    let t = cache.drop_last();
    let rest = crate::retained::retained_for(t, filter);
    if i < rest.len() {
        let k = lemma_found_is_kept(t, filter, i);
        assert(cache[k] == t[k]);
        k
    } else {
        cache.len() - 1
    }
}

} // verus!
