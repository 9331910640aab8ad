//! What the nodes of a cluster do for each other: what a link, its loss and the death of a node
//! change, who is sent what, and how changes of retained messages find their owner.

use vstd::prelude::*;

use crate::assoc::{bound, lookup};
use crate::cluster::{Peer, PeerView};
use crate::dispatch::HubCommand;
use crate::effects::EffectView;
use crate::forwarding::{fan_frames, gate_of, owes, reroutable};
use crate::hub::HubView;
use crate::ids::{ClientId, NodeId};
use crate::ledger::PendingView;
use crate::message::{Publication, PublicationView};
use crate::qos::{level, of_level, weaker, QoS};
use crate::reach::same_for;
use crate::session::OnlineView;
use crate::shared::{CandidateView, KeyView};
use crate::topic::matches_topic;
use crate::wire::{FrameView, WirePublicationView};

verus! {

/// Whether `w` carries `p` under guarantee `qos`.
pub open spec fn travels_as(
    w: WirePublicationView,
    p: PublicationView,
    qos: QoS,
    retain: bool,
) -> bool {
    &&& w.topic == p.topic
    &&& w.payload == p.payload
    &&& of_level(w.qos) == qos
    &&& w.retain == retain
    &&& w.message_expiry == p.message_expiry
    &&& w.app == p.app
}

/// What a node wants is what it told last: a publish goes to it exactly if one of its filters
/// admits the topic. What other nodes want stays as it is.
pub proof fn law_interest_is_what_was_told(
    h: HubView,
    node: NodeId,
    filters: Vec<String>,
    topic: Seq<char>,
    other: Seq<char>,
)
    ensures
        ({
            let n = node.deep_view();
            let r = h.after(HubCommand::RemoteInterest { node, filters });
            let fs = filters.deep_view();
            &&& r.cluster.interest.wanting(topic).contains(n) <==> exists|i: int|
                0 <= i < fs.len() && matches_topic(#[trigger] fs[i], topic)
            &&& other != n ==> (r.cluster.interest.wanting(topic).contains(other)
                <==> h.cluster.interest.wanting(topic).contains(other))
            &&& r.cluster.peers == h.cluster.peers
            &&& r.effects == h.effects
        }),
{
    reveal(HubView::after);
    reveal(HubView::after_cluster);
    crate::interest::law_replace(
        h.cluster.interest,
        node.deep_view(),
        filters.deep_view(),
        topic,
        other,
    );
}

proof fn lemma_fan(
    peers: Seq<(Seq<char>, PeerView)>,
    wanting: Seq<Seq<char>>,
    gated: bool,
    to_all: bool,
    frame: FrameView,
    node: Seq<char>,
)
    ensures
        ({
            let e = EffectView::Frame { node, frame };
            fan_frames(peers, wanting, gated, to_all, frame).contains(e) <==> bound(peers, node)
                && (to_all || wanting.contains(node)) && !(gated && wanting.contains(node))
        }),
        forall|i: int|
            0 <= i < fan_frames(peers, wanting, gated, to_all, frame).len() ==> (
            #[trigger] fan_frames(peers, wanting, gated, to_all, frame)[i]) is Frame,
    decreases peers.len(),
{
    let all = fan_frames(peers, wanting, gated, to_all, frame);
    let e = EffectView::Frame { node, frame };
    crate::assoc::lemma_position(peers, node);
    if peers.len() > 0 {
        let t = peers.drop_last();
        let rest = fan_frames(t, wanting, gated, to_all, frame);
        lemma_fan(t, wanting, gated, to_all, frame, node);
        crate::assoc::lemma_position(t, node);
        let last = peers.last();
        assert(peers[peers.len() - 1] == last);
        if bound(peers, node) && last.0 != node {
            let n = crate::assoc::position(peers, node);
            assert(t[n].0 == node);
        }
        if bound(t, node) {
            let n = crate::assoc::position(t, node);
            assert(peers[n].0 == node);
        }
        if all.contains(e) {
            let i = choose|i: int| 0 <= i < all.len() && all[i] == e;
            if i < rest.len() {
                assert(rest[i] == e);
            }
        }
        if rest.contains(e) {
            let i = choose|i: int| 0 <= i < rest.len() && rest[i] == e;
            assert(all[i] == e);
        }
        if all.len() > rest.len() && last.0 == node {
            assert(all[rest.len() as int] == e);
        }
    }
}

/// A publish that nobody waits for is sent to a linked node exactly if the node wants its topic, or
/// if it is retained and every node keeps what it hears. It carries what was published.
pub proof fn law_nodes_hear_what_they_want(h: HubView, p: PublicationView, node: Seq<char>)
    ensures
        ({
            let r = h.fanning_out(p, None);
            let sent = exists|i: int|
                h.effects.len() <= i < r.effects.len() && sends_on(#[trigger] r.effects[i], node, p);
            sent <==> bound(h.cluster.peers, node) && (h.cluster.interest.wanting(p.topic).contains(
                node,
            ) || (p.retain && !h.retained.durable))
        }),
{
    let r = h.fanning_out(p, None);
    let wanting = h.cluster.interest.wanting(p.topic);
    let to_all = p.retain && !h.retained.durable;
    let w = crate::wire::on_wire(p, p.qos, p.retain);
    let frame = FrameView::Publish(w);
    let e = EffectView::Frame { node, frame };
    let frames = fan_frames(h.cluster.peers, wanting, false, to_all, frame);
    lemma_fan(h.cluster.peers, wanting, false, to_all, frame, node);
    crate::qos::law_level_reads_back(p.qos);
    assert(travels_as(w, p, p.qos, p.retain));
    if !to_all && wanting.len() == 0 {
        assert(r.effects == h.effects);
    } else {
        assert(r.effects == h.effects + frames);
        if frames.contains(e) {
            let i = choose|i: int| 0 <= i < frames.len() && frames[i] == e;
            assert(r.effects[h.effects.len() + i] == e);
            assert(sends_on(r.effects[h.effects.len() + i], node, p));
        }
        assert forall|i: int|
            h.effects.len() <= i < r.effects.len() && sends_on(
                #[trigger] r.effects[i],
                node,
                p,
            ) implies frames.contains(e) by {
            let k = i - h.effects.len();
            lemma_fan_same(h.cluster.peers, wanting, false, to_all, frame, k);
            assert(frames[k] == r.effects[i]);
        }
    }
}

/// Whether `e` sends `p` to `node` as it was published, not to be answered.
pub open spec fn sends_on(e: EffectView, node: Seq<char>, p: PublicationView) -> bool {
    e matches EffectView::Frame { node: n, frame: FrameView::Publish(w) } && n == node
        && travels_as(w, p, p.qos, p.retain)
}

proof fn lemma_fan_same(
    peers: Seq<(Seq<char>, PeerView)>,
    wanting: Seq<Seq<char>>,
    gated: bool,
    to_all: bool,
    frame: FrameView,
    i: int,
)
    requires
        0 <= i < fan_frames(peers, wanting, gated, to_all, frame).len(),
    ensures
        fan_frames(peers, wanting, gated, to_all, frame)[i] matches EffectView::Frame {
            frame: f,
            ..
        } && f == frame,
    decreases peers.len(),
{
    if peers.len() > 0 {
        let rest = fan_frames(peers.drop_last(), wanting, gated, to_all, frame);
        if i < rest.len() {
            lemma_fan_same(peers.drop_last(), wanting, gated, to_all, frame, i);
        }
    }
}

// Links.

/// A new link is known, its node is told at once what this node wants and which groups it has,
/// and no other link is touched.
pub proof fn law_link_is_greeted(
    h: HubView,
    node: NodeId,
    peer: Peer,
    ids: Vec<(u64, u64)>,
    other: Seq<char>,
)
    ensures
        ({
            let n = node.deep_view();
            let r = h.after(HubCommand::PeerConnected { node, peer, ids });
            &&& lookup(r.cluster.peers, other) == if other == n {
                Some(peer.deep_view())
            } else {
                lookup(h.cluster.peers, other)
            }
            &&& r.effects.contains(
                EffectView::Frame {
                    node: n,
                    frame: FrameView::Interest { filters: h.local_interest() },
                },
            )
            &&& r.effects.contains(
                EffectView::Frame {
                    node: n,
                    frame: FrameView::SharedInterest { groups: h.local_groups() },
                },
            )
            &&& r.sessions == h.sessions
            &&& r.routing == h.routing
        }),
{
    broadcast use crate::assoc::lemma_lookup_put;

    reveal(HubView::after);
    reveal(HubView::after_cluster);
    let n = node.deep_view();
    let r = h.after(HubCommand::PeerConnected { node, peer, ids });
    let at = h.effects.len() as int;
    assert(r.effects[at] == (EffectView::Frame {
        node: n,
        frame: FrameView::Interest { filters: h.local_interest() },
    }));
    assert(r.effects[at + 1] == (EffectView::Frame {
        node: n,
        frame: FrameView::SharedInterest { groups: h.local_groups() },
    }));
}

/// A lost link is closed and known no more, and the members of groups on its node are not chosen
/// from while it is gone. What the node wants and what it owes stay as they are: it may come back.
/// A change that it was handed waits here again, before all others.
pub proof fn law_lost_link(
    h: HubView,
    node: NodeId,
    conn_id: u64,
    p: PeerView,
    other: Seq<char>,
)
    requires
        lookup(h.cluster.peers, node.deep_view()) == Some(p),
        p.conn_id == conn_id,
    ensures
        ({
            let n = node.deep_view();
            let r = h.after(HubCommand::PeerDisconnected { node, conn_id });
            &&& lookup(r.cluster.peers, other) == if other == n {
                None
            } else {
                lookup(h.cluster.peers, other)
            }
            &&& lookup(r.cluster.remote_shared, other) == if other == n {
                None
            } else {
                lookup(h.cluster.remote_shared, other)
            }
            &&& r.cluster.interest == h.cluster.interest
            &&& r.ledger == h.ledger
            &&& r.sessions == h.sessions
            &&& r.retained.cache == h.retained.cache
            &&& r.effects == h.effects.push(EffectView::CloseLink { node: n })
            &&& match h.retained.handoff {
                Some((owner, _, m)) => if owner == n {
                    r.retained.handoff is None && r.retained.queue == seq![m] + h.retained.queue
                } else {
                    r.retained.handoff == h.retained.handoff && r.retained.queue
                        == h.retained.queue
                },
                None => r.retained.handoff is None && r.retained.queue == h.retained.queue,
            }
        }),
{
    broadcast use crate::assoc::lemma_lookup_cut;

    reveal(HubView::after);
    reveal(HubView::after_cluster);
}

/// A dead node is linked no more, wants nothing, has no member of a group, and was handed nothing;
/// its sessions may turn up elsewhere, which is waited for. Nothing changes for any other node.
pub proof fn law_dead_node(h: HubView, node: NodeId, other: Seq<char>, topic: Seq<char>)
    ensures
        ({
            let n = node.deep_view();
            let r = h.after(HubCommand::PeerDead { node });
            &&& lookup(r.cluster.peers, other) == if other == n {
                None
            } else {
                lookup(h.cluster.peers, other)
            }
            &&& lookup(r.cluster.remote_shared, other) == if other == n {
                None
            } else {
                lookup(h.cluster.remote_shared, other)
            }
            &&& r.cluster.interest.wanting(topic).contains(other) <==> other != n
                && h.cluster.interest.wanting(topic).contains(other)
            &&& r.cluster.takeover_ticks > 0
            &&& r.sessions == h.sessions
            &&& r.effects == if bound(h.cluster.peers, n) {
                h.effects.push(EffectView::CloseLink { node: n })
            } else {
                h.effects
            }
            &&& r.retained.handoff matches Some(x) ==> x.0 != n
        }),
{
    broadcast use crate::assoc::lemma_lookup_cut;

    reveal(HubView::after);
    reveal(HubView::after_cluster);
    crate::interest::law_remove(h.cluster.interest, node.deep_view(), topic, other);
}

// Shared groups.

/// A group serves one: of its members on this node only the one whose turn it is can be sent a
/// message; a member that another node has is sent it through that node, with no retain flag and no
/// stronger than was published and granted.
pub proof fn law_group_serves_one(
    h: HubView,
    p: PublicationView,
    key: KeyView,
    candidates: Seq<CandidateView>,
    c: CandidateView,
    d: Seq<char>,
)
    requires
        h.pick(key, candidates) == Some(c),
    ensures
        ({
            let r = h.sharing(p, None, key, candidates).0;
            &&& c.node is Some || d != c.client ==> same_for(h, r, d)
            &&& c.node matches Some(node) ==> bound(h.cluster.peers, node) ==> r.effects.len()
                == h.effects.len() + 1 && (r.effects.last() matches EffectView::Frame {
                node: to,
                frame: FrameView::SharedDeliver { client, publication },
            } && to == node && client == c.client && (exists|qos: QoS| #[trigger]
                travels_as(publication, p, qos, false) && level(qos) <= level(p.qos) && level(qos)
                    <= level(c.qos) && (qos == p.qos || qos == c.qos)))
        }),
{
    let turned = h.turning(key, candidates.len());
    let qos = weaker(p.qos, c.qos);
    crate::qos::law_level_reads_back(qos);
    match c.node {
        None => {
            crate::reach::lemma_delivering_reach(
                turned,
                c.client,
                p,
                qos,
                false,
                gate_of(None),
                d,
            );
        },
        Some(node) => {
            assert(travels_as(crate::wire::on_wire(p, qos, false), p, qos, false));
        },
    }
}

/// The member whose turn it is is served: where it is connected here and can be reached, it is
/// sent the message at once, with no retain flag and no stronger than was published and granted.
pub proof fn law_group_member_hears(
    h: HubView,
    p: PublicationView,
    key: KeyView,
    candidates: Seq<CandidateView>,
    c: CandidateView,
    o: OnlineView,
)
    requires
        h.pick(key, candidates) == Some(c),
        c.node is None,
        lookup(h.sessions.online, c.client) == Some(o),
        !h.owes_durable(c.client, weaker(p.qos, c.qos)),
        !h.lane_busy(c.client),
        ({
            let m = p.message(weaker(p.qos, c.qos), false, h.now);
            crate::reach::goes_out(
                h,
                c.client,
                crate::inflight::BacklogView {
                    message: m,
                    retain: false,
                    message_expiry: p.message_expiry,
                    offset: None,
                },
            )
        }),
    ensures
        ({
            let r = h.sharing(p, None, key, candidates).0;
            exists|i: int, qos: QoS|
                h.effects.len() <= i < r.effects.len() && #[trigger] crate::hearing::carries(
                    r.effects[i],
                    o.conn_id,
                    p.topic,
                    p.payload,
                    false,
                    false,
                    qos,
                ) && level(qos) <= level(p.qos) && level(qos) <= level(c.qos) && (qos == p.qos
                    || qos == c.qos)
        }),
{
    let r = h.sharing(p, None, key, candidates).0;
    let qos = weaker(p.qos, c.qos);
    assert(bound(h.sessions.online, c.client) == lookup(h.sessions.online, c.client) is Some);
    let i = h.effects.len() as int;
    assert(r.effects.len() == i + 1);
    assert(crate::hearing::carries(
        r.effects[i],
        o.conn_id,
        p.topic,
        p.payload,
        false,
        false,
        qos,
    ));
}

/// A member that another node chose is served here: connected and in reach, it is sent the message
/// at once, under the guarantee it came with and with no retain flag. Nobody else is.
pub proof fn law_chosen_member_hears(
    h: HubView,
    client: ClientId,
    publication: Publication,
    o: OnlineView,
    d: Seq<char>,
)
    requires
        lookup(h.sessions.online, client.deep_view()) == Some(o),
        !h.owes_durable(client.deep_view(), publication.deep_view().qos),
        !h.lane_busy(client.deep_view()),
        ({
            let p = publication.deep_view();
            crate::reach::goes_out(
                h,
                client.deep_view(),
                crate::inflight::BacklogView {
                    message: p.message(p.qos, false, h.now),
                    retain: false,
                    message_expiry: p.message_expiry,
                    offset: None,
                },
            )
        }),
    ensures
        ({
            let p = publication.deep_view();
            let r = h.after(HubCommand::RemoteSharedDeliver { client, publication });
            &&& r.effects.len() == h.effects.len() + 1
            &&& crate::hearing::carries(
                r.effects.last(),
                o.conn_id,
                p.topic,
                p.payload,
                false,
                false,
                p.qos,
            )
            &&& d != client.deep_view() ==> same_for(h, r, d)
        }),
{
    reveal(HubView::after);
    reveal(HubView::after_cluster);
    let c = client.deep_view();
    let p = publication.deep_view();
    assert(bound(h.sessions.online, c) == lookup(h.sessions.online, c) is Some);
    crate::reach::lemma_delivering_reach(
        h,
        c,
        p,
        p.qos,
        false,
        crate::lanes::GateView::Nobody,
        d,
    );
}

/// What the groups of a node are is what it told last; those of other nodes stay as they are.
pub proof fn law_groups_are_what_was_told(
    h: HubView,
    node: NodeId,
    groups: Vec<crate::shared::RemoteSharedGroup>,
    other: Seq<char>,
)
    ensures
        ({
            let r = h.after(HubCommand::RemoteSharedInterest { node, groups });
            &&& lookup(r.cluster.remote_shared, other) == if other == node.deep_view() {
                Some(groups.deep_view())
            } else {
                lookup(h.cluster.remote_shared, other)
            }
            &&& r.effects == h.effects
            &&& r.sessions == h.sessions
        }),
{
    reveal(HubView::after);
    reveal(HubView::after_cluster);
    crate::assoc::lemma_lookup_ranked::<NodeId, Seq<crate::shared::RemoteGroupView>>(
        h.cluster.remote_shared,
        node.deep_view(),
        groups.deep_view(),
        other,
    );
}

// Publishes that may have missed somebody.

/// Whoever may have missed a publish gets it again, and nobody else: a subscriber that is not
/// connected, or connected after the publish was taken in, under its own grants and with no retain
/// flag.
pub proof fn law_latecomers(
    h: HubView,
    clients: Seq<Seq<char>>,
    topic: Seq<char>,
    since: u64,
    client: Seq<char>,
)
    ensures
        ({
            let ts = h.late_targets(clients, topic, since);
            &&& (exists|i: int| 0 <= i < ts.len() && (#[trigger] ts[i]).0 == client)
                <==> clients.contains(client) && (lookup(h.sessions.online, client) matches Some(o)
                ==> o.attached_at > since)
            &&& forall|i: int|
                0 <= i < ts.len() ==> !(#[trigger] ts[i]).2 && ts[i].1 == h.granted(ts[i].0, topic)
        }),
    decreases clients.len(),
{
    let ts = h.late_targets(clients, topic, since);
    if clients.len() > 0 {
        let t = clients.drop_last();
        let rest = h.late_targets(t, topic, since);
        law_latecomers(h, t, topic, since, client);
        assert(clients[clients.len() - 1] == clients.last());
        if clients.contains(client) && clients.last() != client {
            let i = choose|i: int| 0 <= i < clients.len() && clients[i] == client;
            assert(t[i] == client);
        }
        if t.contains(client) {
            let i = choose|i: int| 0 <= i < t.len() && t[i] == client;
            assert(clients[i] == client);
        }
        if exists|i: int| 0 <= i < rest.len() && (#[trigger] rest[i]).0 == client {
            let i = choose|i: int| 0 <= i < rest.len() && (#[trigger] rest[i]).0 == client;
            assert(ts[i].0 == client);
        }
        if exists|i: int| 0 <= i < ts.len() && (#[trigger] ts[i]).0 == client {
            let i = choose|i: int| 0 <= i < ts.len() && (#[trigger] ts[i]).0 == client;
            if i < rest.len() {
                assert(rest[i].0 == client);
            }
        }
        if ts.len() > rest.len() && clients.last() == client {
            assert(ts[rest.len() as int].0 == client);
        }
    }
}

/// A latecomer hears: a subscriber that connected after a publish was taken in is sent it once
/// routing has settled on it, if it can be reached, with no retain flag.
pub proof fn law_latecomer_hears(
    h: HubView,
    id: u64,
    e: PendingView,
    client: Seq<char>,
    o: OnlineView,
)
    requires
        lookup(h.ledger.entries, id) == Some(e),
        crate::hearing::subscribes(h, client, e.publication.topic),
        lookup(h.sessions.online, client) == Some(o),
        o.attached_at > e.created_at,
        !h.owes_durable(
            client,
            weaker(e.publication.qos, h.granted(client, e.publication.topic)),
        ),
        !h.lane_busy(client),
        ({
            let p = e.publication;
            crate::reach::goes_out(
                h,
                client,
                crate::inflight::BacklogView {
                    message: p.message(
                        weaker(p.qos, h.granted(client, p.topic)),
                        false,
                        h.now,
                    ),
                    retain: false,
                    message_expiry: p.message_expiry,
                    offset: None,
                },
            )
        }),
    ensures
        ({
            let p = e.publication;
            let r = h.redelivering(id).0;
            exists|i: int, qos: QoS|
                0 <= i < r.effects.len() && #[trigger] crate::hearing::carries(
                    r.effects[i],
                    o.conn_id,
                    p.topic,
                    p.payload,
                    false,
                    false,
                    qos,
                ) && crate::hearing::fits(h, client, p.topic, p.qos, qos)
        }),
{
    let p = e.publication;
    let clients = crate::subscriptions::matching(h.routing.table, p.topic);
    let ts = h.late_targets(clients, p.topic, e.created_at);
    let g = crate::lanes::GateView::Pending(id);
    crate::hearing::lemma_matching(h, p.topic, client);
    crate::hearing::lemma_fits(h, client, p.topic, p.qos);
    law_latecomers(h, clients, p.topic, e.created_at, client);
    lemma_late_once(h, clients, p.topic, e.created_at);
    let i = choose|i: int| 0 <= i < ts.len() && (#[trigger] ts[i]).0 == client;
    let at = crate::reach::lemma_reached(h, p, ts, g, i);
    let qos = weaker(p.qos, h.granted(client, p.topic));
    let m = p.message(qos, false, h.now);
    let entry = crate::inflight::BacklogView {
        message: m,
        retain: false,
        message_expiry: p.message_expiry,
        offset: None,
    };
    assert(ts[i] == (client, h.granted(client, p.topic), false));
    assert(bound(at.sessions.online, client) == lookup(at.sessions.online, client) is Some);
    assert(at.is_online(client));
    assert(at.persistent(client) == h.persistent(client));
    assert(at.inf(client) == h.inf(client));
    let sent = at.delivering(client, p, qos, false, g).0;
    assert(sent == at.to_client(client, entry));
    let n = at.effects.len() as int;
    let packet = sent.effects[n];
    assert(sent.effects == at.effects.push(packet));
    assert(crate::hearing::carries(
        packet,
        o.conn_id,
        p.topic,
        p.payload,
        false,
        false,
        qos,
    ));
    assert(sent.effects.contains(packet));
    let r = h.redelivering(id).0;
    crate::reach::lemma_follows_contains(sent, r, packet);
    let k = choose|k: int| 0 <= k < r.effects.len() && r.effects[k] == packet;
    assert(crate::hearing::carries(
        r.effects[k],
        o.conn_id,
        p.topic,
        p.payload,
        false,
        false,
        qos,
    ));
}

proof fn lemma_late_once(h: HubView, clients: Seq<Seq<char>>, topic: Seq<char>, since: u64)
    requires
        clients.no_duplicates(),
    ensures
        ({
            let ts = h.late_targets(clients, topic, since);
            forall|a: int, b: int|
                0 <= a < b < ts.len() ==> (#[trigger] ts[a]).0 != (#[trigger] ts[b]).0
        }),
    decreases clients.len(),
{
    let ts = h.late_targets(clients, topic, since);
    if clients.len() > 0 {
        let t = clients.drop_last();
        assert(t.no_duplicates());
        lemma_late_once(h, t, topic, since);
        let rest = h.late_targets(t, topic, since);
        assert forall|a: int, b: int| 0 <= a < b < ts.len() implies (#[trigger] ts[a]).0 != (
        #[trigger] ts[b]).0 by {
            assert(ts[a] == rest[a]);
            if b < rest.len() {
                assert(ts[b] == rest[b]);
            } else {
                law_latecomers(h, t, topic, since, rest[a].0);
                assert(rest[a].0 == rest[a].0);
                assert(t.contains(rest[a].0));
                let k = choose|k: int| 0 <= k < t.len() && t[k] == rest[a].0;
                assert(clients[k] == rest[a].0);
                assert(clients[clients.len() - 1] == clients.last());
            }
        }
    }
}

/// A publish is forwarded once more to a linked node exactly if the node wants it, has not
/// acknowledged it, and does not owe an answer about it already.
pub proof fn law_rerouted(
    peers: Seq<(Seq<char>, PeerView)>,
    p: PendingView,
    wanting: Seq<Seq<char>>,
    node: Seq<char>,
)
    ensures
        reroutable(peers, p, wanting).contains(node) <==> bound(peers, node) && wanting.contains(
            node,
        ) && !p.acked_nodes.contains(node) && !(exists|i: int|
            0 <= i < p.awaiting.len() && (#[trigger] p.awaiting[i]).1.node == node),
    decreases peers.len(),
{
    let all = reroutable(peers, p, wanting);
    crate::assoc::lemma_position(peers, node);
    assert(owes(p.awaiting, node) == exists|i: int|
        0 <= i < p.awaiting.len() && (#[trigger] p.awaiting[i]).1.node == node);
    if peers.len() > 0 {
        let t = peers.drop_last();
        let rest = reroutable(t, p, wanting);
        law_rerouted(t, p, wanting, node);
        crate::assoc::lemma_position(t, node);
        assert(peers[peers.len() - 1] == peers.last());
        if bound(peers, node) && peers.last().0 != node {
            assert(t[crate::assoc::position(peers, node)].0 == node);
        }
        if bound(t, node) {
            assert(peers[crate::assoc::position(t, node)].0 == node);
        }
        if all.contains(node) {
            let i = choose|i: int| 0 <= i < all.len() && all[i] == node;
            if i < rest.len() {
                assert(rest[i] == node);
            }
        }
        if rest.contains(node) {
            let i = choose|i: int| 0 <= i < rest.len() && rest[i] == node;
            assert(all[i] == node);
        }
        if all.len() > rest.len() && peers.last().0 == node {
            assert(all[rest.len() as int] == node);
        }
    }
}

} // verus!
