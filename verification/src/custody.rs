//! What becomes of retained messages that a cluster commits: who commits a change, how it is handed
//! over, and who is told once it is committed; and which retained messages are one too many.

use vstd::prelude::*;

use crate::assoc::{bound, lookup};
use crate::dispatch::HubCommand;
use crate::effects::EffectView;
use crate::hub::HubView;
use crate::ids::{ClientId, NodeId};
use crate::message::{Publication, PublicationView};
use crate::outcome::PublishOutcome;
use crate::qos::of_level;
use crate::retained::{MutationView, RetainedMutation, RetainedStateView};
use crate::wire::FrameView;

verus! {

/// The first change that waits goes where it belongs, if nothing is under way: the owner of its
/// topic commits it; this node, where it is the owner, and else the owner, which is handed all
/// there is to the change. Where the owner is out of reach, or not known, the change waits on.
pub proof fn law_changes_go_to_their_owner(h: HubView, m: MutationView)
    requires
        h.retained.handoff is None,
        !h.retained.commit_inflight,
        h.retained.queue.len() > 0,
        h.retained.queue[0] == m,
    ensures
        ({
            let r = h.kicking();
            &&& h.cluster.owner(m.topic, h.node_id) == Some(h.node_id) ==> r.effects
                == h.effects.push(EffectView::CommitRetained { mutation: m })
                && r.retained.commit_inflight && r.retained.queue == h.retained.queue.skip(1)
            &&& h.cluster.owner(m.topic, h.node_id) matches Some(owner) ==> owner != h.node_id
                && m.reply is None ==> if bound(h.cluster.peers, owner) {
                &&& r.effects.len() == h.effects.len() + 1
                &&& r.retained.queue == h.retained.queue.skip(1)
                &&& r.retained.handoff matches Some((to, seq, held)) && to == owner && held == m
                    && r.effects.last() == (EffectView::Frame {
                    node: owner,
                    frame: FrameView::RetainedCommit {
                        topic: m.topic,
                        payload: m.payload,
                        qos: m.qos,
                        props: m.app,
                        seq,
                    },
                })
            } else {
                r.effects == h.effects && r.retained == h.retained
            }
            &&& h.cluster.owner(m.topic, h.node_id) is None ==> r.effects == h.effects
                && r.retained == h.retained
        }),
{
    assert(h.effects + Seq::<EffectView>::empty() =~= h.effects);
    assert(h.effects + seq![EffectView::CommitRetained { mutation: m }] =~= h.effects.push(
        EffectView::CommitRetained { mutation: m },
    ));
}

/// A change that was handed to this node and belongs to another one is given back at once.
pub proof fn law_strayed_change_is_given_back(
    h: HubView,
    m: MutationView,
    owner: Seq<char>,
    node: Seq<char>,
    seq: u64,
)
    requires
        h.retained.handoff is None,
        !h.retained.commit_inflight,
        h.retained.queue.len() > 0,
        h.retained.queue[0] == m,
        m.reply == Some((node, seq)),
        h.cluster.owner(m.topic, h.node_id) == Some(owner),
        owner != h.node_id,
        bound(h.cluster.peers, node),
    ensures
        ({
            let r = h.kicking();
            &&& r.effects.len() > h.effects.len()
            &&& r.effects[h.effects.len() as int] == (EffectView::Frame {
                node,
                frame: FrameView::RetainedCommitAck { seq, token: None },
            })
        }),
{
}

/// Nothing is started while something is under way.
pub proof fn law_one_change_at_a_time(h: HubView)
    requires
        h.retained.handoff is Some || h.retained.commit_inflight,
    ensures
        h.kicking().effects == h.effects,
        h.kicking().retained == h.retained,
{
    assert(h.effects + Seq::<EffectView>::empty() =~= h.effects);
}

/// The answer to a handoff ends it. A change that was not committed waits again, before all others;
/// one that was is waited for no more. An answer of another node, or under another number, changes
/// nothing.
pub proof fn law_handoff_is_answered(
    h: HubView,
    node: NodeId,
    seq: u64,
    token: Option<(u64, u64)>,
    owner: Seq<char>,
    held: u64,
    m: MutationView,
)
    requires
        h.retained.handoff == Some((owner, held, m)),
    ensures
        ({
            let r = h.after(HubCommand::RemoteRetainedCommitAck { node, seq, token });
            let mine = owner == node.deep_view() && held == seq;
            &&& !mine ==> r == h
            &&& mine && token is None ==> r.retained.handoff is None && r.retained.queue
                == seq![m] + h.retained.queue && r.effects == h.effects && r.ledger == h.ledger
            &&& mine && token is Some && h.retained.queue.len() == 0 ==> r.retained.handoff is None
                && r.retained.queue.len() == 0
            &&& mine && token is Some && m.publish is None && h.retained.queue.len() == 0
                ==> r.effects == h.effects && r.ledger == h.ledger
        }),
{
    reveal(HubView::after);
    reveal(HubView::after_cluster);
    assert(h.effects + Seq::<EffectView>::empty() =~= h.effects);
}

proof fn lemma_to_every(
    peers: Seq<(Seq<char>, crate::cluster::PeerView)>,
    frame: FrameView,
    node: Seq<char>,
)
    requires
        bound(peers, node),
    ensures
        crate::keyspace::to_every(peers, frame).contains(EffectView::Frame { node, frame }),
    decreases peers.len(),
{
    let all = crate::keyspace::to_every(peers, frame);
    let e = EffectView::Frame { node, frame };
    crate::assoc::lemma_position(peers, node);
    if peers.len() > 0 {
        let t = peers.drop_last();
        let rest = crate::keyspace::to_every(t, frame);
        if peers.last().0 == node {
            assert(all[rest.len() as int] == e);
        } else {
            crate::assoc::lemma_position(t, node);
            assert(t[crate::assoc::position(peers, node)].0 == node);
            lemma_to_every(t, frame, node);
            let i = choose|i: int| 0 <= i < rest.len() && rest[i] == e;
            assert(all[i] == e);
        }
    }
}

/// A committed change is told: every linked node is sent what it left behind and under which token,
/// and a node that handed it over is told that it is committed.
pub proof fn law_commit_is_told(
    h: HubView,
    mutation: RetainedMutation,
    t: (u64, u64),
    node: Seq<char>,
)
    requires
        bound(h.cluster.peers, node),
        mutation.deep_view().publish is None,
    ensures
        ({
            let m = mutation.deep_view();
            let r = h.after(HubCommand::RetainedCommitDone { mutation, token: Some(t) });
            &&& r.effects.contains(
                EffectView::Frame {
                    node,
                    frame: FrameView::RetainedUpdate {
                        topic: m.topic,
                        payload: m.payload,
                        qos: m.qos,
                        epoch: t.0,
                        offset: t.1,
                        props: m.app,
                    },
                },
            )
            &&& m.reply matches Some((asker, seq)) ==> asker == node ==> r.effects.contains(
                EffectView::Frame {
                    node,
                    frame: FrameView::RetainedCommitAck { seq, token: Some(t) },
                },
            )
        }),
{
    let m = mutation.deep_view();
    lemma_commit_done(h, mutation, t);
    lemma_committed(h, m, t, node);
}

proof fn lemma_commit_done(h: HubView, mutation: RetainedMutation, t: (u64, u64))
    ensures
        h.after(HubCommand::RetainedCommitDone { mutation, token: Some(t) }) == h.committed(
            mutation.deep_view(),
            Some(t),
        ),
{
    reveal(HubView::after);
    reveal(HubView::after_cluster);
}

proof fn lemma_committed(h: HubView, m: MutationView, t: (u64, u64), node: Seq<char>)
    requires
        bound(h.cluster.peers, node),
        m.publish is None,
    ensures
        ({
            let r = h.committed(m, Some(t));
            &&& r.effects.contains(EffectView::Frame { node, frame: m.update_frame(t) })
            &&& m.reply matches Some((asker, seq)) ==> asker == node ==> r.effects.contains(
                EffectView::Frame {
                    node,
                    frame: FrameView::RetainedCommitAck { seq, token: Some(t) },
                },
            )
        }),
{
    let frame = m.update_frame(t);
    let h1 = h.with_retained(
        RetainedStateView { commit_inflight: false, ..h.retained },
    );
    let told = crate::keyspace::to_every(h.cluster.peers, frame);
    let h2 = h1.with_retained(h1.retained.updated(m, t)).doing_all(
        h1.retained.update_effects(m, t),
    );
    let h3 = h2.doing_all(told);
    let h4 = h3.handed_back(m.reply, t);
    let r = h.committed(m, Some(t));
    assert(r == h4.kicking());
    lemma_to_every(h.cluster.peers, frame, node);
    let e = EffectView::Frame { node, frame };
    let i = choose|i: int| 0 <= i < told.len() && told[i] == e;
    let n = h2.effects.len() as int;
    assert(h3.effects[n + i] == e);
    lemma_handed_back(h3, m.reply, t);
    let k = h3.effects.len() as int;
    assert(h4.effects[n + i] == e);
    assert(r.effects[n + i] == e);
    match m.reply {
        Some((asker, seq)) => {
            if asker == node {
                assert(r.effects[k] == h4.effects[k]);
            }
        },
        None => {},
    }
}

proof fn lemma_handed_back(h: HubView, reply: Option<(Seq<char>, u64)>, t: (u64, u64))
    ensures
        ({
            let r = h.handed_back(reply, t);
            &&& r.effects.len() >= h.effects.len()
            &&& forall|i: int|
                0 <= i < h.effects.len() ==> r.effects[i] == #[trigger] h.effects[i]
            &&& reply matches Some((node, seq)) ==> bound(h.cluster.peers, node)
                ==> r.effects.len() == h.effects.len() + 1
                && r.effects[h.effects.len() as int] == (EffectView::Frame {
                node,
                frame: FrameView::RetainedCommitAck { seq, token: Some(t) },
            })
        }),
{
}

/// A change that is not committed is not told: it waits again, before all others.
pub proof fn law_failed_commit_waits(h: HubView, mutation: RetainedMutation)
    ensures
        ({
            let r = h.after(HubCommand::RetainedCommitDone { mutation, token: None });
            &&& r.retained.queue == seq![mutation.deep_view()] + h.retained.queue
            &&& !r.retained.commit_inflight
            &&& r.retained.cache == h.retained.cache
            &&& r.effects == h.effects
            &&& r.ledger == h.ledger
        }),
{
    reveal(HubView::after);
    reveal(HubView::after_cluster);
}

/// What another node tells of a topic counts exactly if its token is above what was heard of
/// before: the topic has the message that was told, or none where it was cleared, and every other
/// topic stays as it is. Where a store is behind the messages it is asked to take it first.
pub proof fn law_news_counts_by_token(
    h: HubView,
    mutation: RetainedMutation,
    under: (u64, u64),
    topic: Seq<char>,
)
    ensures
        ({
            let m = mutation.deep_view();
            let r = h.after(HubCommand::RemoteRetainedUpdate { mutation, under });
            let news = lookup(h.retained.tokens, m.topic) matches Some(held) ==> under.0 > held.0
                || (under.0 == held.0 && under.1 > held.1);
            &&& !news ==> r.retained == h.retained && r.effects == h.effects
            &&& news ==> lookup(r.retained.tokens, m.topic) == Some(under)
            &&& news && !h.retained.backed ==> r.effects == h.effects && match lookup(
                r.retained.cache,
                topic,
            ) {
                Some(kept) => if topic == m.topic {
                    m.payload.len() > 0 && kept.topic == topic && kept.payload == m.payload
                        && kept.qos == of_level(m.qos) && kept.retain && kept.app == m.app
                } else {
                    lookup(h.retained.cache, topic) == Some(kept)
                },
                None => if topic == m.topic {
                    m.payload.len() == 0
                } else {
                    lookup(h.retained.cache, topic) is None
                },
            }
            &&& news && h.retained.backed ==> r.retained.cache == h.retained.cache && (
            r.effects.len() == h.effects.len() + 1 && (
            r.effects.last() matches EffectView::StoreRetained { write } && write.message.topic
                == m.topic && write.message.payload == m.payload && write.message.qos == of_level(
                m.qos,
            ) && write.message.retain))
        }),
{
    broadcast use crate::assoc::lemma_lookup_put, crate::assoc::lemma_lookup_cut;

    reveal(HubView::after);
    reveal(HubView::after_cluster);
    assert(h.effects + Seq::<EffectView>::empty() =~= h.effects);
}

/// A node whose fingerprint of the retained messages is another one is asked for its messages; one
/// with the same is not.
pub proof fn law_differing_nodes_are_asked(
    h: HubView,
    node: NodeId,
    theirs: (u64, u64, u64),
    ids: Vec<(u64, u64)>,
)
    requires
        bound(h.cluster.peers, node.deep_view()),
    ensures
        ({
            let r = h.after(HubCommand::RemoteRetainedDigest { node, theirs, ids });
            r.effects == if crate::snapshot::digest(ids@) == theirs {
                h.effects
            } else {
                h.effects.push(
                    EffectView::Frame {
                        node: node.deep_view(),
                        frame: FrameView::RetainedRequest,
                    },
                )
            }
        }),
{
    reveal(HubView::after);
    reveal(HubView::after_cluster);
    let e = EffectView::Frame { node: node.deep_view(), frame: FrameView::RetainedRequest };
    assert(h.effects + seq![e] =~= h.effects.push(e));
}

/// A retained message of another node is kept where nodes keep what they hear and no store is behind
/// them: the topic has just what was published, or none where the payload is empty. Every other
/// topic stays as it is, and a message that is not retained changes nothing.
pub proof fn law_retained_is_kept(h: HubView, publication: Publication, topic: Seq<char>)
    requires
        !h.retained.durable,
        !h.retained.backed,
    ensures
        ({
            let p = publication.deep_view();
            let r = h.after(HubCommand::RemotePublish { publication });
            if topic == p.topic && p.retain {
                match lookup(r.retained.cache, topic) {
                    Some(m) => p.payload.len() > 0 && m.topic == topic && m.payload == p.payload
                        && m.qos == p.qos && m.retain && m.app == p.app,
                    None => p.payload.len() == 0,
                }
            } else {
                lookup(r.retained.cache, topic) == lookup(h.retained.cache, topic)
            }
        }),
{
    broadcast use crate::assoc::lemma_lookup_put, crate::assoc::lemma_lookup_cut;

    reveal(HubView::after);
    reveal(HubView::after_cluster);
    let p = publication.deep_view();
    let g = crate::lanes::GateView::Nobody;
    crate::reach::lemma_delivering_all_reach(
        h.keeping(p, g),
        p,
        h.targets(p.topic, None, p.retain),
        g,
        topic,
    );
}

/// A snapshot tells of everything: of each message that is kept, with the token it was committed
/// under, and of each topic that was cleared under a token.
pub proof fn law_snapshot_tells_all(
    s: RetainedStateView,
    i: int,
    j: int,
)
    ensures
        0 <= i < s.cache.len() ==> ({
            let m = s.cache[i].1;
            let token = match lookup(s.tokens, m.topic) {
                Some(t) => t,
                None => (0u64, 0u64),
            };
            exists|k: int|
                0 <= k < s.entries().len() && {
                    let e = #[trigger] s.entries()[k];
                    &&& e.topic == m.topic
                    &&& e.payload == m.payload
                    &&& of_level(e.qos) == m.qos
                    &&& e.props == m.app
                    &&& (e.epoch, e.offset) == token
                }
        }),
        0 <= j < s.tokens.len() && !(exists|k: int|
            0 <= k < s.cache.len() && (#[trigger] s.cache[k]).1.topic == s.tokens[j].0) ==> exists|
            k: int,
        |
            0 <= k < s.entries().len() && {
                let e = #[trigger] s.entries()[k];
                &&& e.topic == s.tokens[j].0
                &&& e.payload.len() == 0
                &&& (e.epoch, e.offset) == s.tokens[j].1
            },
{
    let live = crate::retained::live_entries(s.cache, s.tokens);
    let gone = crate::retained::cleared_entries(s.tokens, live);
    let all = s.entries();
    assert(all == live + gone);
    if 0 <= i < s.cache.len() {
        crate::qos::law_level_reads_back(s.cache[i].1.qos);
        assert(all[i] == live[i]);
    }
    if 0 <= j < s.tokens.len() && !(exists|k: int|
        0 <= k < s.cache.len() && (#[trigger] s.cache[k]).1.topic == s.tokens[j].0) {
        assert(!crate::retained::tells_of(live, s.tokens[j].0)) by {
            if crate::retained::tells_of(live, s.tokens[j].0) {
                let k = choose|k: int|
                    0 <= k < live.len() && (#[trigger] live[k]).topic == s.tokens[j].0;
                assert(s.cache[k].1.topic == s.tokens[j].0);
            }
        }
        let k = lemma_cleared(s.tokens, live, j);
        assert(all[live.len() + k] == gone[k]);
    }
}

proof fn lemma_cleared(
    tokens: Seq<(Seq<char>, (u64, u64))>,
    live: Seq<crate::wire::RetainedEntryView>,
    j: int,
) -> (k: int)
    requires
        0 <= j < tokens.len(),
        !crate::retained::tells_of(live, tokens[j].0),
    ensures
        0 <= k < crate::retained::cleared_entries(tokens, live).len(),
        crate::retained::cleared_entries(tokens, live)[k] == crate::retained::tombstone(
            tokens[j].0,
            tokens[j].1,
        ),
    decreases tokens.len(),
{
    let t = tokens.drop_last();
    let rest = crate::retained::cleared_entries(t, live);
    if j < t.len() {
        assert(t[j] == tokens[j]);
        lemma_cleared(t, live, j)
    } else {
        rest.len() as int
    }
}

proof fn lemma_snapshot_frames(
    node: Seq<char>,
    chunks: Seq<Seq<crate::wire::RetainedEntryView>>,
)
    ensures
        crate::keyspace::snapshot_frames(node, chunks) == Seq::new(
            chunks.len(),
            |i: int|
                EffectView::Frame {
                    node,
                    frame: FrameView::RetainedSnapshot { messages: chunks[i] },
                },
        ),
    decreases chunks.len(),
{
    if chunks.len() > 0 {
        lemma_snapshot_frames(node, chunks.drop_last());
        assert(crate::keyspace::snapshot_frames(node, chunks) =~= Seq::new(
            chunks.len(),
            |i: int|
                EffectView::Frame {
                    node,
                    frame: FrameView::RetainedSnapshot { messages: chunks[i] },
                },
        ));
    } else {
        assert(crate::keyspace::snapshot_frames(node, chunks) =~= Seq::new(
            chunks.len(),
            |i: int|
                EffectView::Frame {
                    node,
                    frame: FrameView::RetainedSnapshot { messages: chunks[i] },
                },
        ));
    }
}

/// A linked node that asks for the retained messages is sent them all, part by part.
pub proof fn law_request_is_served(h: HubView, node: NodeId, i: int)
    requires
        bound(h.cluster.peers, node.deep_view()),
    ensures
        ({
            let chunks = crate::snapshot::chunked(h.retained.entries());
            let r = h.after(HubCommand::RemoteRetainedRequest { node });
            &&& r.effects.len() == h.effects.len() + chunks.len()
            &&& 0 <= i < chunks.len() ==> r.effects[h.effects.len() + i] == (EffectView::Frame {
                node: node.deep_view(),
                frame: FrameView::RetainedSnapshot { messages: chunks[i] },
            })
        }),
{
    reveal(HubView::after);
    reveal(HubView::after_cluster);
    lemma_snapshot_frames(
        node.deep_view(),
        crate::snapshot::chunked(h.retained.entries()),
    );
}

// Quotas.

/// Whether `p` would keep a message for a topic that has none, while none may be added.
pub open spec fn one_too_many(h: HubView, p: PublicationView) -> bool {
    &&& p.retain
    &&& p.payload.len() > 0
    &&& lookup(h.retained.cache, p.topic) is None
    &&& h.brownout || (h.quotas.max_retained_messages matches Some(cap) && h.retained.cache.len()
        >= cap)
}

/// One retained message too many is refused where its publisher can be told: it is, and nothing
/// else happens. Where it cannot be told, the message is delivered as one that is not retained. Any
/// other publish is taken as it is.
pub proof fn law_retained_quota(
    h: HubView,
    publication: Publication,
    publisher: Option<ClientId>,
    done: Option<u64>,
    v5: bool,
    relaxed: bool,
)
    ensures
        ({
            let p = publication.deep_view();
            let who = publisher.deep_view();
            let r = h.after(
                HubCommand::Publish { publication, publisher, done, v5, relaxed },
            );
            &&& one_too_many(h, p) && v5 ==> r == (HubView {
                effects: match done {
                    Some(token) => h.effects.push(
                        EffectView::Published {
                            token,
                            outcome: PublishOutcome::RetainedQuotaExceeded,
                        },
                    ),
                    None => h.effects,
                },
                ..h
            })
            &&& one_too_many(h, p) && !v5 && done is None ==> r == h.publishing(
                PublicationView { retain: false, ..p },
                who,
                None,
            ).0
            &&& !one_too_many(h, p) && done is None ==> r == h.publishing(p, who, None).0
        }),
{
    reveal(HubView::after);
    let p = publication.deep_view();
    assert(bound(h.retained.cache, p.topic) == lookup(h.retained.cache, p.topic) is Some);
    assert(h.over_retained_quota(p) == one_too_many(h, p));
}

} // verus!
