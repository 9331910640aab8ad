//! The retained messages of a cluster: commits by the owner of a topic, and what the nodes tell
//! each other.

use std::sync::Arc;

use vstd::prelude::*;

use crate::assoc::{lookup, put, Key};
use crate::cluster::PeerView;
use crate::effects::{Effect, EffectView};
use crate::hub::{Hub, HubView};
use crate::ids::NodeId;
use crate::lanes::{AppendThen, LaneOutcome, ThenView};
use crate::ledger::PendingView;
use crate::message::{AppProperties, Payload};
use crate::retained::{MutationView, RetainedMutation, RetainedStateView, RetainedWrite, WriteView};
use crate::snapshot::{chunk_retained, chunked, digest, retained_digest};
use crate::wire::{FrameView, PeerMessage, RetainedEntryView};

verus! {

/// `frame`, for every linked node.
pub open spec fn to_every(peers: Seq<(Seq<char>, PeerView)>, frame: FrameView) -> Seq<EffectView>
    decreases peers.len(),
{
    if peers.len() == 0 {
        Seq::empty()
    } else {
        to_every(peers.drop_last(), frame).push(
            EffectView::Frame { node: peers.last().0, frame },
        )
    }
}

/// The chunks of a snapshot, for `node`.
pub open spec fn snapshot_frames(
    node: Seq<char>,
    chunks: Seq<Seq<RetainedEntryView>>,
) -> Seq<EffectView>
    decreases chunks.len(),
{
    if chunks.len() == 0 {
        Seq::empty()
    } else {
        snapshot_frames(node, chunks.drop_last()).push(
            EffectView::Frame { node, frame: FrameView::RetainedSnapshot { messages: chunks.last() } },
        )
    }
}

impl HubView {
    /// With other retained messages.
    pub open spec fn with_retained(self, retained: RetainedStateView) -> HubView {
        HubView { retained, ..self }
    }

    /// With the retained part of publish `id` committed.
    pub open spec fn retained_done(self, id: u64) -> HubView {
        let h = match lookup(self.ledger.entries, id) {
            Some(p) => self.with_ledger(
                self.ledger.with(id, PendingView { awaiting_retained: false, ..p }),
            ),
            None => self,
        };
        h.completing(id)
    }

    /// The same, where a publish waits.
    pub open spec fn retained_done_for(self, publish: Option<u64>) -> HubView {
        match publish {
            Some(id) => self.retained_done(id),
            None => self,
        }
    }

    /// With what the store said of a retained message: it counts from now on, or whoever waits for
    /// it is let down.
    pub open spec fn retained_answered(self, w: WriteView, ok: bool) -> HubView {
        let h = if ok {
            self.with_retained(self.retained.stored(w.message))
        } else {
            self
        };
        match w.owed {
            ThenView::Gate(id) => if ok {
                h.store_done(id)
            } else {
                h.dropping(id)
            },
            _ => h.repaying(
                w.owed,
                if ok {
                    LaneOutcome::Passed
                } else {
                    LaneOutcome::Failed
                },
            ),
        }
    }

    /// With publish `id` waiting for the store no more.
    pub open spec fn store_done(self, id: u64) -> HubView {
        let h = match lookup(self.ledger.entries, id) {
            Some(p) => self.with_ledger(
                self.ledger.with(id, PendingView { awaiting_store: false, ..p }),
            ),
            None => self,
        };
        h.completing(id)
    }

    /// With `node` told what became of the change it handed over under `seq`.
    pub open spec fn acking_retained(
        self,
        node: Seq<char>,
        seq: u64,
        token: Option<(u64, u64)>,
    ) -> HubView {
        self.doing_all(self.cluster.framed(node, FrameView::RetainedCommitAck { seq, token }))
    }

    /// With the change `m` of `node` taken over under `seq`. A change that was committed already
    /// is acknowledged again; one that waits already goes on waiting.
    pub open spec fn taking_over(self, node: Seq<char>, seq: u64, m: MutationView) -> HubView {
        if !self.retained.durable {
            self
        } else if lookup(self.retained.handoff_seen, node) matches Some(seen) && seen.0 == seq {
            self.acking_retained(
                node,
                seq,
                Some(lookup(self.retained.handoff_seen, node)->Some_0.1),
            )
        } else if lookup(self.retained.handoff_pending, node) == Some(seq) {
            self
        } else {
            self.with_retained(
                RetainedStateView {
                    handoff_pending: put(self.retained.handoff_pending, node, seq),
                    ..self.retained
                },
            ).enqueueing(m).kicking()
        }
    }

    /// With the answer of `node` to the change that it was handed under `seq`. A change that it
    /// did not commit waits again. What does not belong to the present handoff changes nothing.
    pub open spec fn handoff_answered(
        self,
        node: Seq<char>,
        seq: u64,
        token: Option<(u64, u64)>,
    ) -> HubView {
        match self.retained.handoff {
            Some((owner, held_seq, m)) => if owner == node && held_seq == seq {
                let h = self.with_retained(RetainedStateView { handoff: None, ..self.retained });
                if token is Some {
                    h.retained_done_for(m.publish).kicking()
                } else {
                    h.with_retained(h.retained.requeued(m))
                }
            } else {
                self
            },
            None => self,
        }
    }

    /// With the note that the change of a node was committed under `token`, and the node told.
    pub open spec fn handed_back(
        self,
        reply: Option<(Seq<char>, u64)>,
        token: (u64, u64),
    ) -> HubView {
        match reply {
            Some((node, seq)) => self.with_retained(
                RetainedStateView {
                    handoff_seen: put(self.retained.handoff_seen, node, (seq, token)),
                    ..self.retained
                }.not_waiting(reply),
            ).acking_retained(node, seq, Some(token)),
            None => self,
        }
    }

    /// With the commit of `m` over: under `token` it is applied here, told to every node, and
    /// acknowledged; without one it waits again.
    pub open spec fn committed(self, m: MutationView, token: Option<(u64, u64)>) -> HubView {
        let h = self.with_retained(RetainedStateView { commit_inflight: false, ..self.retained });
        match token {
            Some(t) => {
                let h2 = h.retained_done_for(m.publish);
                h2.with_retained(h2.retained.updated(m, t)).doing_all(
                    h2.retained.update_effects(m, t),
                ).doing_all(
                    to_every(h2.cluster.peers, m.update_frame(t)),
                ).handed_back(m.reply, t).kicking()
            },
            None => h.with_retained(h.retained.requeued(m)),
        }
    }

    /// With `node` offered the fingerprint of the retained messages, given the numbers of each;
    /// nothing is offered where there never was a message.
    pub open spec fn offering(self, node: Seq<char>, ids: Seq<(u64, u64)>) -> HubView {
        if self.retained.cache.len() == 0 && self.retained.tokens.len() == 0 {
            self
        } else {
            let (count, hash, value_hash) = digest(ids);
            self.doing_all(
                self.cluster.framed(node, FrameView::RetainedDigest { count, hash, value_hash }),
            )
        }
    }

    /// With `node`, which offered `theirs`, asked for its messages if they differ.
    pub open spec fn offered(
        self,
        node: Seq<char>,
        theirs: (u64, u64, u64),
        ids: Seq<(u64, u64)>,
    ) -> HubView {
        if digest(ids) == theirs {
            self
        } else {
            self.doing_all(self.cluster.framed(node, FrameView::RetainedRequest))
        }
    }

    /// With the retained messages sent to `node`.
    pub open spec fn sending_snapshot(self, node: Seq<char>) -> HubView {
        if self.cluster.linked(node) {
            self.doing_all(snapshot_frames(node, chunked(self.retained.entries())))
        } else {
            self
        }
    }
}

impl Hub {
    /// See [`HubView::retained_done`].
    pub fn pending_retained_done(&mut self, id: u64)
        ensures
            final(self).deep_view() == old(self).deep_view().retained_done(id),
    {
        match self.ledger.entries.get_mut(&id) {
            Some(p) => {
                p.awaiting_retained = false;
            },
            None => {},
        }
        self.try_complete_pending(id);
    }

    /// Notes what the store said of a retained message. See [`HubView::retained_answered`].
    pub fn retained_stored(&mut self, write: RetainedWrite, ok: bool)
        ensures
            final(self).deep_view() == old(self).deep_view().retained_answered(
                write.deep_view(),
                ok,
            ),
    {
        let RetainedWrite { message, owed } = write;
        if ok {
            self.retained.store_took(message);
        }
        match owed {
            AppendThen::Gate(id) => {
                if ok {
                    match self.ledger.entries.get_mut(&id) {
                        Some(p) => {
                            p.awaiting_store = false;
                        },
                        None => {},
                    }
                    self.try_complete_pending(id);
                } else {
                    self.drop_pending(id);
                }
            },
            other => {
                let outcome = if ok {
                    LaneOutcome::Passed
                } else {
                    LaneOutcome::Failed
                };
                self.repay(&other, outcome);
            },
        }
    }

    /// See [`HubView::acking_retained`].
    pub fn send_retained_ack(&mut self, node: &NodeId, seq: u64, token: Option<(u64, u64)>)
        ensures
            final(self).deep_view() == old(self).deep_view().acking_retained(
                node.deep_view(),
                seq,
                token,
            ),
    {
        self.cluster.send_frame(
            node,
            PeerMessage::RetainedCommitAck { seq, token },
            &mut self.effects,
        );
    }

    /// Takes over the change of `node`, to be committed here. See [`HubView::taking_over`].
    pub fn accept_routed_retained(
        &mut self,
        node: NodeId,
        topic: String,
        payload: Payload,
        qos: u8,
        app: Arc<AppProperties>,
        seq: u64,
    )
        ensures
            final(self).deep_view() == old(self).deep_view().taking_over(
                node.deep_view(),
                seq,
                (MutationView {
                    topic: topic@,
                    payload: payload.deep_view(),
                    qos,
                    app: app.deep_view(),
                    reply: Some((node.deep_view(), seq)),
                    publish: None,
                }),
            ),
    {
        if !self.retained.durable {
            return;
        }
        if let Some((last_seq, token)) = self.retained.handoff_seen.get(&node) {
            if *last_seq == seq {
                let token = *token;
                self.send_retained_ack(&node, seq, Some(token));
                return;
            }
        }
        let waits = match self.retained.handoff_pending.get(&node) {
            Some(s) => *s == seq,
            None => false,
        };
        if waits {
            return;
        }
        self.retained.handoff_pending.insert(node.clone(), seq);
        self.enqueue_retained_mutation(
            RetainedMutation { topic, payload, qos, app, reply: Some((node, seq)), publish: None },
        );
        self.kick_retained_queue();
    }

    /// See [`HubView::handoff_answered`].
    pub fn retained_handoff_answered(&mut self, node: &NodeId, seq: u64, token: Option<(u64, u64)>)
        ensures
            final(self).deep_view() == old(self).deep_view().handoff_answered(
                node.deep_view(),
                seq,
                token,
            ),
    {
        let ours = match &self.retained.handoff {
            Some((owner, held_seq, _)) => owner.same(node) && *held_seq == seq,
            None => false,
        };
        if !ours {
            return;
        }
        let m = match self.retained.handoff.take() {
            Some((_, _, m)) => m,
            None => {
                return;
            },
        };
        if token.is_some() {
            if let Some(id) = m.publish {
                self.pending_retained_done(id);
            }
            self.kick_retained_queue();
        } else {
            self.retained.requeue(m);
        }
    }

    /// Tells every linked node of a change that was committed.
    fn tell_update(&mut self, m: &RetainedMutation, token: (u64, u64))
        ensures
            final(self).deep_view() == old(self).deep_view().doing_all(
                to_every(
                    old(self).deep_view().cluster.peers,
                    m.deep_view().update_frame(token),
                ),
            ),
    {
        let ghost h = self.deep_view();
        let ghost peers = h.cluster.peers;
        let ghost frame = m.deep_view().update_frame(token);
        let mut i: usize = 0;
        assert(h.effects + to_every(peers.take(0), frame) =~= h.effects);
        while i < self.cluster.peers.len()
            invariant
                i <= peers.len(),
                peers == self.cluster.peers.deep_view(),
                frame == m.deep_view().update_frame(token),
                self.deep_view() == h.doing_all(to_every(peers.take(i as int), frame)),
            decreases peers.len() - i,
        {
            proof {
                assert(peers.take(i as int + 1).drop_last() =~= peers.take(i as int));
                assert(peers.take(i as int + 1).last() == peers[i as int]);
            }
            let node = self.cluster.peers.key_at(i).clone();
            self.emit(Effect::Frame { node, frame: m.to_update(token) });
            i += 1;
            assert(self.effects.deep_view() =~= h.effects + to_every(
                peers.take(i as int),
                frame,
            ));
        }
        assert(peers.take(i as int) =~= peers);
    }

    /// See [`HubView::handed_back`].
    fn hand_back(&mut self, reply: &Option<(NodeId, u64)>, token: (u64, u64))
        ensures
            final(self).deep_view() == old(self).deep_view().handed_back(reply.deep_view(), token),
    {
        if let Some((node, seq)) = reply {
            self.retained.handoff_seen.insert(node.clone(), (*seq, token));
            self.retained.forget_waiting(reply);
            self.send_retained_ack(node, *seq, Some(token));
        }
    }

    /// See [`HubView::committed`].
    pub fn retained_commit_done(&mut self, m: RetainedMutation, token: Option<(u64, u64)>)
        ensures
            final(self).deep_view() == old(self).deep_view().committed(m.deep_view(), token),
    {
        self.retained.commit_inflight = false;
        match token {
            Some(t) => {
                if let Some(id) = m.publish {
                    self.pending_retained_done(id);
                }
                self.retained.apply_retained_update(&m, t, &mut self.effects);
                self.tell_update(&m, t);
                self.hand_back(&m.reply, t);
                self.kick_retained_queue();
            },
            None => {
                self.retained.requeue(m);
            },
        }
    }

    /// See [`HubView::offering`].
    pub fn send_retained_digest(&mut self, node: &NodeId, ids: &Vec<(u64, u64)>)
        ensures
            final(self).deep_view() == old(self).deep_view().offering(node.deep_view(), ids@),
    {
        if self.retained.cache.is_empty() && self.retained.tokens.is_empty() {
            return;
        }
        let (count, hash, value_hash) = retained_digest(ids);
        self.cluster.send_frame(
            node,
            PeerMessage::RetainedDigest { count, hash, value_hash },
            &mut self.effects,
        );
    }

    /// See [`HubView::offered`].
    pub fn handle_retained_digest(
        &mut self,
        node: &NodeId,
        theirs: (u64, u64, u64),
        ids: &Vec<(u64, u64)>,
    )
        ensures
            final(self).deep_view() == old(self).deep_view().offered(
                node.deep_view(),
                theirs,
                ids@,
            ),
    {
        let ours = retained_digest(ids);
        if ours.0 == theirs.0 && ours.1 == theirs.1 && ours.2 == theirs.2 {
            return;
        }
        self.cluster.send_frame(node, PeerMessage::RetainedRequest, &mut self.effects);
    }

    /// See [`HubView::sending_snapshot`].
    pub fn send_retained_snapshot(&mut self, node: &NodeId)
        ensures
            final(self).deep_view() == old(self).deep_view().sending_snapshot(node.deep_view()),
    {
        if !self.cluster.peers.contains_key(node) {
            return;
        }
        let ghost h = self.deep_view();
        let ghost n = node.deep_view();
        let chunks = chunk_retained(self.retained.snapshot_entries());
        let ghost cs = chunks.deep_view();
        let ghost mut i: int = 0;
        assert(h.effects + snapshot_frames(n, cs.take(0)) =~= h.effects);
        for messages in it: chunks
            invariant
                it.seq() == chunks@,
                cs == chunks.deep_view(),
                n == node.deep_view(),
                i == it.index(),
                self.deep_view() == h.doing_all(snapshot_frames(n, cs.take(i))),
        {
            proof {
                assert(cs.take(i + 1).drop_last() =~= cs.take(i));
                assert(cs.take(i + 1).last() == cs[i]);
                assert(cs[i] == messages.deep_view());
            }
            self.emit(
                Effect::Frame {
                    node: node.clone(),
                    frame: PeerMessage::RetainedSnapshot { messages },
                },
            );
            proof {
                i = i + 1;
            }
            assert(self.effects.deep_view() =~= h.effects + snapshot_frames(n, cs.take(i)));
        }
        assert(cs.take(i) =~= cs);
    }
}

} // verus!
