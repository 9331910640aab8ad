//! The commands that a hub takes, one after the other.

use std::sync::Arc;

use vstd::prelude::*;

use crate::assoc::{lookup, put};
use crate::cluster::{ClusterView, Peer, Ring};
use crate::completions::one_less;
use crate::effects::{Effect, EffectView};
use crate::hub::{Hub, HubView};
use crate::ids::{ClientId, NodeId};
use crate::inflight::SubscriberLimits;
use crate::lanes::{AppendGate, AppendJob, GateView, LaneOutcome, RemoteAppendGate};
use crate::ledger::PendingView;
use crate::message::{AppProperties, Payload, Publication, PublicationView};
use crate::outcome::{DurableOutcome, ForwardVerdict, PublishOutcome};
use crate::policy::{BrownoutAxis, Quotas};
use crate::qos2::Qos2OpOutcome;
use crate::retained::{MutationView, RetainedMutation, RetainedWrite};
use crate::session::{OnlineView, PendingAttach, QueuedMessage, SessionRecovery, StorageError};
use crate::shared::RemoteSharedGroup;
use crate::subscribing::Wish;
use crate::sweeps::{Eviction, SweepPolicyView, StoredSession, SweepPolicy};
use crate::wire::RetainedWireEntry;

verus! {

/// A command.
#[derive(Debug)]
pub enum HubCommand {
    /// A client connected.
    Attach {
        pending: PendingAttach,
        clean_start: bool,
    },
    /// The session of a client that attaches was fetched, or removed. `queue` is the queue of the
    /// session, read when this command is taken up: after every command before it, and before any
    /// other. `denied` are the filters that the present policy does not let the client have.
    SessionRecovered {
        pending: PendingAttach,
        recovery: SessionRecovery,
        queue: Option<Vec<QueuedMessage>>,
        denied: Vec<String>,
    },
    /// A client subscribes; `stored` says whether the store has what was planned.
    Subscribe {
        client: ClientId,
        wishes: Vec<Wish>,
        reply: Option<u64>,
        stored: bool,
    },
    /// How much clients may take.
    SetQuotas(Quotas),
    /// How much one client may hold up.
    SetLimits(SubscriberLimits),
    /// A resource is over its watermark, or back under it.
    SetBrownout {
        axis: BrownoutAxis,
        on: bool,
    },
    /// A client unsubscribes.
    Unsubscribe {
        client: ClientId,
        filters: Vec<String>,
    },
    /// A client publishes; `done` names it where it waits for the outcome. `v5` says whether it
    /// can be told of a refusal, `relaxed` whether it waits for this node alone.
    Publish {
        publication: Publication,
        publisher: Option<ClientId>,
        done: Option<u64>,
        v5: bool,
        relaxed: bool,
    },
    /// A subscriber acknowledges a message.
    PubAck {
        client: ClientId,
        pkid: u16,
    },
    /// A subscriber confirms the receipt of a message.
    PubRec {
        client: ClientId,
        pkid: u16,
    },
    /// A subscriber confirms the completion of a message.
    PubComp {
        client: ClientId,
        pkid: u16,
    },
    /// A connection ended.
    Detach {
        client: ClientId,
        conn_id: u64,
        graceful: bool,
    },
    /// A client is to be thrown out.
    Evict {
        client: ClientId,
    },
    /// A new policy is to be applied to those who are connected.
    SweepIdentities(SweepPolicy),
    /// A connection wrote a packet.
    PacketWritten {
        client: ClientId,
        conn_id: u64,
        bytes: usize,
    },
    /// A lane started a job.
    LaneStarted {
        client: ClientId,
    },
    /// A lane is done with a job of delivery.
    AppendDone {
        job: AppendJob,
        outcome: LaneOutcome,
    },
    /// A lane is done with a step of the exactly-once bookkeeping.
    Qos2OpDone {
        client: ClientId,
        step: Qos2OpOutcome,
    },
    /// The store took a retained message, or did not.
    RetainedStored {
        write: RetainedWrite,
        ok: bool,
    },
    /// Packet ids were reserved.
    PkidBlockReserved {
        client: ClientId,
        result: Result<u16, StorageError>,
    },
    /// A node was linked; `ids` are the numbers of the retained messages of this node.
    PeerConnected {
        node: NodeId,
        peer: Peer,
        ids: Vec<(u64, u64)>,
    },
    /// A link ended.
    PeerDisconnected {
        node: NodeId,
        conn_id: u64,
    },
    /// A node is dead.
    PeerDead {
        node: NodeId,
    },
    /// The membership changed.
    SetRing(Option<Ring>),
    /// What a node wants.
    RemoteInterest {
        node: NodeId,
        filters: Vec<String>,
    },
    /// The shared groups of a node.
    RemoteSharedInterest {
        node: NodeId,
        groups: Vec<RemoteSharedGroup>,
    },
    /// Retained messages of a node.
    RemoteRetainedSnapshot {
        node: NodeId,
        messages: Vec<RetainedWireEntry>,
    },
    /// The fingerprint of the retained messages of a node.
    RemoteRetainedDigest {
        node: NodeId,
        theirs: (u64, u64, u64),
        ids: Vec<(u64, u64)>,
    },
    /// A node asks for the retained messages of this one.
    RemoteRetainedRequest {
        node: NodeId,
    },
    /// A node hands a change of a retained message over.
    RemoteRetainedCommit {
        node: NodeId,
        topic: String,
        payload: Payload,
        qos: u8,
        app: Arc<AppProperties>,
        seq: u64,
    },
    /// A node answers a change that it was handed.
    RemoteRetainedCommitAck {
        node: NodeId,
        seq: u64,
        token: Option<(u64, u64)>,
    },
    /// A change of a retained message was committed here, or was not.
    RetainedCommitDone {
        mutation: RetainedMutation,
        token: Option<(u64, u64)>,
    },
    /// A change of a retained message that another node committed.
    RemoteRetainedUpdate {
        mutation: RetainedMutation,
        under: (u64, u64),
    },
    /// A message of another node for one client.
    RemoteSharedDeliver {
        client: ClientId,
        publication: Publication,
    },
    /// The same, to be answered.
    RemoteSharedDeliverAcked {
        node: NodeId,
        seq: u64,
        client: ClientId,
        publication: Publication,
    },
    /// A message of another node, to be answered.
    RemotePublishAcked {
        node: NodeId,
        seq: u64,
        publication: Publication,
    },
    /// The answer of a node that knows no verdicts.
    RemotePublishAck {
        node: NodeId,
        seq: u64,
        ok: bool,
    },
    /// The answer of a node.
    RemotePublishVerdict {
        node: NodeId,
        seq: u64,
        verdict: ForwardVerdict,
    },
    /// A message of another node.
    RemotePublish {
        publication: Publication,
    },
    /// The stored sessions were read.
    InheritedSessions {
        sessions: Vec<StoredSession>,
    },
    /// Somebody asks whether the hub is there.
    Ping {
        asker: u64,
    },
    /// It is time for a sweep.
    Tick,
}

/// What a new policy led to.
#[derive(Debug)]
pub struct SweepReport {
    /// Who was thrown out, and why.
    pub identities: Vec<(ClientId, Eviction)>,
    /// Who lost which filters.
    pub grants: Vec<(ClientId, Vec<String>)>,
    /// The nodes whose links were ended.
    pub peers: Vec<NodeId>,
}

impl HubView {
    /// With publish `id` over as far as this node goes.
    pub open spec fn local_done(self, id: u64) -> HubView {
        let h = match lookup(self.ledger.entries, id) {
            Some(p) => self.with_ledger(
                self.ledger.with(id, PendingView { local_done: true, ..p }),
            ),
            None => self,
        };
        h.completing(id)
    }

    /// With publish `id` acknowledged as soon as it is over on this node.
    pub open spec fn relaxing(self, id: u64) -> HubView {
        match lookup(self.ledger.entries, id) {
            Some(p) => self.with_ledger(self.ledger.with(id, PendingView { relaxed: true, ..p })),
            None => self,
        }
    }

    /// With publish `id` ended as its fan-out on this node came to `out`.
    pub open spec fn concluding(self, id: u64, out: DurableOutcome) -> HubView {
        match out {
            DurableOutcome::Met => self.local_done(id),
            DurableOutcome::Failed => self.dropping(id),
            DurableOutcome::Refused(r) => self.refusing(id, r),
        }
    }

    /// With `p` published for whoever waits under `token`. At the cap of waiting publishes it is
    /// turned away, and nothing else happens.
    pub open spec fn publishing_for(
        self,
        p: PublicationView,
        publisher: Option<Seq<char>>,
        token: u64,
        relaxed: bool,
    ) -> HubView {
        let h = self.with_ledger(
            self.ledger.registered(token, p, self.cluster.unsettled(), self.instant),
        ).doing_all(self.ledger.register_effects(token, self.instant));
        match self.ledger.registered_id(self.instant) {
            None => h,
            Some(id) => {
                let h2 = if relaxed {
                    h.relaxing(id)
                } else {
                    h
                };
                let (h3, out) = h2.publishing(p, publisher, Some(id));
                h3.concluding(id, out)
            },
        }
    }

    /// Whether `p` would keep a retained message too many.
    pub open spec fn over_retained_quota(self, p: PublicationView) -> bool {
        p.retain && p.payload.len() > 0 && self.retained.over_quota(
            p.topic,
            self.brownout,
            self.quotas.max_retained_messages,
        )
    }

    /// With `p` accepted from a client. One retained message too many is refused, or where the
    /// client cannot be told, delivered and not kept.
    pub open spec fn accepting(
        self,
        p: PublicationView,
        publisher: Option<Seq<char>>,
        done: Option<u64>,
        v5: bool,
        relaxed: bool,
    ) -> HubView {
        let over = self.over_retained_quota(p);
        if over && v5 {
            match done {
                Some(token) => self.doing(
                    EffectView::Published { token, outcome: PublishOutcome::RetainedQuotaExceeded },
                ),
                None => self,
            }
        } else {
            let q = PublicationView { retain: p.retain && !over, ..p };
            match done {
                Some(token) => self.publishing_for(q, publisher, token, relaxed),
                None => self.publishing(q, publisher, None).0,
            }
        }
    }

    /// With `node` answered, now or once the jobs of what it forwarded are done.
    pub open spec fn settling_remote(self, node: Seq<char>, seq: u64, out: DurableOutcome) -> HubView {
        match lookup(self.sessions.remote_appends, (node, seq)) {
            Some(g) => self.with_remote_appends(
                put(
                    self.sessions.remote_appends,
                    (node, seq),
                    RemoteAppendGate { worst: g.worst.worse(out), ..g },
                ),
            ),
            None => self.answering(node, seq, out.verdict()),
        }
    }

    /// With `p`, which `node` forwarded, applied here. Where nobody wants it and somebody may
    /// turn up who does, it is not taken.
    pub open spec fn applying_remote(self, node: Seq<char>, seq: u64, p: PublicationView) -> HubView {
        let (h, out) = self.applying(p, None, GateView::Peer { node, seq });
        if out == DurableOutcome::Met && self.targets(p.topic, None, p.retain).len() == 0
            && h.cluster.unsettled() {
            if self.stores(p) {
                h.settling_remote(node, seq, DurableOutcome::Failed)
            } else {
                h.answering(node, seq, ForwardVerdict::Failed)
            }
        } else {
            h.settling_remote(node, seq, out)
        }
    }

    /// With one packet less unwritten on connection `conn_id` of `client`.
    pub open spec fn written(self, client: Seq<char>, conn_id: u64, bytes: usize) -> HubView {
        match lookup(self.sessions.online, client) {
            Some(o) => if o.conn_id == conn_id {
                self.with_online(
                    put(
                        self.sessions.online,
                        client,
                        OnlineView {
                            queued: one_less(o.queued),
                            queued_bytes: if o.queued_bytes < bytes {
                                0
                            } else {
                                (o.queued_bytes - bytes) as usize
                            },
                            ..o
                        },
                    ),
                )
            } else {
                self
            },
            None => self,
        }
    }

    /// With whoever a new policy shuts out gone.
    pub open spec fn sweeping_policy(self, f: SweepPolicyView) -> HubView {
        let h = self.evicting_each(f.victims(self.sessions.online));
        let h2 = h.unsubscribing_each(f.losers(h.sessions.online, h.routing.subs_by_client));
        h2.unlinking_each(f.lost_peers(h2.cluster.peers))
    }

    /// The hub after a command from a client or from the store.
    #[verifier::opaque]
    pub open spec fn after(self, cmd: HubCommand) -> HubView {
        match cmd {
            HubCommand::Attach { pending, clean_start } => self.attaching(
                pending.deep_view(),
                clean_start,
            ),
            HubCommand::SessionRecovered { pending, recovery, queue, denied } => self.recovering(
                pending.deep_view(),
                recovery.deep_view(),
                queue.deep_view(),
                denied.deep_view(),
            ),
            HubCommand::Subscribe { client, wishes, reply, stored } => self.subscribing(
                client.deep_view(),
                wishes.deep_view(),
                reply,
                stored,
            ),
            HubCommand::SetQuotas(quotas) => HubView { quotas, ..self },
            HubCommand::SetLimits(limits) => HubView { limits, ..self },
            HubCommand::SetBrownout { axis, on } => self.with_axis(axis, on),
            HubCommand::Unsubscribe { client, filters } => self.unsubscribing(
                client.deep_view(),
                filters.deep_view(),
            ),
            HubCommand::Publish { publication, publisher, done, v5, relaxed } => self.accepting(
                publication.deep_view(),
                publisher.deep_view(),
                done,
                v5,
                relaxed,
            ),
            HubCommand::PubAck { client, pkid } => self.puback(client.deep_view(), pkid),
            HubCommand::PubRec { client, pkid } => self.pubrec(client.deep_view(), pkid),
            HubCommand::PubComp { client, pkid } => self.pubcomp(client.deep_view(), pkid),
            HubCommand::Detach { client, conn_id, graceful } => self.detaching(
                client.deep_view(),
                conn_id,
                graceful,
            ),
            HubCommand::Evict { client } => self.evicting(client.deep_view()),
            HubCommand::SweepIdentities(policy) => self.sweeping_policy(policy.deep_view()),
            HubCommand::PacketWritten { client, conn_id, bytes } => self.written(
                client.deep_view(),
                conn_id,
                bytes,
            ),
            HubCommand::LaneStarted { client } => self.job_started(client.deep_view()),
            HubCommand::AppendDone { job, outcome } => self.appended(job.deep_view(), outcome),
            HubCommand::Qos2OpDone { client, step } => {
                let h = self.job_finished(client.deep_view());
                match step {
                    Qos2OpOutcome::Advance { pkid, epoch, ok } => h.advanced(
                        client.deep_view(),
                        pkid,
                        epoch,
                        ok,
                    ),
                    Qos2OpOutcome::Retire(r) => h.applying_retire(r.deep_view()),
                }
            },
            HubCommand::PkidBlockReserved { client, result } => self.reserved(
                client.deep_view(),
                result,
            ),
            HubCommand::RetainedStored { write, ok } => self.retained_answered(
                write.deep_view(),
                ok,
            ),
            _ => self.after_cluster(cmd),
        }
    }

    /// The hub after a command from another node, or about one.
    #[verifier::opaque]
    pub open spec fn after_cluster(self, cmd: HubCommand) -> HubView {
        match cmd {
            HubCommand::PeerConnected { node, peer, ids } => self.linking(
                node.deep_view(),
                peer.deep_view(),
            ).offering(node.deep_view(), ids@).kicking(),
            HubCommand::PeerDisconnected { node, conn_id } => self.link_lost(
                node.deep_view(),
                conn_id,
            ),
            HubCommand::PeerDead { node } => self.losing(node.deep_view()),
            HubCommand::SetRing(ring) => self.with_cluster(
                ClusterView { ring: ring.deep_view(), ..self.cluster },
            ),
            HubCommand::RemoteInterest { node, filters } => self.hearing(
                node.deep_view(),
                filters.deep_view(),
            ),
            HubCommand::RemoteSharedInterest { node, groups } => self.hearing_shared(
                node.deep_view(),
                groups.deep_view(),
            ),
            HubCommand::RemoteRetainedSnapshot { node, messages } => self.with_retained(
                self.retained.with_snapshot(self.retained.cache, messages.deep_view()),
            ).doing_all(
                self.retained.snapshot_effects(self.retained.cache, messages.deep_view()),
            ),
            HubCommand::RemoteRetainedDigest { node, theirs, ids } => self.offered(
                node.deep_view(),
                theirs,
                ids@,
            ),
            HubCommand::RemoteRetainedRequest { node } => self.sending_snapshot(node.deep_view()),
            HubCommand::RemoteRetainedCommit { node, topic, payload, qos, app, seq } =>
                self.taking_over(
                node.deep_view(),
                seq,
                MutationView {
                    topic: topic@,
                    payload: payload.deep_view(),
                    qos,
                    app: app.deep_view(),
                    reply: Some((node.deep_view(), seq)),
                    publish: None,
                },
            ),
            HubCommand::RemoteRetainedCommitAck { node, seq, token } => self.handoff_answered(
                node.deep_view(),
                seq,
                token,
            ),
            HubCommand::RetainedCommitDone { mutation, token } => self.committed(
                mutation.deep_view(),
                token,
            ),
            HubCommand::RemoteRetainedUpdate { mutation, under } => self.with_retained(
                self.retained.updated(mutation.deep_view(), under),
            ).doing_all(self.retained.update_effects(mutation.deep_view(), under)),
            HubCommand::RemoteSharedDeliver { client, publication } => self.delivering(
                client.deep_view(),
                publication.deep_view(),
                publication.qos,
                false,
                GateView::Nobody,
            ).0,
            HubCommand::RemoteSharedDeliverAcked { node, seq, client, publication } => {
                let (h, out) = self.delivering(
                    client.deep_view(),
                    publication.deep_view(),
                    publication.qos,
                    false,
                    GateView::Peer { node: node.deep_view(), seq },
                );
                h.settling_remote(node.deep_view(), seq, out)
            },
            HubCommand::RemotePublishAcked { node, seq, publication } => self.applying_remote(
                node.deep_view(),
                seq,
                publication.deep_view(),
            ),
            HubCommand::RemotePublishAck { node, seq, ok } => self.answered(
                node.deep_view(),
                seq,
                if ok {
                    ForwardVerdict::Stored
                } else {
                    ForwardVerdict::Failed
                },
            ),
            HubCommand::RemotePublishVerdict { node, seq, verdict } => self.answered(
                node.deep_view(),
                seq,
                verdict,
            ),
            HubCommand::RemotePublish { publication } => self.applying(
                publication.deep_view(),
                None,
                GateView::Nobody,
            ).0,
            HubCommand::InheritedSessions { sessions } => self.inheriting(sessions.deep_view()),
            HubCommand::Ping { asker } => self.doing(EffectView::Pong { token: asker }),
            HubCommand::Tick => self.ticking(),
            _ => self,
        }
    }
}

impl Hub {
    /// Sets the clocks: the time of day in seconds, and the time since some start in
    /// milliseconds.
    pub fn set_time(&mut self, now: u64, instant: u64)
        ensures
            final(self).deep_view() == (HubView { now, instant, ..old(self).deep_view() }),
    {
        self.now = now;
        self.instant = instant;
    }

    /// See [`HubView::local_done`].
    pub fn pending_local_done(&mut self, id: u64)
        ensures
            final(self).deep_view() == old(self).deep_view().local_done(id),
    {
        match self.ledger.entries.get_mut(&id) {
            Some(p) => {
                p.local_done = true;
            },
            None => {},
        }
        self.try_complete_pending(id);
    }

    /// See [`HubView::relaxing`].
    pub fn pending_mark_relaxed(&mut self, id: u64)
        ensures
            final(self).deep_view() == old(self).deep_view().relaxing(id),
    {
        match self.ledger.entries.get_mut(&id) {
            Some(p) => {
                p.relaxed = true;
            },
            None => {},
        }
    }

    /// Takes in a publish whose publisher waits under `token`, and returns its number; or turns
    /// it away.
    pub fn register_pending(&mut self, token: u64, p: &Publication) -> (r: Option<u64>)
        ensures
            r == old(self).deep_view().ledger.registered_id(old(self).deep_view().instant),
            final(self).deep_view() == old(self).deep_view().with_ledger(
                old(self).deep_view().ledger.registered(
                    token,
                    p.deep_view(),
                    old(self).deep_view().cluster.unsettled(),
                    old(self).deep_view().instant,
                ),
            ).doing_all(
                old(self).deep_view().ledger.register_effects(
                    token,
                    old(self).deep_view().instant,
                ),
            ),
    {
        let unsettled = self.cluster.routing_unsettled();
        let instant = self.instant;
        self.ledger.register_pending(token, p, unsettled, instant, &mut self.effects)
    }

    /// See [`HubView::publishing_for`].
    fn publish_for(
        &mut self,
        p: &Publication,
        publisher: Option<&ClientId>,
        token: u64,
        relaxed: bool,
    )
        ensures
            final(self).deep_view() == old(self).deep_view().publishing_for(
                p.deep_view(),
                publisher.deep_view(),
                token,
                relaxed,
            ),
    {
        let id = match self.register_pending(token, p) {
            Some(id) => id,
            None => {
                return;
            },
        };
        if relaxed {
            self.pending_mark_relaxed(id);
        }
        match self.publish(p, publisher, Some(id)) {
            DurableOutcome::Met => {
                self.pending_local_done(id);
            },
            DurableOutcome::Failed => {
                self.drop_pending(id);
            },
            DurableOutcome::Refused(r) => {
                self.refuse_pending(id, r);
            },
        }
    }

    /// See [`HubView::over_retained_quota`].
    pub fn retained_quota_exceeded(&self, p: &Publication) -> (r: bool)
        ensures
            r == self.deep_view().over_retained_quota(p.deep_view()),
    {
        p.retain && !p.payload.is_empty() && self.retained.retained_quota_exceeded(
            &p.topic,
            self.brownout,
            self.quotas.max_retained_messages,
        )
    }

    /// See [`HubView::accepting`].
    pub fn accept_publish(
        &mut self,
        p: Publication,
        publisher: Option<&ClientId>,
        done: Option<u64>,
        v5: bool,
        relaxed: bool,
    )
        ensures
            final(self).deep_view() == old(self).deep_view().accepting(
                p.deep_view(),
                publisher.deep_view(),
                done,
                v5,
                relaxed,
            ),
    {
        let mut p = p;
        if self.retained_quota_exceeded(&p) {
            if v5 {
                if let Some(token) = done {
                    self.emit(
                        Effect::Published { token, outcome: PublishOutcome::RetainedQuotaExceeded },
                    );
                }
                return;
            }
            p.retain = false;
        }
        match done {
            Some(token) => {
                self.publish_for(&p, publisher, token, relaxed);
            },
            None => {
                let _outcome = self.publish(&p, publisher, None);
            },
        }
    }

    /// See [`HubView::settling_remote`].
    fn settle_remote(&mut self, node: &NodeId, seq: u64, out: DurableOutcome)
        ensures
            final(self).deep_view() == old(self).deep_view().settling_remote(
                node.deep_view(),
                seq,
                out,
            ),
    {
        let key = (node.clone(), seq);
        match self.sessions.remote_appends.get_mut(&key) {
            Some(g) => {
                g.worst = g.worst.and(out);
                return;
            },
            None => {},
        }
        self.answer_forward(node, seq, out.to_verdict());
    }

    /// See [`HubView::applying_remote`].
    pub fn remote_publish_acked(&mut self, node: &NodeId, seq: u64, p: &Publication)
        ensures
            final(self).deep_view() == old(self).deep_view().applying_remote(
                node.deep_view(),
                seq,
                p.deep_view(),
            ),
    {
        let stores = p.retain && !self.retained.durable && self.retained.backed;
        let (out, matched) = self.deliver(p, None, &AppendGate::Peer { node: node.clone(), seq });
        if out == DurableOutcome::Met && matched == 0 && self.cluster.routing_unsettled() {
            if stores {
                self.settle_remote(node, seq, DurableOutcome::Failed);
            } else {
                self.answer_forward(node, seq, ForwardVerdict::Failed);
            }
        } else {
            self.settle_remote(node, seq, out);
        }
    }

    /// Delivers to one client what another node picked it for, and answers.
    pub fn remote_shared_deliver_acked(
        &mut self,
        node: &NodeId,
        seq: u64,
        client: &ClientId,
        p: &Publication,
    )
        ensures
            final(self).deep_view() == ({
                let (h, out) = old(self).deep_view().delivering(
                    client.deep_view(),
                    p.deep_view(),
                    p.qos,
                    false,
                    GateView::Peer { node: node.deep_view(), seq },
                );
                h.settling_remote(node.deep_view(), seq, out)
            }),
    {
        let gate = AppendGate::Peer { node: node.clone(), seq };
        let out = self.deliver_to_client(client, p, p.qos, false, &gate);
        self.settle_remote(node, seq, out);
    }

    /// See [`HubView::written`].
    pub fn packet_written(&mut self, client: &ClientId, conn_id: u64, bytes: usize)
        ensures
            final(self).deep_view() == old(self).deep_view().written(
                client.deep_view(),
                conn_id,
                bytes,
            ),
    {
        let ghost h = self.deep_view();
        match self.sessions.online.get_mut(client) {
            Some(o) => {
                if o.conn_id == conn_id {
                    o.queued = o.queued.saturating_sub(1);
                    o.queued_bytes = o.queued_bytes.saturating_sub(bytes);
                } else {
                    proof {
                        crate::ledger::lemma_put_same(h.sessions.online, client.deep_view());
                    }
                }
            },
            None => {},
        }
    }

    /// Applies a new policy to those who are connected. See [`HubView::sweeping_policy`].
    pub fn sweep_policy(&mut self, policy: &SweepPolicy) -> (r: SweepReport)
        ensures
            final(self).deep_view() == old(self).deep_view().sweeping_policy(policy.deep_view()),
            r.identities.deep_view() == policy.deep_view().victims(
                old(self).deep_view().sessions.online,
            ),
            ({
                let h = old(self).deep_view().evicting_each(r.identities.deep_view());
                let h2 = h.unsubscribing_each(r.grants.deep_view());
                &&& r.grants.deep_view() == policy.deep_view().losers(
                    h.sessions.online,
                    h.routing.subs_by_client,
                )
                &&& r.peers.deep_view() == policy.deep_view().lost_peers(h2.cluster.peers)
            }),
    {
        let identities = self.sweep_identities(policy);
        let grants = self.sweep_grants(policy);
        let peers = self.sweep_peers(policy);
        SweepReport { identities, grants, peers }
    }

    /// Takes a command. See [`HubView::after`].
    pub fn dispatch(&mut self, cmd: HubCommand)
        ensures
            final(self).deep_view() == old(self).deep_view().after(cmd),
    {
        reveal(HubView::after);
        match cmd {
            HubCommand::Attach { pending, clean_start } => {
                self.attach(pending, clean_start);
            },
            HubCommand::SessionRecovered { pending, recovery, queue, denied } => {
                self.session_recovered(pending, recovery, &queue, &denied);
            },
            HubCommand::Subscribe { client, wishes, reply, stored } => {
                self.subscribe(&client, &wishes, reply, stored);
            },
            HubCommand::SetQuotas(quotas) => {
                self.quotas = quotas;
            },
            HubCommand::SetLimits(limits) => {
                self.limits = limits;
            },
            HubCommand::SetBrownout { axis, on } => {
                self.set_brownout_axis(axis, on);
            },
            HubCommand::Unsubscribe { client, filters } => {
                self.unsubscribe(&client, &filters);
            },
            HubCommand::Publish { publication, publisher, done, v5, relaxed } => {
                self.accept_publish(publication, publisher.as_ref(), done, v5, relaxed);
            },
            HubCommand::PubAck { client, pkid } => {
                self.dispatch_pub_ack(&client, pkid);
            },
            HubCommand::PubRec { client, pkid } => {
                self.dispatch_pub_rec(&client, pkid);
            },
            HubCommand::PubComp { client, pkid } => {
                self.dispatch_pub_comp(&client, pkid);
            },
            HubCommand::Detach { client, conn_id, graceful } => {
                self.detach(&client, conn_id, graceful);
            },
            HubCommand::Evict { client } => {
                self.evict(&client);
            },
            HubCommand::SweepIdentities(policy) => {
                let _report = self.sweep_policy(&policy);
            },
            HubCommand::PacketWritten { client, conn_id, bytes } => {
                self.packet_written(&client, conn_id, bytes);
            },
            HubCommand::LaneStarted { client } => {
                self.lane_started(&client);
            },
            HubCommand::AppendDone { job, outcome } => {
                self.append_done(&job, outcome);
            },
            HubCommand::Qos2OpDone { client, step } => {
                self.qos2_op_done(&client, &step);
            },
            HubCommand::PkidBlockReserved { client, result } => {
                self.pkid_block_reserved(&client, result);
            },
            HubCommand::RetainedStored { write, ok } => {
                self.retained_stored(write, ok);
            },
            other => {
                self.dispatch_cluster(other);
            },
        }
    }

    /// Takes a command from another node, or about one. See [`HubView::after_cluster`].
    pub fn dispatch_cluster(&mut self, cmd: HubCommand)
        ensures
            final(self).deep_view() == old(self).deep_view().after_cluster(cmd),
    {
        reveal(HubView::after_cluster);
        match cmd {
            HubCommand::PeerConnected { node, peer, ids } => {
                self.peer_connected(node.clone(), peer);
                self.send_retained_digest(&node, &ids);
                self.kick_retained_queue();
            },
            HubCommand::PeerDisconnected { node, conn_id } => {
                self.peer_disconnected(&node, conn_id);
            },
            HubCommand::PeerDead { node } => {
                self.peer_dead(&node);
            },
            HubCommand::SetRing(ring) => {
                self.set_ring(ring);
            },
            HubCommand::RemoteInterest { node, filters } => {
                self.remote_interest(node, filters);
            },
            HubCommand::RemoteSharedInterest { node, groups } => {
                self.remote_shared_interest(node, groups);
            },
            HubCommand::RemoteRetainedSnapshot { node: _, messages } => {
                let _diverged = self.retained.apply_retained_snapshot(messages, &mut self.effects);
            },
            HubCommand::RemoteRetainedDigest { node, theirs, ids } => {
                self.handle_retained_digest(&node, theirs, &ids);
            },
            HubCommand::RemoteRetainedRequest { node } => {
                self.send_retained_snapshot(&node);
            },
            HubCommand::RemoteRetainedCommit { node, topic, payload, qos, app, seq } => {
                self.accept_routed_retained(node, topic, payload, qos, app, seq);
            },
            HubCommand::RemoteRetainedCommitAck { node, seq, token } => {
                self.retained_handoff_answered(&node, seq, token);
            },
            HubCommand::RetainedCommitDone { mutation, token } => {
                self.retained_commit_done(mutation, token);
            },
            HubCommand::RemoteRetainedUpdate { mutation, under } => {
                self.retained.apply_retained_update(&mutation, under, &mut self.effects);
            },
            HubCommand::RemoteSharedDeliver { client, publication } => {
                let qos = publication.qos;
                let _outcome = self.deliver_to_client(
                    &client,
                    &publication,
                    qos,
                    false,
                    &AppendGate::Nobody,
                );
            },
            HubCommand::RemoteSharedDeliverAcked { node, seq, client, publication } => {
                self.remote_shared_deliver_acked(&node, seq, &client, &publication);
            },
            HubCommand::RemotePublishAcked { node, seq, publication } => {
                self.remote_publish_acked(&node, seq, &publication);
            },
            HubCommand::RemotePublishAck { node, seq, ok } => {
                let verdict = if ok {
                    ForwardVerdict::Stored
                } else {
                    ForwardVerdict::Failed
                };
                self.forward_answered(&node, seq, verdict);
            },
            HubCommand::RemotePublishVerdict { node, seq, verdict } => {
                self.forward_answered(&node, seq, verdict);
            },
            HubCommand::RemotePublish { publication } => {
                let _outcome = self.deliver(&publication, None, &AppendGate::Nobody);
            },
            HubCommand::InheritedSessions { sessions } => {
                self.inherit_sessions(&sessions);
            },
            HubCommand::Ping { asker } => {
                self.emit(Effect::Pong { token: asker });
            },
            HubCommand::Tick => {
                self.tick();
            },
            _ => {},
        }
    }
}

} // verus!
