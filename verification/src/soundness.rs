//! That every command keeps what a hub is to keep, and the laws that follow.

use std::sync::Arc;

use vstd::prelude::*;

use crate::assoc::lookup;
use crate::cluster::{Peer, Ring};
use crate::dispatch::HubCommand;
use crate::forwarding::gate_of;
use crate::guarantees::law_refused_apply_changes_nothing;
use crate::hub::HubView;
use crate::ids::{ClientId, NodeId};
use crate::inflight::SubscriberLimits;
use crate::lanes::{AppendJob, GateView, LaneOutcome, ThenView};
use crate::ledger::{LedgerView, PendingView};
use crate::message::{AppProperties, Payload, Publication, PublicationView};
use crate::outcome::{ForwardVerdict, PublishRefusal};
use crate::policy::{BrownoutAxis, Quotas};
use crate::qos2::Qos2OpOutcome;
use crate::retained::{MutationView, RetainedMutation, RetainedWrite, WriteView};
use crate::session::{PendingAttach, QueuedMessage, SessionRecovery, StorageError};
use crate::shared::RemoteSharedGroup;
use crate::subscribing::Wish;
use crate::sweeps::{StoredSession, SweepPolicy};
use crate::upkeep::{group_settled, keeps, lemma_accepting, lemma_advanced, lemma_answered,
    lemma_appended, lemma_applying, lemma_applying_remote, lemma_applying_retire, lemma_committed,
    lemma_completing, lemma_concluding, lemma_delivering, lemma_delivering_all, lemma_detaching,
    lemma_dropping, lemma_evicting, lemma_handoff_answered, lemma_inheriting,
    lemma_ledger_registered, lemma_linking, lemma_losing, lemma_puback, lemma_pubcomp,
    lemma_publishing_for, lemma_recovering, lemma_relaxing, lemma_remote_delivery, lemma_repaying,
    lemma_reserved, lemma_rest_of_publishing, lemma_subscribing, lemma_sweeping_policy,
    lemma_taking_over, lemma_ticking, lemma_waiting_gone, lemma_with, one_if, plus, settled_by,
    waiting_for, weight, within};
use crate::wire::RetainedWireEntry;

verus! {

proof fn lemma_on_attach(h: HubView, pending: PendingAttach, clean_start: bool)
    ensures
        keeps(h, h.after(HubCommand::Attach { pending, clean_start })),
{
    broadcast use group_settled;

    reveal(HubView::after);
}

proof fn lemma_on_recovered(
    h: HubView,
    pending: PendingAttach,
    recovery: SessionRecovery,
    queue: Option<Vec<QueuedMessage>>,
    denied: Vec<String>,
)
    ensures
        keeps(h, h.after(HubCommand::SessionRecovered { pending, recovery, queue, denied })),
{
    broadcast use group_settled;

    reveal(HubView::after);
    lemma_recovering(
        h,
        pending.deep_view(),
        recovery.deep_view(),
        queue.deep_view(),
        denied.deep_view(),
    );
}

proof fn lemma_on_subscribe(
    h: HubView,
    client: ClientId,
    wishes: Vec<Wish>,
    reply: Option<u64>,
    stored: bool,
)
    ensures
        keeps(h, h.after(HubCommand::Subscribe { client, wishes, reply, stored })),
{
    broadcast use group_settled;

    reveal(HubView::after);
    lemma_subscribing(h, client.deep_view(), wishes.deep_view(), reply, stored);
}

proof fn lemma_on_quotas(h: HubView, quotas: Quotas)
    ensures
        keeps(h, h.after(HubCommand::SetQuotas(quotas))),
{
    broadcast use group_settled;

    reveal(HubView::after);
}

proof fn lemma_on_limits(h: HubView, limits: SubscriberLimits)
    ensures
        keeps(h, h.after(HubCommand::SetLimits(limits))),
{
    broadcast use group_settled;

    reveal(HubView::after);
}

proof fn lemma_on_unsubscribe(h: HubView, client: ClientId, filters: Vec<String>)
    ensures
        keeps(h, h.after(HubCommand::Unsubscribe { client, filters })),
{
    broadcast use group_settled;

    reveal(HubView::after);
}

proof fn lemma_on_puback(h: HubView, client: ClientId, pkid: u16)
    ensures
        keeps(h, h.after(HubCommand::PubAck { client, pkid })),
{
    broadcast use group_settled;

    reveal(HubView::after);
    lemma_puback(h, client.deep_view(), pkid);
}

proof fn lemma_on_pubrec(h: HubView, client: ClientId, pkid: u16)
    ensures
        keeps(h, h.after(HubCommand::PubRec { client, pkid })),
{
    broadcast use group_settled;

    reveal(HubView::after);
}

proof fn lemma_on_pubcomp(h: HubView, client: ClientId, pkid: u16)
    ensures
        keeps(h, h.after(HubCommand::PubComp { client, pkid })),
{
    broadcast use group_settled;

    reveal(HubView::after);
    lemma_pubcomp(h, client.deep_view(), pkid);
}

proof fn lemma_on_detach(h: HubView, client: ClientId, conn_id: u64, graceful: bool)
    ensures
        keeps(h, h.after(HubCommand::Detach { client, conn_id, graceful })),
{
    broadcast use group_settled;

    reveal(HubView::after);
    lemma_detaching(h, client.deep_view(), conn_id, graceful);
}

proof fn lemma_on_evict(h: HubView, client: ClientId)
    ensures
        keeps(h, h.after(HubCommand::Evict { client })),
{
    broadcast use group_settled;

    reveal(HubView::after);
    lemma_evicting(h, client.deep_view());
}

proof fn lemma_on_policy(h: HubView, policy: SweepPolicy)
    ensures
        keeps(h, h.after(HubCommand::SweepIdentities(policy))),
{
    broadcast use group_settled;

    reveal(HubView::after);
    lemma_sweeping_policy(h, policy.deep_view());
}

proof fn lemma_on_written(h: HubView, client: ClientId, conn_id: u64, bytes: usize)
    ensures
        keeps(h, h.after(HubCommand::PacketWritten { client, conn_id, bytes })),
{
    broadcast use group_settled;

    reveal(HubView::after);
}

proof fn lemma_on_started(h: HubView, client: ClientId)
    ensures
        keeps(h, h.after(HubCommand::LaneStarted { client })),
{
    broadcast use group_settled;

    reveal(HubView::after);
}

proof fn lemma_on_appended(h: HubView, job: AppendJob, outcome: LaneOutcome)
    ensures
        keeps(h, h.after(HubCommand::AppendDone { job, outcome })),
{
    broadcast use group_settled;

    reveal(HubView::after);
    lemma_appended(h, job.deep_view(), outcome);
}

proof fn lemma_on_qos2_step(h: HubView, client: ClientId, step: Qos2OpOutcome)
    ensures
        keeps(h, h.after(HubCommand::Qos2OpDone { client, step })),
{
    broadcast use group_settled;

    reveal(HubView::after);
    let h1 = h.job_finished(client.deep_view());
    match step {
        Qos2OpOutcome::Advance { pkid, epoch, ok } => {
            lemma_advanced(h1, client.deep_view(), pkid, epoch, ok);
        },
        Qos2OpOutcome::Retire(r) => {
            lemma_applying_retire(h1, r.deep_view());
        },
    }
}

proof fn lemma_on_reserved(h: HubView, client: ClientId, result: Result<u16, StorageError>)
    ensures
        keeps(h, h.after(HubCommand::PkidBlockReserved { client, result })),
{
    broadcast use group_settled;

    reveal(HubView::after);
    lemma_reserved(h, client.deep_view(), result);
}

proof fn lemma_on_linked(h: HubView, node: NodeId, peer: Peer, ids: Vec<(u64, u64)>)
    ensures
        keeps(h, h.after(HubCommand::PeerConnected { node, peer, ids })),
{
    broadcast use group_settled;

    reveal(HubView::after);
    reveal(HubView::after_cluster);
    lemma_linking(h, node.deep_view(), peer.deep_view(), ids@);
}

proof fn lemma_on_unlinked(h: HubView, node: NodeId, conn_id: u64)
    ensures
        keeps(h, h.after(HubCommand::PeerDisconnected { node, conn_id })),
{
    broadcast use group_settled;

    reveal(HubView::after);
    reveal(HubView::after_cluster);
}

proof fn lemma_on_death(h: HubView, node: NodeId)
    ensures
        keeps(h, h.after(HubCommand::PeerDead { node })),
{
    broadcast use group_settled;

    reveal(HubView::after);
    reveal(HubView::after_cluster);
    lemma_losing(h, node.deep_view());
}

proof fn lemma_on_ring(h: HubView, ring: Option<Ring>)
    ensures
        keeps(h, h.after(HubCommand::SetRing(ring))),
{
    broadcast use group_settled;

    reveal(HubView::after);
    reveal(HubView::after_cluster);
}

proof fn lemma_on_interest(h: HubView, node: NodeId, filters: Vec<String>)
    ensures
        keeps(h, h.after(HubCommand::RemoteInterest { node, filters })),
{
    broadcast use group_settled;

    reveal(HubView::after);
    reveal(HubView::after_cluster);
}

proof fn lemma_on_shared_interest(h: HubView, node: NodeId, groups: Vec<RemoteSharedGroup>)
    ensures
        keeps(h, h.after(HubCommand::RemoteSharedInterest { node, groups })),
{
    broadcast use group_settled;

    reveal(HubView::after);
    reveal(HubView::after_cluster);
}

proof fn lemma_on_snapshot(h: HubView, node: NodeId, messages: Vec<RetainedWireEntry>)
    ensures
        keeps(h, h.after(HubCommand::RemoteRetainedSnapshot { node, messages })),
{
    broadcast use group_settled;

    reveal(HubView::after);
    reveal(HubView::after_cluster);
}

proof fn lemma_on_digest(h: HubView, node: NodeId, theirs: (u64, u64, u64), ids: Vec<(u64, u64)>)
    ensures
        keeps(h, h.after(HubCommand::RemoteRetainedDigest { node, theirs, ids })),
{
    broadcast use group_settled;

    reveal(HubView::after);
    reveal(HubView::after_cluster);
}

proof fn lemma_on_request(h: HubView, node: NodeId)
    ensures
        keeps(h, h.after(HubCommand::RemoteRetainedRequest { node })),
{
    broadcast use group_settled;

    reveal(HubView::after);
    reveal(HubView::after_cluster);
}

proof fn lemma_on_handoff(
    h: HubView,
    node: NodeId,
    topic: String,
    payload: Payload,
    qos: u8,
    app: Arc<AppProperties>,
    seq: u64,
)
    ensures
        keeps(h, h.after(HubCommand::RemoteRetainedCommit { node, topic, payload, qos, app, seq })),
{
    broadcast use group_settled;

    reveal(HubView::after);
    reveal(HubView::after_cluster);
    let m = MutationView {
        topic: topic@,
        payload: payload.deep_view(),
        qos,
        app: app.deep_view(),
        reply: Some((node.deep_view(), seq)),
        publish: None,
    };
    lemma_taking_over(h, node.deep_view(), seq, m);
}

proof fn lemma_on_handoff_ack(h: HubView, node: NodeId, seq: u64, token: Option<(u64, u64)>)
    ensures
        keeps(h, h.after(HubCommand::RemoteRetainedCommitAck { node, seq, token })),
{
    broadcast use group_settled;

    reveal(HubView::after);
    reveal(HubView::after_cluster);
    lemma_handoff_answered(h, node.deep_view(), seq, token);
}

proof fn lemma_on_commit(h: HubView, mutation: RetainedMutation, token: Option<(u64, u64)>)
    ensures
        keeps(h, h.after(HubCommand::RetainedCommitDone { mutation, token })),
{
    broadcast use group_settled;

    reveal(HubView::after);
    reveal(HubView::after_cluster);
    lemma_committed(h, mutation.deep_view(), token);
}

proof fn lemma_on_update(h: HubView, mutation: RetainedMutation, under: (u64, u64))
    ensures
        keeps(h, h.after(HubCommand::RemoteRetainedUpdate { mutation, under })),
{
    broadcast use group_settled;

    reveal(HubView::after);
    reveal(HubView::after_cluster);
}

proof fn lemma_on_shared(h: HubView, client: ClientId, publication: Publication)
    ensures
        keeps(h, h.after(HubCommand::RemoteSharedDeliver { client, publication })),
{
    broadcast use group_settled;

    reveal(HubView::after);
    reveal(HubView::after_cluster);
    let p = publication.deep_view();
    lemma_delivering(h, client.deep_view(), p, p.qos, false, GateView::Nobody);
}

proof fn lemma_on_shared_acked(
    h: HubView,
    node: NodeId,
    seq: u64,
    client: ClientId,
    publication: Publication,
)
    ensures
        keeps(h, h.after(HubCommand::RemoteSharedDeliverAcked { node, seq, client, publication })),
{
    broadcast use group_settled;

    reveal(HubView::after);
    reveal(HubView::after_cluster);
    let p = publication.deep_view();
    lemma_remote_delivery(h, node.deep_view(), seq, client.deep_view(), p);
}

proof fn lemma_on_forwarded(h: HubView, node: NodeId, seq: u64, publication: Publication)
    ensures
        keeps(h, h.after(HubCommand::RemotePublishAcked { node, seq, publication })),
{
    broadcast use group_settled;

    reveal(HubView::after);
    reveal(HubView::after_cluster);
    lemma_applying_remote(h, node.deep_view(), seq, publication.deep_view());
}

proof fn lemma_on_ack(h: HubView, node: NodeId, seq: u64, ok: bool)
    ensures
        keeps(h, h.after(HubCommand::RemotePublishAck { node, seq, ok })),
{
    broadcast use group_settled;

    reveal(HubView::after);
    reveal(HubView::after_cluster);
    lemma_answered(h, node.deep_view(), seq, ForwardVerdict::Stored);
    lemma_answered(h, node.deep_view(), seq, ForwardVerdict::Failed);
}

proof fn lemma_on_verdict(h: HubView, node: NodeId, seq: u64, verdict: ForwardVerdict)
    ensures
        keeps(h, h.after(HubCommand::RemotePublishVerdict { node, seq, verdict })),
{
    broadcast use group_settled;

    reveal(HubView::after);
    reveal(HubView::after_cluster);
    lemma_answered(h, node.deep_view(), seq, verdict);
}

proof fn lemma_on_remote(h: HubView, publication: Publication)
    ensures
        keeps(h, h.after(HubCommand::RemotePublish { publication })),
{
    broadcast use group_settled;

    reveal(HubView::after);
    reveal(HubView::after_cluster);
    lemma_applying(h, publication.deep_view(), None, GateView::Nobody);
}

proof fn lemma_on_inherited(h: HubView, sessions: Vec<StoredSession>)
    ensures
        keeps(h, h.after(HubCommand::InheritedSessions { sessions })),
{
    broadcast use group_settled;

    reveal(HubView::after);
    reveal(HubView::after_cluster);
    lemma_inheriting(h, sessions.deep_view());
}

proof fn lemma_on_ping(h: HubView, asker: u64)
    ensures
        keeps(h, h.after(HubCommand::Ping { asker })),
{
    broadcast use group_settled;

    reveal(HubView::after);
    reveal(HubView::after_cluster);
}

proof fn lemma_on_tick(h: HubView)
    ensures
        keeps(h, h.after(HubCommand::Tick)),
{
    broadcast use group_settled;

    reveal(HubView::after);
    reveal(HubView::after_cluster);
    lemma_ticking(h);
}

proof fn lemma_after(h: HubView, cmd: HubCommand)
    requires
        !(cmd is SetBrownout),
        !(cmd is Publish),
        !(cmd is RetainedStored),
    ensures
        keeps(h, h.after(cmd)),
{
    match cmd {
        HubCommand::Attach { pending, clean_start } => {
            lemma_on_attach(h, pending, clean_start);
        },
        HubCommand::SessionRecovered { pending, recovery, queue, denied } => {
            lemma_on_recovered(h, pending, recovery, queue, denied);
        },
        HubCommand::Subscribe { client, wishes, reply, stored } => {
            lemma_on_subscribe(h, client, wishes, reply, stored);
        },
        HubCommand::SetQuotas(quotas) => {
            lemma_on_quotas(h, quotas);
        },
        HubCommand::SetLimits(limits) => {
            lemma_on_limits(h, limits);
        },
        HubCommand::Unsubscribe { client, filters } => {
            lemma_on_unsubscribe(h, client, filters);
        },
        HubCommand::PubAck { client, pkid } => {
            lemma_on_puback(h, client, pkid);
        },
        HubCommand::PubRec { client, pkid } => {
            lemma_on_pubrec(h, client, pkid);
        },
        HubCommand::PubComp { client, pkid } => {
            lemma_on_pubcomp(h, client, pkid);
        },
        HubCommand::Detach { client, conn_id, graceful } => {
            lemma_on_detach(h, client, conn_id, graceful);
        },
        HubCommand::Evict { client } => {
            lemma_on_evict(h, client);
        },
        HubCommand::SweepIdentities(policy) => {
            lemma_on_policy(h, policy);
        },
        HubCommand::PacketWritten { client, conn_id, bytes } => {
            lemma_on_written(h, client, conn_id, bytes);
        },
        HubCommand::LaneStarted { client } => {
            lemma_on_started(h, client);
        },
        HubCommand::AppendDone { job, outcome } => {
            lemma_on_appended(h, job, outcome);
        },
        HubCommand::Qos2OpDone { client, step } => {
            lemma_on_qos2_step(h, client, step);
        },
        HubCommand::PkidBlockReserved { client, result } => {
            lemma_on_reserved(h, client, result);
        },
        HubCommand::PeerConnected { node, peer, ids } => {
            lemma_on_linked(h, node, peer, ids);
        },
        HubCommand::PeerDisconnected { node, conn_id } => {
            lemma_on_unlinked(h, node, conn_id);
        },
        HubCommand::PeerDead { node } => {
            lemma_on_death(h, node);
        },
        HubCommand::SetRing(ring) => {
            lemma_on_ring(h, ring);
        },
        HubCommand::RemoteInterest { node, filters } => {
            lemma_on_interest(h, node, filters);
        },
        HubCommand::RemoteSharedInterest { node, groups } => {
            lemma_on_shared_interest(h, node, groups);
        },
        HubCommand::RemoteRetainedSnapshot { node, messages } => {
            lemma_on_snapshot(h, node, messages);
        },
        HubCommand::RemoteRetainedDigest { node, theirs, ids } => {
            lemma_on_digest(h, node, theirs, ids);
        },
        HubCommand::RemoteRetainedRequest { node } => {
            lemma_on_request(h, node);
        },
        HubCommand::RemoteRetainedCommit { node, topic, payload, qos, app, seq } => {
            lemma_on_handoff(h, node, topic, payload, qos, app, seq);
        },
        HubCommand::RemoteRetainedCommitAck { node, seq, token } => {
            lemma_on_handoff_ack(h, node, seq, token);
        },
        HubCommand::RetainedCommitDone { mutation, token } => {
            lemma_on_commit(h, mutation, token);
        },
        HubCommand::RemoteRetainedUpdate { mutation, under } => {
            lemma_on_update(h, mutation, under);
        },
        HubCommand::RemoteSharedDeliver { client, publication } => {
            lemma_on_shared(h, client, publication);
        },
        HubCommand::RemoteSharedDeliverAcked { node, seq, client, publication } => {
            lemma_on_shared_acked(h, node, seq, client, publication);
        },
        HubCommand::RemotePublishAcked { node, seq, publication } => {
            lemma_on_forwarded(h, node, seq, publication);
        },
        HubCommand::RemotePublishAck { node, seq, ok } => {
            lemma_on_ack(h, node, seq, ok);
        },
        HubCommand::RemotePublishVerdict { node, seq, verdict } => {
            lemma_on_verdict(h, node, seq, verdict);
        },
        HubCommand::RemotePublish { publication } => {
            lemma_on_remote(h, publication);
        },
        HubCommand::InheritedSessions { sessions } => {
            lemma_on_inherited(h, sessions);
        },
        HubCommand::Ping { asker } => {
            lemma_on_ping(h, asker);
        },
        HubCommand::Tick => {
            lemma_on_tick(h);
        },
        _ => {},
    }
}

/// Whether `cmd` says that the store took the retained message of a publish whose publisher waits
/// under the name `token`.
pub open spec fn store_agrees(h: HubView, cmd: HubCommand, token: u64) -> bool {
    match cmd {
        HubCommand::RetainedStored { write, ok } => ok && match write.deep_view().owed {
            ThenView::Gate(id) => lookup(h.ledger.entries, id) matches Some(p) && p.done == Some(
                token,
            ),
            _ => false,
        },
        _ => false,
    }
}

proof fn lemma_retained_answered(h: HubView, w: WriteView, ok: bool)
    ensures
        !(ok && w.owed is Gate) ==> keeps(h, h.retained_answered(w, ok)),
        h.ledger.sound() ==> h.retained_answered(w, ok).ledger.sound(),
        h.retained_answered(w, ok).brownout == h.brownout,
        h.retained_answered(w, ok).axes == h.axes,
        h.ledger.sound() ==> forall|t: u64|
            within(
                #[trigger] h.retained_answered(w, ok).accounts_for(t),
                plus(
                    h.accounts_for(t),
                    (
                        0nat,
                        one_if(
                            ok && (w.owed matches ThenView::Gate(id) && (lookup(
                                h.ledger.entries,
                                id,
                            ) matches Some(p) && p.done == Some(t))),
                        ),
                    ),
                ),
            ),
{
    broadcast use group_settled;

    let h1 = if ok {
        h.with_retained(h.retained.stored(w.message))
    } else {
        h
    };
    match w.owed {
        ThenView::Gate(id) => {
            lemma_dropping(h1, id);
            if h.ledger.sound() {
                match lookup(h.ledger.entries, id) {
                    Some(p) => {
                        lemma_with(h.ledger, id, p, PendingView { awaiting_store: false, ..p });
                    },
                    None => {},
                }
            }
            let h2 = match lookup(h1.ledger.entries, id) {
                Some(p) => h1.with_ledger(
                    h1.ledger.with(id, PendingView { awaiting_store: false, ..p }),
                ),
                None => h1,
            };
            lemma_completing(h2, id);
        },
        _ => {
            lemma_repaying(h1, w.owed, LaneOutcome::Passed);
            lemma_repaying(h1, w.owed, LaneOutcome::Failed);
        },
    }
}

/// Whether `b` is sound where `a` is, accounts for the publishers that `cmd` takes on and for no
/// other, and frees from waiting for the store only whom `cmd` says that the store agrees with.
pub open spec fn obeys(a: HubView, b: HubView, cmd: HubCommand) -> bool {
    &&& b.sound()
    &&& forall|t: u64|
        within(
            #[trigger] b.accounts_for(t),
            plus(
                a.accounts_for(t),
                (one_if(asks_as(cmd, t)), one_if(asks_as(cmd, t) || store_agrees(a, cmd, t))),
            ),
        )
}

proof fn lemma_on_brownout(h: HubView, axis: BrownoutAxis, on: bool)
    requires
        h.sound(),
    ensures
        obeys(
            h,
            h.after(HubCommand::SetBrownout { axis, on }),
            HubCommand::SetBrownout { axis, on },
        ),
{
    broadcast use group_settled;

    reveal(HubView::after);
}

proof fn lemma_on_publish(
    h: HubView,
    publication: Publication,
    publisher: Option<ClientId>,
    done: Option<u64>,
    v5: bool,
    relaxed: bool,
)
    requires
        h.sound(),
        h.ledger.publish_ids < u64::MAX,
    ensures
        ({
            let cmd = HubCommand::Publish { publication, publisher, done, v5, relaxed };
            obeys(h, h.after(cmd), cmd)
        }),
{
    reveal(HubView::after);
    lemma_accepting(h, publication.deep_view(), publisher.deep_view(), done, v5, relaxed);
}

proof fn lemma_on_stored(h: HubView, write: RetainedWrite, ok: bool)
    requires
        h.sound(),
    ensures
        obeys(
            h,
            h.after(HubCommand::RetainedStored { write, ok }),
            HubCommand::RetainedStored { write, ok },
        ),
{
    reveal(HubView::after);
    lemma_retained_answered(h, write.deep_view(), ok);
}

proof fn lemma_command(h: HubView, cmd: HubCommand)
    requires
        h.sound(),
        h.ledger.publish_ids < u64::MAX,
    ensures
        obeys(h, h.after(cmd), cmd),
{
    match cmd {
        HubCommand::SetBrownout { axis, on } => {
            lemma_on_brownout(h, axis, on);
        },
        HubCommand::Publish { publication, publisher, done, v5, relaxed } => {
            lemma_on_publish(h, publication, publisher, done, v5, relaxed);
        },
        HubCommand::RetainedStored { write, ok } => {
            lemma_on_stored(h, write, ok);
        },
        _ => {
            lemma_after(h, cmd);
        },
    }
}

/// Whether `cmd` is a publish whose publisher waits for an answer under the name `token`.
pub open spec fn asks_as(cmd: HubCommand, token: u64) -> bool {
    cmd matches HubCommand::Publish { done: Some(t), .. } && t == token
}

/// A hub is sound from the start, and stays sound whatever it is told, as long as it has numbers
/// to give to publishes: the publishes that wait stand in the order in which they came, no more
/// than the cap allows; every number under which an answer is expected was handed out, and leads
/// to the publish that waits for it; a publish whose acknowledgement waits for routing to settle
/// is delivered again while it does; and growth is refused exactly while a resource is over its
/// watermark.
pub proof fn law_hub_stays_sound(node: Seq<char>, h: HubView, cmd: HubCommand)
    requires
        h.sound(),
        h.ledger.publish_ids < u64::MAX,
    ensures
        HubView::fresh(node).sound(),
        h.after(cmd).sound(),
{
    assert(HubView::fresh(node).ledger.sound()) by {
        reveal(LedgerView::sound);
    }
    lemma_command(h, cmd);
}

/// Every publisher that waits is settled with exactly once: a publish that comes with a name is
/// accounted for under it once more than before, as one that waits or as one that was answered or
/// left without an answer, and nothing else that the hub is told adds to that or takes from it.
pub proof fn law_every_publisher_is_settled_with(h: HubView, cmd: HubCommand, token: u64)
    requires
        h.sound(),
        h.ledger.publish_ids < u64::MAX,
    ensures
        h.after(cmd).accounts_for(token).0 == h.accounts_for(token).0 + (if asks_as(cmd, token) {
            1nat
        } else {
            0
        }),
{
    lemma_command(h, cmd);
}

/// How often a publisher was told that a publish was accepted, and how often it waits for anything
/// but the store, taken together, grow by nothing but a publish of its own and the word of the
/// store that it took a retained message. So while every publish of a publisher waits for the
/// store, nothing else has it told that one was accepted.
pub proof fn law_accepted_once_stored(h: HubView, cmd: HubCommand, token: u64)
    requires
        h.sound(),
        h.ledger.publish_ids < u64::MAX,
        !asks_as(cmd, token),
        !store_agrees(h, cmd, token),
    ensures
        h.after(cmd).accounts_for(token).1 <= h.accounts_for(token).1,
        waiting_for(h.ledger.entries, token).1 == 0 ==> settled_by(h.after(cmd).effects, token).1
            <= settled_by(h.effects, token).1,
{
    lemma_command(h, cmd);
    assert(within(h.after(cmd).accounts_for(token), plus(h.accounts_for(token), (0, 0))));
}

proof fn lemma_asked(h: HubView, p: PublicationView, id: u64, q: PendingView, token: u64)
    requires
        h.ledger.sound(),
        lookup(h.ledger.entries, id) == Some(q),
        q.done == Some(token),
        !q.awaiting_store,
        h.stores(p),
    ensures
        h.keeping(p, GateView::Pending(id)).ledger.sound(),
        h.keeping(p, GateView::Pending(id)).accounts_for(token).1 < h.accounts_for(token).1,
{
    broadcast use group_settled;

    lemma_with(h.ledger, id, q, PendingView { awaiting_store: true, ..q });
    let kept = h.keeping(p, GateView::Pending(id));
    assert(plus(waiting_for(kept.ledger.entries, token), weight(q, token)) == plus(
        waiting_for(h.ledger.entries, token),
        (1, 0),
    ));
}

proof fn lemma_turned_away(h: HubView, id: u64, q: PendingView, token: u64, r: PublishRefusal)
    requires
        h.ledger.sound(),
        lookup(h.ledger.entries, id) == Some(q),
        q.done == Some(token),
        !q.awaiting_store,
    ensures
        h.refusing(id, r).accounts_for(token).1 < h.accounts_for(token).1,
{
    broadcast use group_settled;

    lemma_waiting_gone(h.ledger, id, token);
    assert(waiting_for(h.ledger.dropped(id).entries, token).1 + 1 == waiting_for(
        h.ledger.entries,
        token,
    ).1);
    assert(settled_by(h.ledger.refuse_effects(id, r), token).1 == 0);
}

proof fn lemma_taken_in(h: HubView, p: PublicationView, token: u64, relaxed: bool)
    requires
        h.sound(),
        h.ledger.publish_ids < u64::MAX,
        h.ledger.registered_id(h.instant) is Some,
    ensures
        ({
            let id = h.ledger.registered_id(h.instant)->Some_0;
            let h1 = h.with_ledger(
                h.ledger.registered(token, p, h.cluster.unsettled(), h.instant),
            ).doing_all(h.ledger.register_effects(token, h.instant));
            let h2 = if relaxed {
                h1.relaxing(id)
            } else {
                h1
            };
            &&& h2.ledger.sound()
            &&& h2.accounts_for(token).1 <= h.accounts_for(token).1 + 1
            &&& lookup(h2.ledger.entries, id) matches Some(q) && q.done == Some(token)
                && !q.awaiting_store
        }),
{
    broadcast use group_settled;

    let id = h.ledger.registered_id(h.instant)->Some_0;
    let h1 = h.with_ledger(
        h.ledger.registered(token, p, h.cluster.unsettled(), h.instant),
    ).doing_all(h.ledger.register_effects(token, h.instant));
    lemma_ledger_registered(h.ledger, token, p, h.cluster.unsettled(), h.instant);
    assert(h1.accounts_for(token).1 <= h.accounts_for(token).1 + 1);
    let q = lookup(h1.ledger.entries, id)->Some_0;
    lemma_relaxing(h1, id);
    assert(within(h1.relaxing(id).accounts_for(token), h1.accounts_for(token)));
    crate::assoc::lemma_lookup_put(
        h1.ledger.entries,
        id,
        PendingView { relaxed: true, ..q },
        id,
    );
}

proof fn lemma_refused_at_the_door(h: HubView, token: u64, p: PublicationView, wait: bool)
    requires
        h.ledger.registered_id(h.instant) is None,
    ensures
        settled_by(h.effects + h.ledger.register_effects(token, h.instant), token).1 == settled_by(
            h.effects,
            token,
        ).1,
        h.ledger.registered(token, p, wait, h.instant).entries == h.ledger.entries,
{
    broadcast use group_settled;

}

/// A publisher whose retained message the store has to take is not told by its publish that it was
/// accepted: the publish waits for the store, however content its publisher is with less. Nor is
/// it at the start of anything that would have it told without the store.
pub proof fn law_retained_publish_waits_for_store(
    h: HubView,
    p: PublicationView,
    publisher: Option<Seq<char>>,
    token: u64,
    relaxed: bool,
)
    requires
        h.sound(),
        h.ledger.publish_ids < u64::MAX,
        h.stores(p),
    ensures
        h.publishing_for(p, publisher, token, relaxed).accounts_for(token).1 <= h.accounts_for(
            token,
        ).1,
{
    let h1 = h.with_ledger(
        h.ledger.registered(token, p, h.cluster.unsettled(), h.instant),
    ).doing_all(h.ledger.register_effects(token, h.instant));
    match h.ledger.registered_id(h.instant) {
        None => {
            lemma_refused_at_the_door(h, token, p, h.cluster.unsettled());
        },
        Some(id) => {
            lemma_taken_in(h, p, token, relaxed);
            let h2 = if relaxed {
                h1.relaxing(id)
            } else {
                h1
            };
            let q = lookup(h2.ledger.entries, id)->Some_0;
            let gate = gate_of(Some(id));
            let (h3, out) = h2.publishing(p, publisher, Some(id));
            let early = h2.shared_plan_owes(p.topic, p.qos) && h2.brownout;
            if early || h2.applying(p, publisher, gate).1 is Refused {
                law_refused_apply_changes_nothing(h2, p, publisher, gate);
                lemma_turned_away(h2, id, q, token, out->Refused_0);
            } else {
                lemma_asked(h2, p, id, q, token);
                lemma_publishing_kept(h2, p, publisher, id);
                lemma_concluding(h3, id, out);
                let kept = h2.keeping(p, gate);
                assert(within(h3.accounts_for(token), kept.accounts_for(token)));
                assert(within(
                    h3.concluding(id, out).accounts_for(token),
                    h3.accounts_for(token),
                ));
            }
        },
    }
}

/// What follows the store's being asked frees nobody.
proof fn lemma_publishing_kept(
    h: HubView,
    p: PublicationView,
    publisher: Option<Seq<char>>,
    id: u64,
)
    requires
        !(h.applying(p, publisher, gate_of(Some(id))).1 is Refused),
        !(h.shared_plan_owes(p.topic, p.qos) && h.brownout),
    ensures
        keeps(h.keeping(p, gate_of(Some(id))), h.publishing(p, publisher, Some(id)).0),
{
    let gate = gate_of(Some(id));
    lemma_delivering_all(
        h.keeping(p, gate),
        p,
        h.targets(p.topic, publisher, p.retain),
        gate,
    );
    lemma_rest_of_publishing(h, p, publisher, Some(id));
}

/// The hub after it was told `cmds`, one after the other.
pub open spec fn after_all(h: HubView, cmds: Seq<HubCommand>) -> HubView
    decreases cmds.len(),
{
    if cmds.len() == 0 {
        h
    } else {
        after_all(h, cmds.drop_last()).after(cmds.last())
    }
}

/// Whether `cmds`, told to `h` one after the other, have no publish under the name `token` and no
/// word of the store that it took the retained message of one; and `h` has numbers to give to
/// publishes throughout.
pub open spec fn without_word_of_store(h: HubView, cmds: Seq<HubCommand>, token: u64) -> bool
    decreases cmds.len(),
{
    if cmds.len() == 0 {
        true
    } else {
        let before = after_all(h, cmds.drop_last());
        &&& without_word_of_store(h, cmds.drop_last(), token)
        &&& before.ledger.publish_ids < u64::MAX
        &&& !asks_as(cmds.last(), token)
        &&& !store_agrees(before, cmds.last(), token)
    }
}

proof fn lemma_without_word_of_store(h: HubView, cmds: Seq<HubCommand>, token: u64)
    requires
        h.sound(),
        without_word_of_store(h, cmds, token),
    ensures
        after_all(h, cmds).sound(),
        after_all(h, cmds).accounts_for(token).1 <= h.accounts_for(token).1,
    decreases cmds.len(),
{
    if cmds.len() > 0 {
        let before = after_all(h, cmds.drop_last());
        lemma_without_word_of_store(h, cmds.drop_last(), token);
        law_hub_stays_sound(Seq::empty(), before, cmds.last());
        law_accepted_once_stored(before, cmds.last(), token);
    }
}

/// A retained publish with a guarantee is answered as accepted only after the store took its
/// message: whatever the hub is told after the publish, as long as it is not told that, the
/// publisher is not told that the publish was accepted.
pub proof fn law_accepted_only_after_store(
    h: HubView,
    p: PublicationView,
    publisher: Option<Seq<char>>,
    token: u64,
    v5: bool,
    relaxed: bool,
    cmds: Seq<HubCommand>,
)
    requires
        h.sound(),
        h.ledger.publish_ids < u64::MAX,
        h.stores(p),
        !h.over_retained_quota(p),
        h.accounts_for(token).1 == 0,
        without_word_of_store(
            h.accepting(p, publisher, Some(token), v5, relaxed),
            cmds,
            token,
        ),
    ensures
        settled_by(
            after_all(h.accepting(p, publisher, Some(token), v5, relaxed), cmds).effects,
            token,
        ).1 == 0,
{
    let h1 = h.accepting(p, publisher, Some(token), v5, relaxed);
    assert(h1 == h.publishing_for(p, publisher, token, relaxed));
    law_retained_publish_waits_for_store(h, p, publisher, token, relaxed);
    lemma_publishing_for(h, p, publisher, token, relaxed);
    lemma_without_word_of_store(h1, cmds, token);
}

} // verus!
