//! Delivery to the clients of this node.

use vstd::prelude::*;

use crate::assoc::{bound, cut, lookup, lookup_or, put, push_item};
use crate::effects::{Effect, EffectView};
use crate::hub::{held, Hub, HubView, SessionsView};
use crate::ids::{deadline, deadline_of, ClientId};
use crate::inflight::{BacklogEntry, BacklogView, Inflight, InflightView, OutState, PendingOut,
    PendingOutView, MAX_OUTBOUND_QUEUE, PKID_BLOCK};
use crate::lanes::{AppendGate, AppendJob, AppendThen, GateView, JobView, Lane, LaneJob, LaneJobView,
    LaneWork, RemoteAppendGate, ThenView, WorkView};
use crate::ledger::PendingView;
use crate::message::{message_bytes, message_size, Message, MessageView, Publication,
    PublicationView};
use crate::outcome::{DurableOutcome, PublishRefusal};
use crate::packet::{publish_of, publish_packet};
use crate::qos::{min_qos, weaker, QoS};
use crate::retained::WriteView;
use crate::subscriptions::{any_matches, matching, some_filter_matches, strongest, strongest_grant};

verus! {

/// What became of a job for a lane.
#[derive(Debug, Clone, Copy, PartialEq, Eq, Structural)]
pub enum Submitted {
    /// The lane took it.
    Queued,
    /// Policy turned it away.
    Refused(PublishRefusal),
    /// The lane is full.
    Full,
}

/// What became of a message for the wire.
#[derive(Debug, Clone, Copy, PartialEq, Eq, Structural)]
pub enum QosSend {
    /// It was sent.
    Sent,
    /// Its packet id is being recorded.
    Staged,
    /// It waits again.
    Deferred,
}

/// The room that a message takes on a connection.
pub open spec fn room(m: MessageView) -> nat {
    if message_size(m) > usize::MAX {
        usize::MAX as nat
    } else {
        message_size(m)
    }
}

/// The guarantee decides what the subscriber is to answer first.
pub open spec fn first_state(qos: QoS) -> OutState {
    if qos == QoS::AtLeastOnce {
        OutState::AwaitingPubAck
    } else {
        OutState::AwaitingPubRec
    }
}

/// Those for whom a message is, with the guarantee they were granted and the retain flag they
/// get it with.
pub type Targets = Seq<(Seq<char>, QoS, bool)>;

impl HubView {
    /// The strongest guarantee that `client` was granted for `topic`.
    pub open spec fn granted(self, client: Seq<char>, topic: Seq<char>) -> QoS {
        strongest(lookup_or(self.routing.subs_by_client, client, Seq::empty()), topic)
    }

    /// Whether `client` published a message that it does not want back.
    pub open spec fn suppressed(
        self,
        client: Seq<char>,
        topic: Seq<char>,
        publisher: Option<Seq<char>>,
    ) -> bool {
        publisher == Some(client) && any_matches(
            lookup_or(self.routing.no_local, client, Seq::empty()),
            topic,
        )
    }

    /// Whether `client` gets messages of `topic` with the retain flag they came with.
    pub open spec fn keeps_retain(self, client: Seq<char>, topic: Seq<char>) -> bool {
        any_matches(lookup_or(self.routing.retain_as_published, client, Seq::empty()), topic)
    }

    /// Those of `clients` for whom a message is.
    pub open spec fn targets_among(
        self,
        clients: Seq<Seq<char>>,
        topic: Seq<char>,
        publisher: Option<Seq<char>>,
        retain: bool,
    ) -> Targets
        decreases clients.len(),
    {
        if clients.len() == 0 {
            Seq::empty()
        } else {
            let rest = self.targets_among(clients.drop_last(), topic, publisher, retain);
            let c = clients.last();
            if self.suppressed(c, topic, publisher) {
                rest
            } else {
                rest.push((c, self.granted(c, topic), retain && self.keeps_retain(c, topic)))
            }
        }
    }

    /// The clients of this node for whom a message is.
    pub open spec fn targets(
        self,
        topic: Seq<char>,
        publisher: Option<Seq<char>>,
        retain: bool,
    ) -> Targets {
        self.targets_among(matching(self.routing.table, topic), topic, publisher, retain)
    }

    /// Whether a delivery has to be recorded.
    pub open spec fn owes_durable(self, client: Seq<char>, qos: QoS) -> bool {
        self.persistent(client) && qos != QoS::AtMostOnce
    }

    /// Whether a delivery to some of `targets` has to be recorded.
    pub open spec fn some_owe(self, targets: Targets, qos: QoS) -> bool {
        exists|i: int|
            0 <= i < targets.len() && self.owes_durable(
                (#[trigger] targets[i]).0,
                weaker(qos, targets[i].1),
            )
    }

    /// Why a fan-out that has to be recorded is turned away, before anything is done for it.
    pub open spec fn plan_refusal(self, owes: bool) -> Option<PublishRefusal> {
        if owes && self.brownout {
            Some(PublishRefusal::Brownout)
        } else {
            None
        }
    }

    /// With one more job owed to whoever waits for it; `deep` says whether its lane was deep.
    pub open spec fn owing(self, owed: ThenView, deep: bool) -> HubView {
        match owed {
            ThenView::Gate(id) => match lookup(self.ledger.entries, id) {
                Some(p) => self.with_ledger(
                    self.ledger.with(
                        id,
                        PendingView {
                            appends_outstanding: held(p.appends_outstanding, 1),
                            congested: p.congested || deep,
                            ..p
                        },
                    ),
                ),
                None => self,
            },
            ThenView::Peer(node, seq) => {
                let g = lookup_or(
                    self.sessions.remote_appends,
                    (node, seq),
                    RemoteAppendGate { awaiting: 0, worst: DurableOutcome::Met },
                );
                HubView {
                    sessions: SessionsView {
                        remote_appends: put(
                            self.sessions.remote_appends,
                            (node, seq),
                            RemoteAppendGate { awaiting: held(g.awaiting, 1), ..g },
                        ),
                        ..self.sessions
                    },
                    ..self
                }
            },
            ThenView::Ungated => self,
        }
    }

    /// With `job` handed to its lane, unless the lane is full.
    pub open spec fn submitting(self, job: JobView) -> (HubView, Submitted) {
        let lane = self.lane(job.client);
        if lane.takes_delivery() {
            (
                self.with_lane(job.client, lane.taken_in()).doing(
                    EffectView::Lane { client: job.client, job: LaneJobView::Deliver(job) },
                ).owing(job.owed, lane.deeper_than(self.limits.soft_lane_depth)),
                Submitted::Queued,
            )
        } else {
            (self.with_lane(job.client, lane), Submitted::Full)
        }
    }

    /// The job that records `m` for `client`.
    pub open spec fn append_job(
        self,
        client: Seq<char>,
        m: MessageView,
        message_expiry: Option<u32>,
        gate: GateView,
        planned_conn: Option<u64>,
    ) -> JobView {
        JobView {
            client,
            message: m,
            work: WorkView::Append {
                expiry_at: match m.expires_at {
                    Some(t) => Some(t),
                    None => deadline(self.now, message_expiry),
                },
            },
            owed: gate.owed(),
            planned_conn,
            retain: m.retain,
            message_expiry,
        }
    }

    /// With `m` on its way to being recorded for `client`.
    pub open spec fn appending(
        self,
        client: Seq<char>,
        m: MessageView,
        message_expiry: Option<u32>,
        gate: GateView,
        planned_conn: Option<u64>,
    ) -> (HubView, Submitted) {
        if self.brownout {
            (self, Submitted::Refused(PublishRefusal::Brownout))
        } else {
            self.submitting(self.append_job(client, m, message_expiry, gate, planned_conn))
        }
    }

    /// With `m` on its way to `client`, behind what is being recorded for it.
    pub open spec fn passing(
        self,
        client: Seq<char>,
        m: MessageView,
        message_expiry: Option<u32>,
        planned_conn: Option<u64>,
    ) -> HubView {
        self.submitting(
            JobView {
                client,
                message: m,
                work: WorkView::Passthrough,
                owed: ThenView::Ungated,
                planned_conn,
                retain: m.retain,
                message_expiry,
            },
        ).0
    }

    /// With the durable queue of `client` truncated as far as nothing is owed.
    pub open spec fn truncating(self, client: Seq<char>) -> HubView {
        match lookup(self.sessions.inflight, client) {
            Some(inf) => if inf.safe_through() > inf.acked_through {
                self.with_inf(
                    client,
                    InflightView { acked_through: inf.safe_through(), ..inf },
                ).doing(EffectView::Ack { client, up_to: inf.safe_through() })
            } else {
                self
            },
            None => self,
        }
    }

    /// With `e` waiting first, until packet ids are reserved.
    pub open spec fn deferring(self, client: Seq<char>, inf: InflightView, e: BacklogView) -> HubView {
        if inf.reserve_outstanding {
            self.with_inf(client, inf.waiting_first(e))
        } else {
            self.with_inf(
                client,
                InflightView { reserve_outstanding: true, ..inf.waiting_first(e) },
            ).doing(EffectView::ReservePacketIds { client, count: PKID_BLOCK })
        }
    }

    /// The job that records that `pkid` stands for the message at `offset`.
    pub open spec fn record_job(
        self,
        client: Seq<char>,
        e: BacklogView,
        pkid: u16,
        offset: u64,
    ) -> JobView {
        JobView {
            client,
            message: e.message,
            work: WorkView::RecordOutbound { pkid, offset },
            owed: ThenView::Ungated,
            planned_conn: self.conn_of(client),
            retain: e.retain,
            message_expiry: e.message_expiry,
        }
    }

    /// With packet id `pkid` being recorded for `e`; nothing is sent before it is.
    pub open spec fn staging(
        self,
        client: Seq<char>,
        inf: InflightView,
        e: BacklogView,
        pkid: u16,
        offset: u64,
    ) -> (HubView, QosSend) {
        let parked = inf.holding(
            pkid,
            PendingOutView {
                message: e.message,
                state: OutState::AwaitingIdRecord,
                offset: Some(offset),
            },
        );
        let (h, submitted) = self.with_inf(
            client,
            InflightView { records_pending: held(inf.records_pending, 1), ..parked },
        ).submitting(self.record_job(client, e, pkid, offset));
        if submitted == Submitted::Queued {
            (h, QosSend::Staged)
        } else {
            (
                h.with_inf(
                    client,
                    InflightView {
                        pending: cut(parked.pending, pkid),
                        records_pending: (held(inf.records_pending, 1) - 1) as usize,
                        ..inf
                    }.waiting_first(e),
                ),
                QosSend::Deferred,
            )
        }
    }

    /// With `e` on the wire to `client`, as far as a packet id is at hand.
    pub open spec fn sending_qos(self, client: Seq<char>, e: BacklogView) -> (HubView, QosSend) {
        if e.message.qos == QoS::AtMostOnce {
            (
                self.sending(
                    client,
                    publish_of(e.message, None, false, e.retain, e.message_expiry),
                    room(e.message),
                ),
                QosSend::Sent,
            )
        } else {
            let (inf, id) = self.inf(client).allocated();
            match id {
                None => (self.deferring(client, inf, e), QosSend::Deferred),
                Some(pkid) => if e.message.qos == QoS::ExactlyOnce && e.offset is Some {
                    self.staging(client, inf, e, pkid, e.offset->Some_0)
                } else {
                    (
                        self.with_inf(
                            client,
                            inf.holding(
                                pkid,
                                PendingOutView {
                                    message: e.message,
                                    state: first_state(e.message.qos),
                                    offset: e.offset,
                                },
                            ),
                        ).sending(
                            client,
                            publish_of(e.message, Some(pkid), false, e.retain, e.message_expiry),
                            room(e.message),
                        ),
                        QosSend::Sent,
                    )
                },
            }
        }
    }

    /// With up to `n` of the messages that wait for `client` sent, while it may hold more.
    pub open spec fn draining(self, client: Seq<char>, n: nat) -> HubView
        decreases n,
    {
        if n == 0 || !self.is_online(client) {
            self
        } else {
            match lookup(self.sessions.inflight, client) {
                Some(inf) => if inf.is_full() || inf.records_pending > 0 || inf.backlog.len() == 0 {
                    self
                } else {
                    let (h, r) = self.with_inf(
                        client,
                        InflightView { backlog: inf.backlog.skip(1), ..inf },
                    ).sending_qos(client, inf.backlog[0]);
                    if r == QosSend::Sent {
                        h.draining(client, (n - 1) as nat)
                    } else {
                        h
                    }
                },
                None => self,
            }
        }
    }

    /// With the messages that wait for `client` sent, while it may hold more.
    pub open spec fn drained(self, client: Seq<char>) -> HubView {
        self.draining(client, self.inf(client).backlog.len())
    }

    /// Whether the connection of `client` is so far behind that `m` is shed.
    pub open spec fn sheds(self, client: Seq<char>, m: MessageView) -> bool {
        match lookup(self.sessions.online, client) {
            Some(o) => o.queued >= MAX_OUTBOUND_QUEUE || (self.limits.max_outbound_bytes matches Some(
                cap,
            ) && o.queued_bytes + room(m) > cap),
            None => false,
        }
    }

    /// With `e` sent to `client`, or waiting for its turn.
    pub open spec fn to_client(self, client: Seq<char>, e: BacklogView) -> HubView {
        let h = if e.offset is Some && e.message.qos != QoS::AtMostOnce {
            self.with_inf(client, self.inf(client).tracking(e.offset->Some_0))
        } else {
            self
        };
        if e.message.qos == QoS::AtMostOnce {
            if h.sheds(client, e.message) {
                h
            } else {
                h.sending(
                    client,
                    publish_of(e.message, None, false, e.retain, e.message_expiry),
                    room(e.message),
                )
            }
        } else if h.inf(client).must_wait() {
            let h1 = h.queueing(client, e);
            if h1.inf(client).is_full() {
                h1
            } else {
                h1.drained(client)
            }
        } else {
            h.sending_qos(client, e).0
        }
    }

    /// With `e` waiting for its turn.
    pub open spec fn queueing(self, client: Seq<char>, e: BacklogView) -> HubView {
        let inf = self.inf(client);
        let gone = inf.evicted(e, self.limits);
        let h = self.with_inf(client, inf.waiting(e, self.limits).released_all(gone));
        if gone.len() > 0 {
            h.truncating(client)
        } else {
            h
        }
    }

    /// Whether something is being recorded for `client`.
    pub open spec fn lane_busy(self, client: Seq<char>) -> bool {
        lookup(self.sessions.lanes, client) matches Some(l) && l.outstanding > 0
    }

    /// With `m` sent to `client`, which is connected; behind what is being recorded for it.
    pub open spec fn sending_in_order(
        self,
        client: Seq<char>,
        m: MessageView,
        message_expiry: Option<u32>,
    ) -> HubView {
        if self.lane_busy(client) {
            self.passing(client, m, message_expiry, self.conn_of(client))
        } else {
            self.to_client(
                client,
                BacklogView { message: m, retain: m.retain, message_expiry, offset: None },
            )
        }
    }

    /// With `p` delivered to `client` under guarantee `qos`: recorded if it has to be, sent if
    /// the client is connected. Where somebody is told, a refusal comes before anything is
    /// done.
    pub open spec fn delivering(
        self,
        client: Seq<char>,
        p: PublicationView,
        qos: QoS,
        retain: bool,
        gate: GateView,
    ) -> (HubView, DurableOutcome) {
        let m = p.message(qos, retain, self.now);
        let conn = self.conn_of(client);
        if gate.answered() && self.owes_durable(client, qos) && self.brownout {
            (self, DurableOutcome::Refused(PublishRefusal::Brownout))
        } else if self.is_online(client) {
            if self.owes_durable(client, qos) {
                let (h, s) = self.appending(client, m, p.message_expiry, gate, conn);
                match s {
                    Submitted::Queued => (h, DurableOutcome::Met),
                    Submitted::Full => (h, DurableOutcome::Failed),
                    Submitted::Refused(r) => if gate.answered() {
                        (h, DurableOutcome::Refused(r))
                    } else {
                        (h.sending_in_order(client, m, p.message_expiry), DurableOutcome::Met)
                    },
                }
            } else {
                (self.sending_in_order(client, m, p.message_expiry), DurableOutcome::Met)
            }
        } else if self.persistent(client) {
            let (h, s) = self.appending(client, m, p.message_expiry, gate, None);
            match s {
                Submitted::Queued => (h, DurableOutcome::Met),
                Submitted::Full => (h, DurableOutcome::Failed),
                Submitted::Refused(r) => if qos == QoS::AtMostOnce || !gate.answered() {
                    (h, DurableOutcome::Met)
                } else {
                    (h, DurableOutcome::Refused(r))
                },
            }
        } else {
            (self, DurableOutcome::Met)
        }
    }

    /// With `p` delivered to each of `targets`.
    pub open spec fn delivering_all(
        self,
        p: PublicationView,
        targets: Targets,
        gate: GateView,
    ) -> (HubView, DurableOutcome)
        decreases targets.len(),
    {
        if targets.len() == 0 {
            (self, DurableOutcome::Met)
        } else {
            let (h, worst) = self.delivering_all(p, targets.drop_last(), gate);
            let t = targets.last();
            let (h2, out) = h.delivering(t.0, p, weaker(p.qos, t.1), t.2, gate);
            (h2, worst.worse(out))
        }
    }

    /// Whether keeping `p` as a retained message is up to a store.
    pub open spec fn stores(self, p: PublicationView) -> bool {
        p.retain && !self.retained.durable && self.retained.backed
    }

    /// With whoever is owed an answer waiting for the store.
    pub open spec fn awaiting_store(self, owed: ThenView) -> HubView {
        match owed {
            ThenView::Gate(id) => match lookup(self.ledger.entries, id) {
                Some(p) => self.with_ledger(
                    self.ledger.with(id, PendingView { awaiting_store: true, ..p }),
                ),
                None => self,
            },
            _ => self.owing(owed, false),
        }
    }

    /// With `p` kept as a retained message, where this node keeps what it hears. Where a store is
    /// behind the messages it is asked to take the message, and whoever is told of the publish
    /// waits for what it says.
    pub open spec fn keeping(self, p: PublicationView, gate: GateView) -> HubView {
        if self.stores(p) {
            self.doing(
                EffectView::StoreRetained {
                    write: WriteView {
                        message: p.message(p.qos, true, self.now),
                        owed: gate.owed(),
                    },
                },
            ).awaiting_store(gate.owed())
        } else if p.retain && !self.retained.durable {
            HubView {
                retained: self.retained.stored(p.message(p.qos, true, self.now)),
                ..self
            }
        } else {
            self
        }
    }

    /// With `p` applied on this node: kept if it is retained, and delivered to whoever
    /// subscribes here.
    pub open spec fn applying(
        self,
        p: PublicationView,
        publisher: Option<Seq<char>>,
        gate: GateView,
    ) -> (HubView, DurableOutcome) {
        let targets = self.targets(p.topic, publisher, p.retain);
        if gate.answered() && self.some_owe(targets, p.qos) && self.brownout {
            (self, DurableOutcome::Refused(PublishRefusal::Brownout))
        } else {
            self.keeping(p, gate).delivering_all(p, targets, gate)
        }
    }
}

/// Sending a message does not change how many wait.
pub proof fn lemma_sent_keeps_backlog(h: HubView, client: Seq<char>, e: BacklogView)
    requires
        h.sending_qos(client, e).1 == QosSend::Sent,
    ensures
        h.sending_qos(client, e).0.inf(client).backlog == h.inf(client).backlog,
        h.sending_qos(client, e).0.is_online(client) == h.is_online(client),
{
    broadcast use crate::assoc::lemma_lookup_put;

    crate::inflight::law_fresh_packet_id(h.inf(client));
    let after = h.sending_qos(client, e).0;
    if e.message.qos != QoS::AtMostOnce {
        let (inf, id) = h.inf(client).allocated();
        let held_inf = inf.holding(
            id->Some_0,
            PendingOutView {
                message: e.message,
                state: first_state(e.message.qos),
                offset: e.offset,
            },
        );
        crate::assoc::lemma_lookup_put(h.sessions.inflight, client, held_inf, client);
    }
    match lookup(h.sessions.online, client) {
        Some(o) => {
            crate::assoc::lemma_lookup_put(
                h.sessions.online,
                client,
                crate::session::OnlineView {
                    queued: held(o.queued, 1),
                    queued_bytes: held(o.queued_bytes, room(e.message)),
                    ..o
                },
                client,
            );
        },
        None => {},
    }
}

impl Hub {
    /// See [`HubView::granted`].
    pub fn granted_qos(&self, client: &ClientId, topic: &str) -> (r: QoS)
        ensures
            r == self.deep_view().granted(client.deep_view(), topic@),
    {
        match self.routing.subs_by_client.get(client) {
            Some(grants) => strongest_grant(grants, topic),
            None => QoS::AtMostOnce,
        }
    }

    /// See [`HubView::suppressed`].
    pub fn suppressed_by_no_local(
        &self,
        client: &ClientId,
        topic: &str,
        publisher: Option<&ClientId>,
    ) -> (r: bool)
        ensures
            r == self.deep_view().suppressed(client.deep_view(), topic@, publisher.deep_view()),
    {
        let own = match publisher {
            Some(p) => crate::assoc::Key::same(p, client),
            None => false,
        };
        if !own {
            return false;
        }
        match self.routing.no_local.get(client) {
            Some(filters) => some_filter_matches(&filters.items, topic),
            None => false,
        }
    }

    /// See [`HubView::keeps_retain`].
    pub fn keeps_retain_flag(&self, client: &ClientId, topic: &str) -> (r: bool)
        ensures
            r == self.deep_view().keeps_retain(client.deep_view(), topic@),
    {
        match self.routing.retain_as_published.get(client) {
            Some(filters) => some_filter_matches(&filters.items, topic),
            None => false,
        }
    }

    /// See [`HubView::targets`].
    pub fn ordinary_targets(
        &self,
        topic: &str,
        publisher: Option<&ClientId>,
        source_retain: bool,
    ) -> (r: Vec<(ClientId, QoS, bool)>)
        ensures
            r.deep_view() == self.deep_view().targets(topic@, publisher.deep_view(), source_retain),
    {
        let clients = self.routing.table.matching_clients(topic);
        let ghost cs = clients.deep_view();
        let ghost h = self.deep_view();
        let ghost p = publisher.deep_view();
        let mut r: Vec<(ClientId, QoS, bool)> = Vec::new();
        let mut i: usize = 0;
        assert(r.deep_view() =~= h.targets_among(cs.take(0), topic@, p, source_retain));
        while i < clients.len()
            invariant
                i <= clients@.len(),
                cs == clients.deep_view(),
                h == self.deep_view(),
                p == publisher.deep_view(),
                r.deep_view() == h.targets_among(cs.take(i as int), topic@, p, source_retain),
            decreases clients@.len() - i,
        {
            proof {
                assert(cs.take(i as int + 1).drop_last() =~= cs.take(i as int));
                assert(cs.take(i as int + 1).last() == cs[i as int]);
            }
            let c = &clients[i];
            if !self.suppressed_by_no_local(c, topic, publisher) {
                let granted = self.granted_qos(c, topic);
                let retain = source_retain && self.keeps_retain_flag(c, topic);
                push_item(&mut r, (c.clone(), granted, retain));
            }
            i += 1;
        }
        assert(cs.take(i as int) =~= cs);
        r
    }

    /// See [`HubView::owes_durable`].
    pub fn owes_durable(&self, client: &ClientId, delivered_qos: QoS) -> (r: bool)
        ensures
            r == self.deep_view().owes_durable(client.deep_view(), delivered_qos),
    {
        self.is_persistent(client) && delivered_qos != QoS::AtMostOnce
    }

    /// See [`HubView::some_owe`].
    fn some_owe(&self, targets: &Vec<(ClientId, QoS, bool)>, qos: QoS) -> (r: bool)
        ensures
            r == self.deep_view().some_owe(targets.deep_view(), qos),
    {
        let ghost t = targets.deep_view();
        let mut i: usize = 0;
        while i < targets.len()
            invariant
                i <= targets@.len(),
                t == targets.deep_view(),
                forall|j: int|
                    0 <= j < i ==> !self.deep_view().owes_durable(
                        (#[trigger] t[j]).0,
                        weaker(qos, t[j].1),
                    ),
            decreases targets@.len() - i,
        {
            let (c, granted, _) = &targets[i];
            assert(t[i as int].0 == c.deep_view() && t[i as int].1 == *granted);
            if self.owes_durable(c, min_qos(qos, *granted)) {
                return true;
            }
            i += 1;
        }
        false
    }

    /// See [`HubView::plan_refusal`].
    pub fn plan_refusal(&self, owes_durable: bool) -> (r: Option<PublishRefusal>)
        ensures
            r == self.deep_view().plan_refusal(owes_durable),
    {
        if owes_durable && self.brownout {
            Some(PublishRefusal::Brownout)
        } else {
            None
        }
    }

    /// See [`HubView::owing`].
    fn owe(&mut self, owed: AppendThen, deep: bool)
        ensures
            final(self).deep_view() == old(self).deep_view().owing(owed.deep_view(), deep),
    {
        match owed {
            AppendThen::Gate(id) => {
                match self.ledger.entries.get_mut(&id) {
                    Some(p) => {
                        p.appends_outstanding = p.appends_outstanding.saturating_add(1);
                        p.congested = p.congested || deep;
                    },
                    None => {},
                }
            },
            AppendThen::Peer(node, seq) => {
                let g = self.sessions.remote_appends.entry_or(
                    &(node, seq),
                    RemoteAppendGate { awaiting: 0, worst: DurableOutcome::Met },
                );
                g.awaiting = g.awaiting.saturating_add(1);
            },
            AppendThen::Ungated => {},
        }
    }

    /// Hands `job` to its lane, unless the lane is full.
    pub fn submit_lane_job(&mut self, job: AppendJob) -> (r: Submitted)
        ensures
            (final(self).deep_view(), r) == old(self).deep_view().submitting(job.deep_view()),
    {
        let client = job.client.clone();
        let owed = match &job.owed {
            AppendThen::Gate(id) => AppendThen::Gate(*id),
            AppendThen::Peer(node, seq) => AppendThen::Peer(node.clone(), *seq),
            AppendThen::Ungated => AppendThen::Ungated,
        };
        let soft = self.limits.soft_lane_depth;
        let lane = self.sessions.lanes.entry_or(&client, Lane::new());
        if !lane.has_room() {
            return Submitted::Full;
        }
        let deep = lane.is_deeper_than(soft);
        lane.take_in();
        self.emit(Effect::Lane { client, job: LaneJob::Deliver(Box::new(job)) });
        self.owe(owed, deep);
        Submitted::Queued
    }

    /// See [`HubView::appending`].
    pub fn submit_append(
        &mut self,
        client: &ClientId,
        message: &Message,
        message_expiry: Option<u32>,
        gate: &AppendGate,
        planned_conn: Option<u64>,
    ) -> (r: Submitted)
        ensures
            (final(self).deep_view(), r) == old(self).deep_view().appending(
                client.deep_view(),
                message.deep_view(),
                message_expiry,
                gate.deep_view(),
                planned_conn,
            ),
    {
        if self.brownout {
            return Submitted::Refused(PublishRefusal::Brownout);
        }
        let expiry_at = match message.expires_at {
            Some(t) => Some(t),
            None => deadline_of(self.now, message_expiry),
        };
        let job = AppendJob {
            client: client.clone(),
            message: message.clone(),
            work: LaneWork::Append { expiry_at },
            owed: gate.owes(),
            planned_conn,
            retain: message.retain,
            message_expiry,
        };
        self.submit_lane_job(job)
    }

    /// See [`HubView::passing`].
    pub fn submit_passthrough(
        &mut self,
        client: &ClientId,
        message: &Message,
        message_expiry: Option<u32>,
        planned_conn: Option<u64>,
    )
        ensures
            final(self).deep_view() == old(self).deep_view().passing(
                client.deep_view(),
                message.deep_view(),
                message_expiry,
                planned_conn,
            ),
    {
        let job = AppendJob {
            client: client.clone(),
            message: message.clone(),
            work: LaneWork::Passthrough,
            owed: AppendThen::Ungated,
            planned_conn,
            retain: message.retain,
            message_expiry,
        };
        let _submitted = self.submit_lane_job(job);
    }

    /// See [`HubView::truncating`].
    pub fn truncate_acked(&mut self, client: &ClientId)
        ensures
            final(self).deep_view() == old(self).deep_view().truncating(client.deep_view()),
    {
        let mut up_to: u64 = 0;
        let mut moved = false;
        match self.sessions.inflight.get_mut(client) {
            Some(inf) => {
                let safe: u64 = inf.safe_ack();
                if safe > inf.acked_through {
                    inf.acked_through = safe;
                    up_to = safe;
                    moved = true;
                }
            },
            None => {},
        }
        proof {
            let s = old(self).deep_view().sessions.inflight;
            if bound(s, client.deep_view()) {
                crate::ledger::lemma_put_same(s, client.deep_view());
            }
        }
        if moved {
            self.emit(Effect::Ack { client: client.clone(), up_to });
        }
    }

    /// See [`HubView::staging`]; `inf` is the exchange as it stands once `pkid` was taken.
    fn stage_outbound_record(
        &mut self,
        client: &ClientId,
        entry: &BacklogEntry,
        pkid: u16,
        off: u64,
        Ghost(inf): Ghost<InflightView>,
        Ghost(base): Ghost<HubView>,
    ) -> (r: QosSend)
        requires
            old(self).deep_view() == base.with_inf(client.deep_view(), inf),
            entry.offset == Some(off),
        ensures
            (final(self).deep_view(), r) == base.staging(
                client.deep_view(),
                inf,
                entry.deep_view(),
                pkid,
                off,
            ),
    {
        broadcast use crate::assoc::lemma_lookup_put;

        let ghost c = client.deep_view();
        let ghost s0 = base.sessions.inflight;
        let planned_conn = self.conn_of(client);
        let record = self.sessions.inflight.entry_or(client, Inflight::new());
        record.pending.insert_ranked(
            pkid,
            PendingOut {
                message: entry.message.clone(),
                state: OutState::AwaitingIdRecord,
                offset: Some(off),
            },
        );
        record.records_pending = record.records_pending.saturating_add(1);
        let ghost parked = inf.holding(
            pkid,
            PendingOutView {
                message: entry.deep_view().message,
                state: OutState::AwaitingIdRecord,
                offset: Some(off),
            },
        );
        let ghost staged = InflightView { records_pending: held(inf.records_pending, 1), ..parked };
        proof {
            crate::delivery::lemma_put_put(s0, c, inf, staged);
        }
        assert(self.deep_view() == base.with_inf(c, staged));
        let job = AppendJob {
            client: client.clone(),
            message: entry.message.clone(),
            work: LaneWork::RecordOutbound { pkid, offset: off },
            owed: AppendThen::Ungated,
            planned_conn,
            retain: entry.retain,
            message_expiry: entry.message_expiry,
        };
        match self.submit_lane_job(job) {
            Submitted::Queued => QosSend::Staged,
            _ => {
                let again = BacklogEntry::new(
                    &entry.message,
                    entry.retain,
                    entry.message_expiry,
                    Some(off),
                );
                let back = self.sessions.inflight.entry_or(client, Inflight::new());
                let _freed = back.pending.remove(&pkid);
                back.records_pending = back.records_pending.saturating_sub(1);
                back.push_front_admitted(again);
                QosSend::Deferred
            },
        }
    }

    /// See [`HubView::sending_qos`].
    pub fn send_qos_publish(&mut self, client: &ClientId, entry: &BacklogEntry) -> (r: QosSend)
        ensures
            (final(self).deep_view(), r) == old(self).deep_view().sending_qos(
                client.deep_view(),
                entry.deep_view(),
            ),
    {
        let ghost base = self.deep_view();
        let ghost c = client.deep_view();
        if entry.message.qos == QoS::AtMostOnce {
            let packet = publish_packet(
                &entry.message,
                None,
                false,
                entry.retain,
                entry.message_expiry,
            );
            let weight: usize = message_bytes(&entry.message);
            self.send_packet(client, packet, weight);
            return QosSend::Sent;
        }
        let inf = self.sessions.inflight.entry_or(client, Inflight::new());
        match inf.alloc_pkid() {
            None => {
                let again = BacklogEntry::new(
                    &entry.message,
                    entry.retain,
                    entry.message_expiry,
                    entry.offset,
                );
                inf.push_front_admitted(again);
                if !inf.reserve_outstanding {
                    inf.reserve_outstanding = true;
                    self.emit(
                        Effect::ReservePacketIds { client: client.clone(), count: PKID_BLOCK },
                    );
                }
                QosSend::Deferred
            },
            Some(pkid) => {
                if entry.message.qos == QoS::ExactlyOnce {
                    if let Some(off) = entry.offset {
                        let ghost taken = base.inf(c).allocated().0;
                        return self.stage_outbound_record(
                            client,
                            entry,
                            pkid,
                            off,
                            Ghost(taken),
                            Ghost(base),
                        );
                    }
                }
                let state = if entry.message.qos == QoS::AtLeastOnce {
                    OutState::AwaitingPubAck
                } else {
                    OutState::AwaitingPubRec
                };
                inf.pending.insert_ranked(
                    pkid,
                    PendingOut { message: entry.message.clone(), state, offset: entry.offset },
                );
                let packet = publish_packet(
                    &entry.message,
                    Some(pkid),
                    false,
                    entry.retain,
                    entry.message_expiry,
                );
                let weight: usize = message_bytes(&entry.message);
                self.send_packet(client, packet, weight);
                QosSend::Sent
            },
        }
    }

    /// See [`HubView::drained`].
    pub fn drain_backlog(&mut self, client: &ClientId)
        ensures
            final(self).deep_view() == old(self).deep_view().drained(client.deep_view()),
    {
        broadcast use crate::assoc::lemma_lookup_put;

        let ghost c = client.deep_view();
        let ghost goal = self.deep_view().drained(c);
        let ghost mut n: nat = self.deep_view().inf(c).backlog.len();
        loop
            invariant
                c == client.deep_view(),
                goal == old(self).deep_view().drained(c),
                self.deep_view().draining(c, n) == goal,
                self.deep_view().inf(c).backlog.len() == n,
            decreases n,
        {
            if !self.is_online(client) {
                return;
            }
            let ghost h = self.deep_view();
            let entry = match self.sessions.inflight.get_mut(client) {
                None => {
                    return;
                },
                Some(inf) => {
                    if inf.quota_full() || inf.records_pending > 0 {
                        proof {
                            crate::ledger::lemma_put_same(h.sessions.inflight, c);
                        }
                        return;
                    }
                    match inf.pop_backlog() {
                        None => {
                            proof {
                                crate::ledger::lemma_put_same(h.sessions.inflight, c);
                            }
                            return;
                        },
                        Some(e) => e,
                    }
                },
            };
            let ghost h1 = self.deep_view();
            proof {
                let inf = h.inf(c);
                let popped = InflightView { backlog: inf.backlog.skip(1), ..inf };
                assert(h1 == h.with_inf(c, popped));
                crate::assoc::lemma_lookup_put(h.sessions.inflight, c, popped, c);
                assert(h1.inf(c) == popped);
            }
            let sent = self.send_qos_publish(client, &entry);
            if sent != QosSend::Sent {
                return;
            }
            proof {
                lemma_sent_keeps_backlog(h1, c, entry.deep_view());
                n = (n - 1) as nat;
            }
        }
    }

    /// See [`HubView::queueing`].
    pub fn queue_entry(&mut self, client: &ClientId, entry: BacklogEntry)
        ensures
            final(self).deep_view() == old(self).deep_view().queueing(
                client.deep_view(),
                entry.deep_view(),
            ),
    {
        let limits = self.limits;
        let inf = self.sessions.inflight.entry_or(client, Inflight::new());
        let evicted = inf.push_backlog(entry, &limits);
        inf.release_all(&evicted);
        if evicted.len() > 0 {
            self.truncate_acked(client);
        }
    }

    /// See [`HubView::to_client`].
    pub fn send_to_client(
        &mut self,
        client: &ClientId,
        message: &Message,
        retain: bool,
        message_expiry: Option<u32>,
        offset: Option<u64>,
    )
        ensures
            final(self).deep_view() == old(self).deep_view().to_client(
                client.deep_view(),
                (BacklogView { message: message.deep_view(), retain, message_expiry, offset }),
            ),
    {
        if message.qos == QoS::AtMostOnce {
            let weight: usize = message_bytes(message);
            let shed = match self.sessions.online.get(client) {
                Some(o) => o.queued >= MAX_OUTBOUND_QUEUE || match self.limits.max_outbound_bytes {
                    Some(cap) => weight > cap || o.queued_bytes > cap - weight,
                    None => false,
                },
                None => false,
            };
            if !shed {
                let packet = publish_packet(message, None, false, retain, message_expiry);
                self.send_packet(client, packet, weight);
            }
            return;
        }
        if let Some(o) = offset {
            let inf = self.sessions.inflight.entry_or(client, Inflight::new());
            inf.track(o);
        }
        let waits = match self.sessions.inflight.get(client) {
            Some(inf) => inf.quota_full() || inf.backlog.len() > 0 || inf.records_pending > 0,
            None => false,
        };
        let entry = BacklogEntry::new(message, retain, message_expiry, offset);
        if waits {
            self.queue_entry(client, entry);
            let full = match self.sessions.inflight.get(client) {
                Some(inf) => inf.quota_full(),
                None => false,
            };
            if !full {
                self.drain_backlog(client);
            }
        } else {
            let _sent = self.send_qos_publish(client, &entry);
        }
    }

    /// See [`HubView::sending_in_order`].
    fn send_in_order(&mut self, client: &ClientId, message: &Message, message_expiry: Option<u32>)
        ensures
            final(self).deep_view() == old(self).deep_view().sending_in_order(
                client.deep_view(),
                message.deep_view(),
                message_expiry,
            ),
    {
        let busy = match self.sessions.lanes.get(client) {
            Some(l) => l.outstanding > 0,
            None => false,
        };
        if busy {
            let conn = self.conn_of(client);
            self.submit_passthrough(client, message, message_expiry, conn);
        } else {
            self.send_to_client(client, message, message.retain, message_expiry, None);
        }
    }

    /// See [`HubView::delivering`].
    pub fn deliver_to_client(
        &mut self,
        client: &ClientId,
        p: &Publication,
        qos: QoS,
        retain: bool,
        gate: &AppendGate,
    ) -> (r: DurableOutcome)
        ensures
            (final(self).deep_view(), r) == old(self).deep_view().delivering(
                client.deep_view(),
                p.deep_view(),
                qos,
                retain,
                gate.deep_view(),
            ),
    {
        let answerable = gate.answerable();
        let owes = self.owes_durable(client, qos);
        if answerable && owes {
            if let Some(r) = self.plan_refusal(true) {
                return DurableOutcome::Refused(r);
            }
        }
        let message = p.message(qos, retain, self.now);
        if let Some(conn) = self.conn_of(client) {
            if owes {
                return match self.submit_append(
                    client,
                    &message,
                    p.message_expiry,
                    gate,
                    Some(conn),
                ) {
                    Submitted::Queued => DurableOutcome::Met,
                    Submitted::Full => DurableOutcome::Failed,
                    Submitted::Refused(r) => {
                        if answerable {
                            DurableOutcome::Refused(r)
                        } else {
                            self.send_in_order(client, &message, p.message_expiry);
                            DurableOutcome::Met
                        }
                    },
                };
            }
            self.send_in_order(client, &message, p.message_expiry);
            return DurableOutcome::Met;
        }
        if self.is_persistent(client) {
            return match self.submit_append(client, &message, p.message_expiry, gate, None) {
                Submitted::Queued => DurableOutcome::Met,
                Submitted::Full => DurableOutcome::Failed,
                Submitted::Refused(r) => {
                    if qos == QoS::AtMostOnce || !answerable {
                        DurableOutcome::Met
                    } else {
                        DurableOutcome::Refused(r)
                    }
                },
            };
        }
        DurableOutcome::Met
    }

    /// See [`HubView::delivering_all`].
    pub fn deliver_local(
        &mut self,
        p: &Publication,
        targets: &Vec<(ClientId, QoS, bool)>,
        gate: &AppendGate,
    ) -> (r: DurableOutcome)
        ensures
            (final(self).deep_view(), r) == old(self).deep_view().delivering_all(
                p.deep_view(),
                targets.deep_view(),
                gate.deep_view(),
            ),
    {
        let ghost base = self.deep_view();
        let ghost t = targets.deep_view();
        let mut worst = DurableOutcome::Met;
        let mut i: usize = 0;
        assert(t.take(0) =~= Seq::empty());
        while i < targets.len()
            invariant
                i <= targets@.len(),
                t == targets.deep_view(),
                (self.deep_view(), worst) == base.delivering_all(
                    p.deep_view(),
                    t.take(i as int),
                    gate.deep_view(),
                ),
            decreases targets@.len() - i,
        {
            proof {
                assert(t.take(i as int + 1).drop_last() =~= t.take(i as int));
                assert(t.take(i as int + 1).last() == t[i as int]);
            }
            let (c, granted, retain) = &targets[i];
            let out = self.deliver_to_client(c, p, min_qos(p.qos, *granted), *retain, gate);
            worst = worst.and(out);
            i += 1;
        }
        assert(t.take(i as int) =~= t);
        worst
    }

    /// See [`HubView::applying`]. Also returns how many subscribers the topic found here.
    pub fn deliver(
        &mut self,
        p: &Publication,
        publisher: Option<&ClientId>,
        gate: &AppendGate,
    ) -> (r: (DurableOutcome, usize))
        ensures
            (final(self).deep_view(), r.0) == old(self).deep_view().applying(
                p.deep_view(),
                publisher.deep_view(),
                gate.deep_view(),
            ),
            r.1 == old(self).deep_view().targets(p.topic@, publisher.deep_view(), p.retain).len(),
    {
        let targets = self.ordinary_targets(p.topic.as_str(), publisher, p.retain);
        let matched: usize = targets.len();
        if gate.answerable() {
            let owes = self.some_owe(&targets, p.qos);
            if let Some(r) = self.plan_refusal(owes) {
                return (DurableOutcome::Refused(r), matched);
            }
        }
        self.keep(p, gate);
        let out = self.deliver_local(p, &targets, gate);
        (out, matched)
    }

    /// See [`HubView::keeping`].
    fn keep(&mut self, p: &Publication, gate: &AppendGate)
        ensures
            final(self).deep_view() == old(self).deep_view().keeping(
                p.deep_view(),
                gate.deep_view(),
            ),
    {
        if !p.retain || self.retained.durable {
            return;
        }
        let message = p.message(p.qos, true, self.now);
        let backed = self.retained.backed;
        let ghost e = self.effects.deep_view();
        let ghost asked = self.deep_view().retained.writes(
            message.deep_view(),
            gate.deep_view().owed(),
        );
        self.retained.set(message, gate.owes(), &mut self.effects);
        if backed {
            assert(self.effects.deep_view() =~= e.push(asked[0]));
            self.await_store(gate.owes());
        } else {
            assert(self.effects.deep_view() =~= e);
        }
    }

    /// See [`HubView::awaiting_store`].
    fn await_store(&mut self, owed: AppendThen)
        ensures
            final(self).deep_view() == old(self).deep_view().awaiting_store(owed.deep_view()),
    {
        match owed {
            AppendThen::Gate(id) => {
                match self.ledger.entries.get_mut(&id) {
                    Some(p) => {
                        p.awaiting_store = true;
                    },
                    None => {},
                }
            },
            other => {
                self.owe(other, false);
            },
        }
    }
}

/// Of two bindings of the same key the later stands.
pub proof fn lemma_put_put<K, V>(s: Seq<(K, V)>, k: K, a: V, b: V)
    ensures
        put(put(s, k, a), k, b) == put(s, k, b),
{
    crate::assoc::lemma_position(s, k);
    let t = put(s, k, a);
    let i = crate::assoc::position(s, k);
    assert forall|j: int| 0 <= j < i implies (#[trigger] t[j]).0 != k by {
        assert(s[j].0 != k);
    }
    crate::assoc::lemma_position_at(t, k, i);
    assert(put(t, k, b) =~= put(s, k, b));
}

} // verus!
