//! What comes back from the lanes of the sessions.

use vstd::prelude::*;

use crate::assoc::{bound, cut, lookup, put, push_item};
use crate::effects::{Effect, EffectView};
use crate::hub::{Hub, HubView, SessionsView};
use crate::ids::{deadline, deadline_of, next_number, ClientId};
use crate::inflight::{BacklogEntry, BacklogView, Inflight, InflightView, OutState, PendingOutView};
use crate::lanes::{control_job, AppendJob, AppendThen, JobView, Lane, LaneJob, LaneJobView,
    LaneOutcome, LaneWork, RemoteAppendGate, ThenView, WorkView};
use crate::ledger::PendingView;
use crate::message::{message_bytes, Message, MessageView};
use crate::outcome::DurableOutcome;
use crate::packet::{publish_of, publish_packet};
use crate::qos::QoS;
use crate::delivery::room;
use crate::session::StorageError;

verus! {

/// One less than `n`, held at 0.
pub open spec fn one_less(n: usize) -> usize {
    if n == 0 {
        0
    } else {
        (n - 1) as usize
    }
}

/// What of the waiting messages goes to the store when their client leaves: those that are not
/// in the store and that are owed to it, each with its deadline.
pub open spec fn spilled(b: Seq<BacklogView>, now: u64) -> Seq<(MessageView, Option<u64>)>
    decreases b.len(),
{
    if b.len() == 0 {
        Seq::empty()
    } else {
        let rest = spilled(b.drop_last(), now);
        let e = b.last();
        if e.offset is None && e.message.qos != QoS::AtMostOnce {
            rest.push((e.message, deadline(now, e.message_expiry)))
        } else {
            rest
        }
    }
}

impl JobView {
    /// The message of the job, as it waits for its turn.
    pub open spec fn entry(self, offset: Option<u64>) -> BacklogView {
        BacklogView {
            message: self.message,
            retain: self.retain,
            message_expiry: self.message_expiry,
            offset,
        }
    }
}

impl HubView {
    /// With one job of the lane of `client` done.
    pub open spec fn job_finished(self, client: Seq<char>) -> HubView {
        match lookup(self.sessions.lanes, client) {
            Some(l) => self.with_lane(client, l.done()),
            None => self,
        }
    }

    /// With one job of the lane of `client` started.
    pub open spec fn job_started(self, client: Seq<char>) -> HubView {
        match lookup(self.sessions.lanes, client) {
            Some(l) => self.with_lane(client, l.started()),
            None => self,
        }
    }

    /// With one more message recorded.
    pub open spec fn counting_write(self) -> HubView {
        HubView {
            sessions: SessionsView {
                durable_writes: next_number(self.sessions.durable_writes),
                ..self.sessions
            },
            ..self
        }
    }

    /// Whether the connection that a job was planned for is still the one of its client.
    pub open spec fn on_planned_conn(self, job: JobView) -> bool {
        !bound(self.sessions.connecting, job.client) && self.conn_of(job.client) is Some
            && self.conn_of(job.client) == job.planned_conn
    }

    /// Whether the message of a finished job is sent. On the connection it was planned for it
    /// is, unless its write failed. On another connection it is when it was recorded after what
    /// the replay of that connection covered. While the client attaches it is not.
    pub open spec fn sends_finished(self, job: JobView, outcome: LaneOutcome) -> bool {
        !bound(self.sessions.connecting, job.client) && match outcome {
            LaneOutcome::Failed => false,
            LaneOutcome::Dropped => self.on_planned_conn(job),
            LaneOutcome::Passed => self.on_planned_conn(job),
            LaneOutcome::Stored(o) => self.is_online(job.client) && (self.on_planned_conn(job) || (
            self.persistent(job.client) && match lookup(self.sessions.inflight, job.client) {
                Some(inf) => o > inf.high_water,
                None => true,
            })),
        }
    }

    /// Whether a message that passed through a lane has to wait: something before it does.
    pub open spec fn parks(self, job: JobView) -> bool {
        job.work is Passthrough && job.message.qos == QoS::AtMostOnce && match lookup(
            self.sessions.inflight,
            job.client,
        ) {
            Some(i) => i.records_pending > 0 || i.reserve_outstanding || i.backlog.len() > 0,
            None => false,
        }
    }

    /// With whoever is owed an answer told that one job is done.
    pub open spec fn repaying(self, owed: ThenView, outcome: LaneOutcome) -> HubView {
        match owed {
            ThenView::Ungated => self,
            ThenView::Gate(id) => {
                let h = match lookup(self.ledger.entries, id) {
                    Some(p) => self.with_ledger(
                        self.ledger.with(
                            id,
                            PendingView {
                                appends_outstanding: one_less(p.appends_outstanding),
                                stored: p.stored || outcome is Stored,
                                ..p
                            },
                        ),
                    ),
                    None => self,
                };
                if outcome == LaneOutcome::Failed {
                    h.dropping(id)
                } else {
                    h.completing(id)
                }
            },
            ThenView::Peer(node, seq) => match lookup(self.sessions.remote_appends, (node, seq)) {
                None => self,
                Some(g) => {
                    let worst = g.worst.worse(
                        if outcome == LaneOutcome::Failed {
                            DurableOutcome::Failed
                        } else {
                            DurableOutcome::Met
                        },
                    );
                    if g.awaiting <= 1 {
                        self.with_remote_appends(
                            cut(self.sessions.remote_appends, (node, seq)),
                        ).answering(node, seq, worst.verdict())
                    } else {
                        self.with_remote_appends(
                            put(
                                self.sessions.remote_appends,
                                (node, seq),
                                RemoteAppendGate { awaiting: (g.awaiting - 1) as usize, worst },
                            ),
                        )
                    }
                },
            },
        }
    }

    /// With other forwarded publishes under way.
    pub open spec fn with_remote_appends(
        self,
        remote_appends: Seq<((Seq<char>, u64), RemoteAppendGate)>,
    ) -> HubView {
        HubView { sessions: SessionsView { remote_appends, ..self.sessions }, ..self }
    }

    /// Without the message that held `pkid` while it was being recorded.
    pub open spec fn unstaged(self, client: Seq<char>, pkid: u16) -> HubView {
        match lookup(self.sessions.inflight, client) {
            Some(inf) => match lookup(inf.pending, pkid) {
                Some(p) => if p.state == OutState::AwaitingIdRecord {
                    self.with_inf(
                        client,
                        InflightView { pending: cut(inf.pending, pkid), ..inf },
                    )
                } else {
                    self
                },
                None => self,
            },
            None => self,
        }
    }

    /// With the message that holds `pkid` in another state.
    pub open spec fn with_state(self, client: Seq<char>, pkid: u16, state: OutState) -> HubView {
        match lookup(self.sessions.inflight, client) {
            Some(inf) => match lookup(inf.pending, pkid) {
                Some(p) => self.with_inf(
                    client,
                    InflightView {
                        pending: put(inf.pending, pkid, PendingOutView { state, ..p }),
                        ..inf
                    },
                ),
                None => self,
            },
            None => self,
        }
    }

    /// With one packet id less being recorded for `client`.
    pub open spec fn record_over(self, client: Seq<char>) -> HubView {
        match lookup(self.sessions.inflight, client) {
            Some(inf) => self.with_inf(
                client,
                InflightView { records_pending: one_less(inf.records_pending), ..inf },
            ),
            None => self,
        }
    }

    /// With `pkid` recorded, or not: the message is sent if it was, and waits again if it was
    /// not. Neither happens on another connection: the replay sees to it.
    pub open spec fn recorded(
        self,
        job: JobView,
        pkid: u16,
        offset: u64,
        outcome: LaneOutcome,
    ) -> HubView {
        let h = self.record_over(job.client);
        let fence = h.on_planned_conn(job);
        if outcome is Stored {
            if fence {
                h.with_state(job.client, pkid, OutState::AwaitingPubRec).sending(
                    job.client,
                    publish_of(job.message, Some(pkid), false, job.retain, job.message_expiry),
                    room(job.message),
                ).drained(job.client)
            } else {
                h.unstaged(job.client, pkid).drained(job.client)
            }
        } else {
            let h2 = h.unstaged(job.client, pkid);
            if fence {
                h2.with_inf(
                    job.client,
                    h2.inf(job.client).waiting_first(job.entry(Some(offset))),
                )
            } else {
                h2
            }
        }
    }

    /// With a job of delivery done.
    pub open spec fn appended(self, job: JobView, outcome: LaneOutcome) -> HubView {
        let h = self.job_finished(job.client);
        match job.work {
            WorkView::RecordOutbound { pkid, offset } => h.recorded(job, pkid, offset, outcome),
            _ => {
                let h1 = if outcome is Stored {
                    h.counting_write()
                } else {
                    h
                };
                let h2 = if !h1.sends_finished(job, outcome) {
                    h1
                } else if h1.parks(job) {
                    h1.queueing(job.client, job.entry(None))
                } else {
                    h1.to_client(
                        job.client,
                        job.entry(
                            match outcome {
                                LaneOutcome::Stored(o) => Some(o),
                                _ => None,
                            },
                        ),
                    )
                };
                h2.repaying(job.owed, outcome)
            },
        }
    }

    /// With packet ids reserved from `base` on; after a fault the numbers in memory go on.
    pub open spec fn reserved(self, client: Seq<char>, result: Result<u16, StorageError>) -> HubView {
        self.with_inf(
            client,
            InflightView {
                reserve_outstanding: false,
                banked_base: Some(
                    match result {
                        Ok(base) => base,
                        Err(_) => 0,
                    },
                ),
                ..self.inf(client)
            },
        ).drained(client)
    }

    /// With `job` handed to the lane of `client`, if the lane takes a job at all.
    pub open spec fn controlling(self, client: Seq<char>, job: LaneJobView) -> (HubView, bool) {
        let lane = self.lane(client);
        if lane.takes_control() {
            (
                self.with_lane(client, lane.taken_in()).doing(EffectView::Lane { client, job }),
                true,
            )
        } else {
            (self.with_lane(client, lane), false)
        }
    }

    /// With the messages that wait for `client` handed to the store, as far as it lacks them.
    pub open spec fn flushed(self, client: Seq<char>) -> HubView {
        match lookup(self.sessions.inflight, client) {
            Some(inf) => if inf.backlog.len() == 0 {
                self
            } else {
                let entries = spilled(inf.backlog, self.now);
                let h = self.with_inf(client, InflightView { backlog: Seq::empty(), ..inf });
                if entries.len() == 0 {
                    h
                } else {
                    h.controlling(
                        client,
                        LaneJobView::Deliver(control_job(client, WorkView::Spill { entries })),
                    ).0
                }
            },
            None => self,
        }
    }
}

impl Hub {
    /// Notes that a lane started a job.
    pub fn lane_started(&mut self, client: &ClientId)
        ensures
            final(self).deep_view() == old(self).deep_view().job_started(client.deep_view()),
    {
        match self.sessions.lanes.get_mut(client) {
            Some(l) => {
                l.start();
            },
            None => {},
        }
    }

    /// Notes that a lane is done with a job.
    pub fn lane_finished(&mut self, client: &ClientId)
        ensures
            final(self).deep_view() == old(self).deep_view().job_finished(client.deep_view()),
    {
        match self.sessions.lanes.get_mut(client) {
            Some(l) => {
                l.finish();
            },
            None => {},
        }
    }

    /// See [`HubView::on_planned_conn`].
    fn on_planned_conn(&self, job: &AppendJob) -> (r: bool)
        ensures
            r == self.deep_view().on_planned_conn(job.deep_view()),
    {
        if self.sessions.connecting.contains_key(&job.client) {
            return false;
        }
        match (self.conn_of(&job.client), job.planned_conn) {
            (Some(a), Some(b)) => a == b,
            _ => false,
        }
    }

    /// See [`HubView::sends_finished`].
    fn sends_finished(&self, job: &AppendJob, outcome: LaneOutcome) -> (r: bool)
        ensures
            r == self.deep_view().sends_finished(job.deep_view(), outcome),
    {
        if self.sessions.connecting.contains_key(&job.client) {
            return false;
        }
        match outcome {
            LaneOutcome::Failed => false,
            LaneOutcome::Dropped | LaneOutcome::Passed => self.on_planned_conn(job),
            LaneOutcome::Stored(o) => {
                if !self.is_online(&job.client) {
                    false
                } else if self.on_planned_conn(job) {
                    true
                } else {
                    self.is_persistent(&job.client) && match self.sessions.inflight.get(
                        &job.client,
                    ) {
                        Some(inf) => o > inf.high_water,
                        None => true,
                    }
                }
            },
        }
    }

    /// Lets the message of a finished job wait if something before it does, and says whether it
    /// did.
    pub fn park_ordering_gated_qos0(&mut self, job: &AppendJob) -> (r: bool)
        ensures
            r == old(self).deep_view().parks(job.deep_view()),
            final(self).deep_view() == (if r {
                old(self).deep_view().queueing(
                    job.client.deep_view(),
                    job.deep_view().entry(None),
                )
            } else {
                old(self).deep_view()
            }),
    {
        let passes = match &job.work {
            LaneWork::Passthrough => true,
            _ => false,
        };
        let gated = passes && job.message.qos == QoS::AtMostOnce && match self.sessions.inflight.get(
            &job.client,
        ) {
            Some(i) => i.records_pending > 0 || i.reserve_outstanding || i.backlog.len() > 0,
            None => false,
        };
        if !gated {
            return false;
        }
        self.queue_entry(
            &job.client,
            BacklogEntry::new(&job.message, job.retain, job.message_expiry, None),
        );
        true
    }

    /// See [`HubView::repaying`].
    #[verifier::spinoff_prover]
    #[verifier::rlimit(40)]
    pub fn repay(&mut self, owed: &AppendThen, outcome: LaneOutcome)
        ensures
            final(self).deep_view() == old(self).deep_view().repaying(owed.deep_view(), outcome),
    {
        match owed {
            AppendThen::Ungated => {},
            AppendThen::Gate(id) => {
                let wrote = match outcome {
                    LaneOutcome::Stored(_) => true,
                    _ => false,
                };
                match self.ledger.entries.get_mut(id) {
                    Some(p) => {
                        p.appends_outstanding = p.appends_outstanding.saturating_sub(1);
                        if wrote {
                            p.stored = true;
                        }
                    },
                    None => {},
                }
                if outcome == LaneOutcome::Failed {
                    self.drop_pending(*id);
                } else {
                    self.try_complete_pending(*id);
                }
            },
            AppendThen::Peer(node, seq) => {
                let key = (node.clone(), *seq);
                let gate = match self.sessions.remote_appends.get(&key) {
                    Some(g) => *g,
                    None => {
                        return;
                    },
                };
                let out = if outcome == LaneOutcome::Failed {
                    DurableOutcome::Failed
                } else {
                    DurableOutcome::Met
                };
                let worst = gate.worst.and(out);
                if gate.awaiting <= 1 {
                    let _gone = self.sessions.remote_appends.remove(&key);
                    self.answer_forward(node, *seq, worst.to_verdict());
                } else {
                    self.sessions.remote_appends.insert(
                        key,
                        RemoteAppendGate { awaiting: gate.awaiting - 1, worst },
                    );
                }
            },
        }
    }

    /// See [`HubView::unstaged`].
    pub fn drop_staged_entry(&mut self, client: &ClientId, pkid: u16)
        ensures
            final(self).deep_view() == old(self).deep_view().unstaged(client.deep_view(), pkid),
    {
        match self.sessions.inflight.get_mut(client) {
            Some(inf) => {
                let staged = match inf.pending.get(&pkid) {
                    Some(p) => p.state == OutState::AwaitingIdRecord,
                    None => false,
                };
                if staged {
                    let _gone = inf.pending.remove(&pkid);
                } else {
                    proof {
                        crate::ledger::lemma_put_same(
                            old(self).deep_view().sessions.inflight,
                            client.deep_view(),
                        );
                    }
                }
            },
            None => {},
        }
    }

    /// See [`HubView::with_state`].
    pub fn set_out_state(&mut self, client: &ClientId, pkid: u16, state: OutState)
        ensures
            final(self).deep_view() == old(self).deep_view().with_state(
                client.deep_view(),
                pkid,
                state,
            ),
    {
        match self.sessions.inflight.get_mut(client) {
            Some(inf) => {
                match inf.pending.get_mut(&pkid) {
                    Some(p) => {
                        p.state = state;
                    },
                    None => {
                        proof {
                            crate::ledger::lemma_put_same(
                                old(self).deep_view().sessions.inflight,
                                client.deep_view(),
                            );
                        }
                    },
                }
            },
            None => {},
        }
    }

    /// See [`HubView::recorded`].
    pub fn outbound_record_done(
        &mut self,
        job: &AppendJob,
        pkid: u16,
        offset: u64,
        outcome: LaneOutcome,
    )
        ensures
            final(self).deep_view() == old(self).deep_view().recorded(
                job.deep_view(),
                pkid,
                offset,
                outcome,
            ),
    {
        match self.sessions.inflight.get_mut(&job.client) {
            Some(inf) => {
                inf.records_pending = inf.records_pending.saturating_sub(1);
            },
            None => {},
        }
        assert(self.deep_view() == old(self).deep_view().record_over(job.client.deep_view()));
        let fence = self.on_planned_conn(job);
        match outcome {
            LaneOutcome::Stored(_) => {
                if fence {
                    self.set_out_state(&job.client, pkid, OutState::AwaitingPubRec);
                    let packet = publish_packet(
                        &job.message,
                        Some(pkid),
                        false,
                        job.retain,
                        job.message_expiry,
                    );
                    self.send_packet(&job.client, packet, message_bytes(&job.message));
                } else {
                    self.drop_staged_entry(&job.client, pkid);
                }
                self.drain_backlog(&job.client);
            },
            _ => {
                self.drop_staged_entry(&job.client, pkid);
                if fence {
                    let entry = BacklogEntry::new(
                        &job.message,
                        job.retain,
                        job.message_expiry,
                        Some(offset),
                    );
                    let inf = self.sessions.inflight.entry_or(&job.client, Inflight::new());
                    inf.push_front_admitted(entry);
                }
            },
        }
    }

    /// Goes on where a job of delivery left off: sends its message if it is to be sent, and
    /// tells whoever is owed an answer. See [`HubView::appended`].
    pub fn append_done(&mut self, job: &AppendJob, outcome: LaneOutcome)
        ensures
            final(self).deep_view() == old(self).deep_view().appended(job.deep_view(), outcome),
    {
        self.lane_finished(&job.client);
        match &job.work {
            LaneWork::RecordOutbound { pkid, offset } => {
                self.outbound_record_done(job, *pkid, *offset, outcome);
                return;
            },
            _ => {},
        }
        let offset = match outcome {
            LaneOutcome::Stored(o) => {
                let _count = crate::ids::advance(&mut self.sessions.durable_writes);
                Some(o)
            },
            _ => None,
        };
        if self.sends_finished(job, outcome) {
            if !self.park_ordering_gated_qos0(job) {
                self.send_to_client(
                    &job.client,
                    &job.message,
                    job.retain,
                    job.message_expiry,
                    offset,
                );
            }
        }
        self.repay(&job.owed, outcome);
    }

    /// See [`HubView::reserved`].
    pub fn pkid_block_reserved(&mut self, client: &ClientId, result: Result<u16, StorageError>)
        ensures
            final(self).deep_view() == old(self).deep_view().reserved(client.deep_view(), result),
    {
        let inf = self.sessions.inflight.entry_or(client, Inflight::new());
        inf.reserve_outstanding = false;
        inf.banked_base = Some(
            match result {
                Ok(base) => base,
                Err(_) => 0,
            },
        );
        self.drain_backlog(client);
    }

    /// Hands `job` to the lane of `client`, if the lane takes a job at all, and says whether it
    /// did.
    pub fn submit_control_job(&mut self, client: &ClientId, job: LaneJob) -> (r: bool)
        ensures
            (final(self).deep_view(), r) == old(self).deep_view().controlling(
                client.deep_view(),
                job.deep_view(),
            ),
    {
        let lane = self.sessions.lanes.entry_or(client, Lane::new());
        if !lane.has_headroom() {
            return false;
        }
        lane.take_in();
        self.emit(Effect::Lane { client: client.clone(), job });
        true
    }

    /// See [`HubView::flushed`].
    pub fn flush_backlog_to_store(&mut self, client: &ClientId)
        ensures
            final(self).deep_view() == old(self).deep_view().flushed(client.deep_view()),
    {
        let now = self.now;
        let ghost h = self.deep_view();
        let mut entries: Vec<(Message, Option<u64>)> = Vec::new();
        match self.sessions.inflight.get_mut(client) {
            Some(inf) => {
                if inf.backlog.len() == 0 {
                    proof {
                        crate::ledger::lemma_put_same(h.sessions.inflight, client.deep_view());
                    }
                    return;
                }
                inf.spill(now, &mut entries);
            },
            None => {
                return;
            },
        }
        if entries.len() == 0 {
            return;
        }
        let job = AppendJob::control(client.clone(), LaneWork::Spill { entries });
        let _taken = self.submit_control_job(client, LaneJob::Deliver(Box::new(job)));
    }
}

impl Inflight {
    /// Takes every waiting message, and keeps in `entries` what the store lacks.
    fn spill(&mut self, now: u64, entries: &mut Vec<(Message, Option<u64>)>)
        requires
            old(entries).deep_view().len() == 0,
        ensures
            final(self).deep_view() == (InflightView {
                backlog: Seq::empty(),
                ..old(self).deep_view()
            }),
            final(entries).deep_view() == spilled(old(self).deep_view().backlog, now),
    {
        let ghost b = self.deep_view().backlog;
        let ghost mut k: int = 0;
        assert(b.skip(0) =~= b);
        assert(entries.deep_view() =~= spilled(b.take(0), now));
        loop
            invariant
                0 <= k <= b.len(),
                b == old(self).deep_view().backlog,
                self.deep_view() == (InflightView { backlog: b.skip(k), ..old(self).deep_view() }),
                entries.deep_view() == spilled(b.take(k), now),
            decreases b.len() - k,
        {
            match self.pop_backlog() {
                None => {
                    assert(b.take(k) =~= b);
                    return;
                },
                Some(e) => {
                    proof {
                        assert(b.skip(k).skip(1) =~= b.skip(k + 1));
                        assert(b.take(k + 1).drop_last() =~= b.take(k));
                        assert(b.take(k + 1).last() == b[k]);
                    }
                    if e.offset.is_none() && e.message.qos != QoS::AtMostOnce {
                        let expiry_at = deadline_of(now, e.message_expiry);
                        push_item(entries, (e.message, expiry_at));
                    }
                    proof {
                        k = k + 1;
                    }
                },
            }
        }
    }
}

/// A durable write that fails is never acknowledged: the publish it was made for is given up, and
/// its publisher, left without an answer, publishes again.
pub proof fn law_failed_write_withholds(h: HubView, id: u64, p: PendingView)
    requires
        lookup(h.ledger.entries, id) == Some(p),
    ensures
        ({
            let r = h.repaying(ThenView::Gate(id), LaneOutcome::Failed);
            &&& !bound(r.ledger.entries, id)
            &&& r.effects == h.effects + crate::ledger::withheld(p.done)
        }),
{
    let q = PendingView { appends_outstanding: one_less(p.appends_outstanding), ..p };
    crate::assoc::lemma_lookup_put(h.ledger.entries, id, q, id);
    crate::assoc::lemma_lookup_cut(put(h.ledger.entries, id, q), id, id);
}

/// A publisher that waits for nothing but durable writes is told that its publish was accepted by
/// the last of them, and not before.
pub proof fn law_last_write_frees_ack(
    h: HubView,
    id: u64,
    p: PendingView,
    token: u64,
    outcome: LaneOutcome,
)
    requires
        lookup(h.ledger.entries, id) == Some(p),
        p.done == Some(token),
        p.local_done,
        !p.ack_awaits_settle,
        !p.content(),
        !p.awaiting_store,
        !p.awaiting_retained,
        p.awaiting.len() == 0,
        p.reroute_grace is None,
        p.appends_outstanding > 0,
        outcome != LaneOutcome::Failed,
    ensures
        h.repaying(ThenView::Gate(id), outcome).effects == (if p.appends_outstanding == 1 {
            h.effects.push(
                EffectView::Published { token, outcome: crate::outcome::PublishOutcome::Accepted },
            )
        } else {
            h.effects
        }),
{
    let q = PendingView {
        appends_outstanding: one_less(p.appends_outstanding),
        stored: p.stored || outcome is Stored,
        ..p
    };
    crate::assoc::lemma_lookup_put(h.ledger.entries, id, q, id);
    let r = h.repaying(ThenView::Gate(id), outcome);
    if p.appends_outstanding == 1 {
        assert(r.effects =~= h.effects.push(
            EffectView::Published { token, outcome: crate::outcome::PublishOutcome::Accepted },
        ));
    } else {
        assert(r.effects =~= h.effects);
    }
}

} // verus!
