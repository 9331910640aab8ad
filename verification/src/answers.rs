//! That an answer of another node counts once, and that another node is answered once.

use vstd::prelude::*;

use crate::assoc::{bound, cut, lookup};
use crate::effects::EffectView;
use crate::forwarding::{untried, Tried};
use crate::hub::HubView;
use crate::inflight::{BacklogView, InflightView, OutState};
use crate::lanes::{GateView, JobView, LaneOutcome, RemoteAppendGate, ThenView, WorkView};
use crate::ledger::{KindView, LedgerView, ObligationView};
use crate::message::PublicationView;
use crate::outcome::{DurableOutcome, ForwardVerdict};
use crate::qos::{weaker, QoS};
use crate::shared::{candidates_of, CandidateView, KeyView};
use crate::upkeep::{apart, lemma_sending_in_order};
use crate::wire::{FrameView, PROTO_FORWARD_ANSWERS};

verus! {

/// Whether no answer is expected under `seq`, a number that was handed out and is not the last one
/// there is.
pub open spec fn spent(l: LedgerView, seq: u64) -> bool {
    !bound(l.forward_index, seq) && seq <= l.forward_seq && seq < u64::MAX
}

/// Whether `b` expects the same answers as `a`.
pub open spec fn expects_same(a: HubView, b: HubView) -> bool {
    b.ledger.forward_index == a.ledger.forward_index && b.ledger.forward_seq
        == a.ledger.forward_seq
}

proof fn lemma_filter_absent(s: Seq<(u64, u64)>, keep: spec_fn((u64, u64)) -> bool, seq: u64)
    requires
        !bound(s, seq),
    ensures
        !bound(s.filter(keep), seq),
{
    let t = s.filter(keep);
    crate::assoc::lemma_position(s, seq);
    crate::assoc::lemma_position(t, seq);
    if bound(t, seq) {
        let i = crate::assoc::position(t, seq);
        crate::ledger::lemma_filter_keeps(s, keep, i);
        let j = choose|j: int| 0 <= j < s.len() && s[j] == t[i];
        assert(s[j].0 == seq);
    }
}

proof fn lemma_dropped_spent(l: LedgerView, id: u64, seq: u64)
    requires
        spent(l, seq),
    ensures
        spent(l.dropped(id), seq),
{
    lemma_filter_absent(l.forward_index, crate::assoc::not_value::<u64, u64>(id), seq);
}

proof fn lemma_delivering_expects(
    h: HubView,
    client: Seq<char>,
    p: PublicationView,
    qos: QoS,
    retain: bool,
    gate: GateView,
)
    ensures
        expects_same(h, h.delivering(client, p, qos, retain, gate).0),
{
    let m = p.message(qos, retain, h.now);
    let h1 = h.appending(client, m, p.message_expiry, gate, h.conn_of(client)).0;
    assert(expects_same(h, h1));
    assert(expects_same(h, h.appending(client, m, p.message_expiry, gate, None).0));
    lemma_sending_in_order(h, client, m, p.message_expiry);
    lemma_sending_in_order(h1, client, m, p.message_expiry);
    assert(apart(h1, h1.sending_in_order(client, m, p.message_expiry)));
}

/// A new forward has a number of its own.
proof fn lemma_forwarding_spent(h: HubView, id: u64, o: ObligationView, seq: u64)
    requires
        spent(h.ledger, seq),
    ensures
        spent(h.forwarding(id, o).ledger, seq),
{
    match lookup(h.ledger.entries, id) {
        Some(_) => {
            crate::assoc::lemma_lookup_put(
                h.ledger.forward_index,
                crate::ids::number_above(h.ledger.forward_seq),
                id,
                seq,
            );
        },
        None => {},
    }
}

proof fn lemma_trying_spent(
    h: HubView,
    id: u64,
    p: PublicationView,
    key: KeyView,
    left: Seq<CandidateView>,
    tried: Tried,
    last: DurableOutcome,
    seq: u64,
)
    requires
        spent(h.ledger, seq),
    ensures
        spent(h.trying(id, p, key, left, tried, last).0.ledger, seq),
{
    let h1 = h.turning(key, left.len());
    lemma_dropped_spent(h1.ledger, id, seq);
    match h.pick(key, left) {
        None => {},
        Some(c) => {
            let qos = weaker(p.qos, c.qos);
            match c.node {
                Some(node) => {
                    let more = tried.push((c.node, c.client));
                    let kind = KindView::Shared { key, client: c.client, qos, tried: more };
                    lemma_forwarding_spent(h1, id, ObligationView { node, kind }, seq);
                },
                None => {
                    let gate = GateView::Pending(id);
                    lemma_delivering_expects(h1, c.client, p, qos, false, gate);
                    let h2 = h1.delivering(c.client, p, qos, false, gate).0;
                    lemma_dropped_spent(h2.ledger, id, seq);
                },
            }
        },
    }
}

proof fn lemma_reselecting_spent(
    h: HubView,
    id: u64,
    p: PublicationView,
    key: KeyView,
    all: Seq<CandidateView>,
    tried: Tried,
    last: DurableOutcome,
    fuel: nat,
    seq: u64,
)
    requires
        spent(h.ledger, seq),
    ensures
        spent(h.reselecting_from(id, p, key, all, tried, last, fuel).ledger, seq),
    decreases fuel,
{
    let left = untried(all, tried);
    lemma_trying_spent(h, id, p, key, left, tried, last, seq);
    let (h1, again) = h.trying(id, p, key, left, tried, last);
    match again {
        Some(r) => {
            if fuel > 0 {
                lemma_reselecting_spent(
                    h1,
                    id,
                    p,
                    key,
                    all,
                    h.tried_next(key, left, tried),
                    DurableOutcome::Refused(r),
                    (fuel - 1) as nat,
                    seq,
                );
            }
        },
        None => {},
    }
}

/// What an answer under `n` brings about expects no answer under a number that is spent.
proof fn lemma_answered_keeps_spent(
    h: HubView,
    node: Seq<char>,
    n: u64,
    verdict: ForwardVerdict,
    seq: u64,
)
    requires
        spent(h.ledger.settled(node, n), seq),
    ensures
        spent(h.answered(node, n, verdict).ledger, seq),
{
    let h1 = h.with_ledger(h.ledger.settled(node, n));
    match h.ledger.settles(node, n) {
        None => {},
        Some((id, o)) => {
            lemma_dropped_spent(h1.ledger, id, seq);
            lemma_dropped_spent(h1.ledger.stored_on(id, node), id, seq);
            match DurableOutcome::of_verdict(verdict) {
                DurableOutcome::Refused(r) => {
                    match o.kind {
                        KindView::Shared { key, tried, .. } => {
                            match lookup(h1.ledger.entries, id) {
                                Some(p) => {
                                    let topic = p.publication.topic;
                                    let all = candidates_of(h1.shared_matches(topic), key);
                                    lemma_reselecting_spent(
                                        h1,
                                        id,
                                        p.publication,
                                        key,
                                        all,
                                        tried,
                                        DurableOutcome::Refused(r),
                                        untried(all, tried).len(),
                                        seq,
                                    );
                                },
                                None => {},
                            }
                        },
                        KindView::Ordinary => {},
                    }
                },
                _ => {},
            }
        },
    }
}

proof fn lemma_answered_spent(h: HubView, node: Seq<char>, seq: u64, verdict: ForwardVerdict)
    requires
        h.ledger.numbered(),
        seq < u64::MAX || h.ledger.forward_seq < u64::MAX,
    ensures
        !bound(h.answered(node, seq, verdict).ledger.forward_index, seq),
        seq <= h.ledger.forward_seq && seq < u64::MAX ==> spent(
            h.answered(node, seq, verdict).ledger,
            seq,
        ),
{
    let l = h.ledger.settled(node, seq);
    crate::assoc::lemma_lookup_cut(h.ledger.forward_index, seq, seq);
    crate::assoc::lemma_position(h.ledger.forward_index, seq);
    if bound(h.ledger.forward_index, seq) {
        let i = crate::assoc::position(h.ledger.forward_index, seq);
        assert(h.ledger.forward_index[i].0 <= h.ledger.forward_seq);
    }
    if spent(l, seq) {
        lemma_answered_keeps_spent(h, node, seq, verdict, seq);
    } else {
        assert(h.ledger.settles(node, seq) is None);
    }
}

impl HubView {
    /// With `answers` come in, one after the other: each of a node, under a number.
    pub open spec fn answered_all(self, answers: Seq<(Seq<char>, u64, ForwardVerdict)>) -> HubView
        decreases answers.len(),
    {
        if answers.len() == 0 {
            self
        } else {
            let (node, seq, verdict) = answers.last();
            self.answered_all(answers.drop_last()).answered(node, seq, verdict)
        }
    }
}

proof fn lemma_answered_all_spent(
    h: HubView,
    answers: Seq<(Seq<char>, u64, ForwardVerdict)>,
    seq: u64,
)
    requires
        spent(h.ledger, seq),
    ensures
        spent(h.answered_all(answers).ledger, seq),
    decreases answers.len(),
{
    if answers.len() > 0 {
        lemma_answered_all_spent(h, answers.drop_last(), seq);
        let h1 = h.answered_all(answers.drop_last());
        let (node, n, verdict) = answers.last();
        crate::assoc::lemma_lookup_cut(h1.ledger.forward_index, n, seq);
        lemma_answered_keeps_spent(h1, node, n, verdict, seq);
    }
}

/// An answer under a number that is not expected changes nothing.
proof fn lemma_unexpected(h: HubView, node: Seq<char>, seq: u64, verdict: ForwardVerdict)
    requires
        !bound(h.ledger.forward_index, seq),
    ensures
        h.answered(node, seq, verdict) == h,
{
    let index = h.ledger.forward_index;
    crate::assoc::lemma_position(index, seq);
    crate::assoc::lemma_filter_all(index, crate::assoc::not_key::<u64, u64>(seq));
    assert(h.ledger.settled(node, seq) == h.ledger);
}

/// An answer counts once: after an answer under a number, nothing that any node answers under that
/// number changes anything, whatever the first answer brought about. The hub is sound, so that it
/// awaits no answer under a number that was not handed out; and the number is not the last one
/// there is, which is handed out again once the numbers are used up.
pub proof fn law_forward_settles_once(
    h: HubView,
    node: Seq<char>,
    seq: u64,
    verdict: ForwardVerdict,
    other: Seq<char>,
    again: ForwardVerdict,
)
    requires
        h.sound(),
        seq < u64::MAX || h.ledger.forward_seq < u64::MAX,
    ensures
        h.answered(node, seq, verdict).answered(other, seq, again) == h.answered(
            node,
            seq,
            verdict,
        ),
{
    reveal(LedgerView::sound);
    lemma_answered_spent(h, node, seq, verdict);
    lemma_unexpected(h.answered(node, seq, verdict), other, seq, again);
}

/// Nor does an answer count later: whatever answers have come in after one under a number that was
/// handed out, under that number or others, one more under that number changes nothing and has
/// nobody told anything.
pub proof fn law_forward_stays_settled(
    h: HubView,
    node: Seq<char>,
    seq: u64,
    verdict: ForwardVerdict,
    answers: Seq<(Seq<char>, u64, ForwardVerdict)>,
    other: Seq<char>,
    again: ForwardVerdict,
)
    requires
        h.sound(),
        seq <= h.ledger.forward_seq,
        seq < u64::MAX,
    ensures
        h.answered(node, seq, verdict).answered_all(answers).answered(other, seq, again)
            == h.answered(node, seq, verdict).answered_all(answers),
{
    reveal(LedgerView::sound);
    lemma_answered_spent(h, node, seq, verdict);
    let r = h.answered(node, seq, verdict);
    lemma_answered_all_spent(r, answers, seq);
    lemma_unexpected(r.answered_all(answers), other, seq, again);
}

/// Whether `e` tells `node` what became of what it forwarded under `seq`.
pub open spec fn answers(e: EffectView, node: Seq<char>, seq: u64) -> bool {
    match e {
        EffectView::Frame { node: n, frame } => n == node && match frame {
            FrameView::PublishVerdict { seq: s, .. } => s == seq,
            FrameView::PublishAck { seq: s, .. } => s == seq,
            _ => false,
        },
        _ => false,
    }
}

/// What of `es` tells `node` what became of what it forwarded under `seq`.
pub open spec fn answers_in(es: Seq<EffectView>, node: Seq<char>, seq: u64) -> Seq<EffectView>
    decreases es.len(),
{
    if es.len() == 0 {
        Seq::empty()
    } else {
        let rest = answers_in(es.drop_last(), node, seq);
        if answers(es.last(), node, seq) {
            rest.push(es.last())
        } else {
            rest
        }
    }
}

broadcast proof fn lemma_answers_push(es: Seq<EffectView>, e: EffectView, node: Seq<char>, seq: u64)
    ensures
        #[trigger] answers_in(es.push(e), node, seq) == (if answers(e, node, seq) {
            answers_in(es, node, seq).push(e)
        } else {
            answers_in(es, node, seq)
        }),
{
    assert(es.push(e).drop_last() =~= es);
}

broadcast proof fn lemma_answers_add(
    a: Seq<EffectView>,
    b: Seq<EffectView>,
    node: Seq<char>,
    seq: u64,
)
    ensures
        #[trigger] answers_in(a + b, node, seq) == answers_in(a, node, seq) + answers_in(
            b,
            node,
            seq,
        ),
    decreases b.len(),
{
    if b.len() == 0 {
        assert(a + b =~= a);
        assert(answers_in(a, node, seq) + answers_in(b, node, seq) =~= answers_in(a, node, seq));
    } else {
        assert((a + b).drop_last() =~= a + b.drop_last());
        lemma_answers_add(a, b.drop_last(), node, seq);
        assert(answers_in(a, node, seq) + answers_in(b, node, seq) =~= if answers(
            b.last(),
            node,
            seq,
        ) {
            (answers_in(a, node, seq) + answers_in(b.drop_last(), node, seq)).push(b.last())
        } else {
            answers_in(a, node, seq) + answers_in(b.drop_last(), node, seq)
        });
    }
}

/// Whether `b` has told `node` nothing about `seq` that `a` had not, and owes it as much.
spec fn silent(a: HubView, b: HubView, node: Seq<char>, seq: u64) -> bool {
    &&& b.cluster == a.cluster
    &&& b.sessions.remote_appends == a.sessions.remote_appends
    &&& answers_in(b.effects, node, seq) == answers_in(a.effects, node, seq)
}

proof fn lemma_sending_qos_silent(
    h: HubView,
    client: Seq<char>,
    e: BacklogView,
    node: Seq<char>,
    seq: u64,
)
    ensures
        silent(h, h.sending_qos(client, e).0, node, seq),
{
    broadcast use lemma_answers_push;

}

proof fn lemma_draining_silent(
    h: HubView,
    client: Seq<char>,
    n: nat,
    node: Seq<char>,
    seq: u64,
)
    ensures
        silent(h, h.draining(client, n), node, seq),
    decreases n,
{
    if n > 0 && h.is_online(client) {
        match lookup(h.sessions.inflight, client) {
            Some(inf) => {
                if !(inf.is_full() || inf.records_pending > 0 || inf.backlog.len() == 0) {
                    let rest = h.with_inf(
                        client,
                        InflightView { backlog: inf.backlog.skip(1), ..inf },
                    );
                    let next = rest.sending_qos(client, inf.backlog[0]).0;
                    lemma_sending_qos_silent(rest, client, inf.backlog[0], node, seq);
                    lemma_draining_silent(next, client, (n - 1) as nat, node, seq);
                }
            },
            None => {},
        }
    }
}

proof fn lemma_queueing_silent(
    h: HubView,
    client: Seq<char>,
    e: BacklogView,
    node: Seq<char>,
    seq: u64,
)
    ensures
        silent(h, h.queueing(client, e), node, seq),
{
    broadcast use lemma_answers_push;

}

proof fn lemma_to_client_silent(
    h: HubView,
    client: Seq<char>,
    e: BacklogView,
    node: Seq<char>,
    seq: u64,
)
    ensures
        silent(h, h.to_client(client, e), node, seq),
{
    broadcast use lemma_answers_push;

    let h1 = if e.offset is Some && e.message.qos != QoS::AtMostOnce {
        h.with_inf(client, h.inf(client).tracking(e.offset->Some_0))
    } else {
        h
    };
    lemma_sending_qos_silent(h1, client, e, node, seq);
    lemma_queueing_silent(h1, client, e, node, seq);
    let h2 = h1.queueing(client, e);
    lemma_draining_silent(h2, client, h2.inf(client).backlog.len(), node, seq);
}

proof fn lemma_recorded_silent(
    h: HubView,
    job: JobView,
    pkid: u16,
    offset: u64,
    outcome: LaneOutcome,
    node: Seq<char>,
    seq: u64,
)
    ensures
        silent(h, h.recorded(job, pkid, offset, outcome), node, seq),
{
    broadcast use lemma_answers_push;

    let h1 = h.record_over(job.client);
    let h2 = h1.with_state(job.client, pkid, OutState::AwaitingPubRec).sending(
        job.client,
        crate::packet::publish_of(
            job.message,
            Some(pkid),
            false,
            job.retain,
            job.message_expiry,
        ),
        crate::delivery::room(job.message),
    );
    lemma_draining_silent(h2, job.client, h2.inf(job.client).backlog.len(), node, seq);
    let h3 = h1.unstaged(job.client, pkid);
    lemma_draining_silent(h3, job.client, h3.inf(job.client).backlog.len(), node, seq);
}

proof fn lemma_completing_silent(h: HubView, id: u64, node: Seq<char>, seq: u64)
    ensures
        silent(h, h.completing(id), node, seq),
        silent(h, h.dropping(id), node, seq),
{
    broadcast use {lemma_answers_push, lemma_answers_add};

    reveal_with_fuel(answers_in, 2);
    assert(answers_in(h.ledger.complete_effects(id), node, seq) =~= Seq::empty());
    assert(answers_in(h.ledger.drop_effects(id), node, seq) =~= Seq::empty());
    let said = answers_in(h.effects, node, seq);
    assert(said + Seq::empty() =~= said);
}

/// Whether `job` is one of those that `node` waits for under `seq`.
pub open spec fn works_for(job: JobView, node: Seq<char>, seq: u64) -> bool {
    job.owed == ThenView::Peer(node, seq) && job.work !is RecordOutbound
}

/// How many of the jobs of `done` are among those that `node` waits for under `seq`.
pub open spec fn works_of(done: Seq<(JobView, LaneOutcome)>, node: Seq<char>, seq: u64) -> nat
    decreases done.len(),
{
    if done.len() == 0 {
        0
    } else {
        works_of(done.drop_last(), node, seq) + (if works_for(done.last().0, node, seq) {
            1nat
        } else {
            0
        })
    }
}

/// Whether one of those has failed.
pub open spec fn work_failed(done: Seq<(JobView, LaneOutcome)>, node: Seq<char>, seq: u64) -> bool {
    exists|i: int|
        0 <= i < done.len() && works_for((#[trigger] done[i]).0, node, seq) && done[i].1
            == LaneOutcome::Failed
}

impl HubView {
    /// With the jobs of `done` done, one after the other, each with its outcome.
    pub open spec fn appended_all(self, done: Seq<(JobView, LaneOutcome)>) -> HubView
        decreases done.len(),
    {
        if done.len() == 0 {
            self
        } else {
            self.appended_all(done.drop_last()).appended(done.last().0, done.last().1)
        }
    }
}

proof fn lemma_repaying_another(
    h: HubView,
    owed: ThenView,
    outcome: LaneOutcome,
    node: Seq<char>,
    seq: u64,
)
    requires
        owed != ThenView::Peer(node, seq),
    ensures
        ({
            let r = h.repaying(owed, outcome);
            &&& r.cluster == h.cluster
            &&& lookup(r.sessions.remote_appends, (node, seq)) == lookup(
                h.sessions.remote_appends,
                (node, seq),
            )
            &&& answers_in(r.effects, node, seq) == answers_in(h.effects, node, seq)
        }),
{
    broadcast use {lemma_answers_push, lemma_answers_add};
    broadcast use crate::assoc::lemma_lookup_put;
    broadcast use crate::assoc::lemma_lookup_cut;

    match owed {
        ThenView::Ungated => {},
        ThenView::Gate(id) => {
            let h1 = match lookup(h.ledger.entries, id) {
                Some(p) => h.with_ledger(
                    h.ledger.with(
                        id,
                        crate::ledger::PendingView {
                            appends_outstanding: crate::completions::one_less(
                                p.appends_outstanding,
                            ),
                            stored: p.stored || outcome is Stored,
                            ..p
                        },
                    ),
                ),
                None => h,
            };
            lemma_completing_silent(h1, id, node, seq);
        },
        ThenView::Peer(other, n) => {
            assert((other, n) != (node, seq));
            match lookup(h.sessions.remote_appends, (other, n)) {
                None => {},
                Some(g) => {
                    if g.awaiting <= 1 {
                        reveal_with_fuel(answers_in, 2);
                        let h1 = h.with_remote_appends(
                            cut(h.sessions.remote_appends, (other, n)),
                        );
                        let frame = |v: ForwardVerdict|
                            if h.cluster.proto(other) >= PROTO_FORWARD_ANSWERS {
                                FrameView::PublishVerdict { seq: n, verdict: v }
                            } else {
                                FrameView::PublishAck {
                                    seq: n,
                                    ok: v == ForwardVerdict::Stored,
                                }
                            };
                        assert forall|v: ForwardVerdict|
                            answers_in(
                                (#[trigger] h1.answering(other, n, v)).effects,
                                node,
                                seq,
                            ) == answers_in(h.effects, node, seq) by {
                            let fs = h1.cluster.framed(other, frame(v));
                            assert(h1.answering(other, n, v).effects == h1.effects + fs);
                            assert(answers_in(fs, node, seq) =~= Seq::empty());
                            let said = answers_in(h.effects, node, seq);
                            assert(said + Seq::empty() =~= said);
                        }
                    }
                },
            }
        },
    }
}

/// What comes before a job's repayment tells no node anything.
proof fn lemma_appended_repays(
    h: HubView,
    job: JobView,
    outcome: LaneOutcome,
    node: Seq<char>,
    seq: u64,
) -> (before: HubView)
    ensures
        silent(h, before, node, seq),
        h.appended(job, outcome) == (if job.work is RecordOutbound {
            before
        } else {
            before.repaying(job.owed, outcome)
        }),
{
    let h0 = h.job_finished(job.client);
    assert(silent(h, h0, node, seq));
    match job.work {
        WorkView::RecordOutbound { pkid, offset } => {
            lemma_recorded_silent(h0, job, pkid, offset, outcome, node, seq);
            h0.recorded(job, pkid, offset, outcome)
        },
        _ => {
            let h1 = if outcome is Stored {
                h0.counting_write()
            } else {
                h0
            };
            let at = match outcome {
                LaneOutcome::Stored(o) => Some(o),
                _ => None,
            };
            lemma_queueing_silent(h1, job.client, job.entry(None), node, seq);
            lemma_to_client_silent(h1, job.client, job.entry(at), node, seq);
            if !h1.sends_finished(job, outcome) {
                h1
            } else if h1.parks(job) {
                h1.queueing(job.client, job.entry(None))
            } else {
                h1.to_client(job.client, job.entry(at))
            }
        },
    }
}

/// What tells `node` of `verdict` on what it forwarded under `seq`: one frame where it is linked.
pub open spec fn verdict_frames(h: HubView, node: Seq<char>, seq: u64, verdict: ForwardVerdict) -> Seq<
    EffectView,
> {
    h.cluster.framed(
        node,
        if h.cluster.proto(node) >= PROTO_FORWARD_ANSWERS {
            FrameView::PublishVerdict { seq, verdict }
        } else {
            FrameView::PublishAck { seq, ok: verdict == ForwardVerdict::Stored }
        },
    )
}

/// A node is answered once, and not before the last job of what it forwarded is done: while some
/// of the jobs are under way it is told nothing, and what has come of the others is kept in mind;
/// the last one to be done, whichever that is, has it told, and nothing is kept in mind any more.
/// It is told that everything was stored only if none of the jobs has failed. Jobs for others may
/// be done in between.
pub proof fn law_node_is_answered_after_last_job(
    h: HubView,
    node: Seq<char>,
    seq: u64,
    g: RemoteAppendGate,
    done: Seq<(JobView, LaneOutcome)>,
)
    requires
        lookup(h.sessions.remote_appends, (node, seq)) == Some(g),
        g.awaiting >= 1,
        works_of(done, node, seq) <= g.awaiting,
    ensures
        ({
            let r = h.appended_all(done);
            let n = works_of(done, node, seq);
            let worst = if work_failed(done, node, seq) {
                DurableOutcome::Failed
            } else {
                g.worst
            };
            &&& r.cluster == h.cluster
            &&& n < g.awaiting ==> {
                &&& answers_in(r.effects, node, seq) == answers_in(h.effects, node, seq)
                &&& lookup(r.sessions.remote_appends, (node, seq)) == Some(
                    RemoteAppendGate { awaiting: (g.awaiting - n) as usize, worst },
                )
            }
            &&& n == g.awaiting ==> {
                &&& answers_in(r.effects, node, seq) == answers_in(h.effects, node, seq)
                    + verdict_frames(h, node, seq, worst.verdict())
                &&& lookup(r.sessions.remote_appends, (node, seq)) is None
                &&& worst.verdict() == ForwardVerdict::Stored <==> g.worst == DurableOutcome::Met
                    && !work_failed(done, node, seq)
            }
        }),
    decreases done.len(),
{
    broadcast use {lemma_answers_push, lemma_answers_add};
    broadcast use crate::assoc::lemma_lookup_put;
    broadcast use crate::assoc::lemma_lookup_cut;

    if done.len() > 0 {
        let rest = done.drop_last();
        let (job, outcome) = done.last();
        let last = done.len() - 1;
        assert(done[last] == done.last());
        law_node_is_answered_after_last_job(h, node, seq, g, rest);
        let h1 = h.appended_all(rest);
        let h2 = lemma_appended_repays(h1, job, outcome, node, seq);
        if work_failed(rest, node, seq) {
            let i = choose|i: int|
                0 <= i < rest.len() && works_for((#[trigger] rest[i]).0, node, seq) && rest[i].1
                    == LaneOutcome::Failed;
            assert(done[i] == rest[i]);
        }
        if work_failed(done, node, seq) {
            let i = choose|i: int|
                0 <= i < done.len() && works_for((#[trigger] done[i]).0, node, seq) && done[i].1
                    == LaneOutcome::Failed;
            if i < last {
                assert(rest[i] == done[i]);
            }
        }
        if works_for(job, node, seq) {
            let before = lookup(h2.sessions.remote_appends, (node, seq))->Some_0;
            let worst = before.worst.worse(
                if outcome == LaneOutcome::Failed {
                    DurableOutcome::Failed
                } else {
                    DurableOutcome::Met
                },
            );
            if before.awaiting <= 1 {
                let fs = verdict_frames(h, node, seq, worst.verdict());
                let h3 = h2.with_remote_appends(cut(h2.sessions.remote_appends, (node, seq)));
                assert(h.appended_all(done) == h3.answering(node, seq, worst.verdict()));
                assert(h.appended_all(done).effects == h2.effects + fs);
                reveal_with_fuel(answers_in, 2);
                assert(answers_in(fs, node, seq) =~= fs);
            }
        } else if job.work !is RecordOutbound {
            lemma_repaying_another(h2, job.owed, outcome, node, seq);
        }
    } else {
        assert(!work_failed(done, node, seq));
    }
}

} // verus!
