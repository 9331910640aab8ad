//! What is waited for and how long: publishes whose routing has to settle, members that refused,
//! packet ids of earlier sessions, and jobs that are under way.

use vstd::prelude::*;

use crate::assoc::{bound, lookup};
use crate::dispatch::HubCommand;
use crate::effects::EffectView;
use crate::forwarding::Tried;
use crate::hub::HubView;
use crate::ids::ClientId;
use crate::inflight::{InflightView, PendingOutView};
use crate::lanes::{Lane, LaneJobView};
use crate::ledger::PendingView;
use crate::message::PublicationView;
use crate::outcome::{DurableOutcome, PublishOutcome, PublishRefusal};
use crate::qos2::Qos2OpView;
use crate::replies::nothing_outstanding;
use crate::shared::{CandidateView, KeyView};

verus! {

/// A publish that waited for routing to settle is accepted once it has, where nobody was missed:
/// nobody turned up late, no other node wants it, and nothing is outstanding. While routing has not
/// settled, a publisher that waits for it is told nothing.
pub proof fn law_settled_publish_is_accepted(h: HubView, id: u64, p: PendingView, token: u64)
    requires
        lookup(h.ledger.entries, id) == Some(p),
        p.done == Some(token),
        p.local_done,
        nothing_outstanding(p),
        h.late_targets(
            crate::subscriptions::matching(h.routing.table, p.publication.topic),
            p.publication.topic,
            p.created_at,
        ).len() == 0,
        h.reroutes(id).len() == 0,
    ensures
        ({
            let r = h.settling_one(id, true);
            &&& r.effects == h.effects.push(
                EffectView::Published { token, outcome: PublishOutcome::Accepted },
            )
            &&& lookup(r.ledger.entries, id) is None
        }),
        p.ack_awaits_settle ==> h.settling_one(id, false).effects == h.effects && lookup(
            h.settling_one(id, false).ledger.entries,
            id,
        ) == Some(p),
{
    broadcast use crate::assoc::lemma_lookup_put;

    assert(h.redelivering(id) == (h, DurableOutcome::Met));
    assert(h.forwarding_each(id, h.reroutes(id)) == h);
    let q = PendingView { awaiting_settle: false, ack_awaits_settle: false, ..p };
    let h1 = h.window_closed(id);
    assert(lookup(h1.ledger.entries, id) == Some(q));
    crate::replies::law_accepted_exactly_when_due(h1, id, q);
    crate::replies::law_accepted_exactly_when_due(h, id, p);
}

/// A publish whose node died has a grace: while it lasts and nobody else can be forwarded it, each
/// sweep takes one from it, and the publish is not forgotten.
pub proof fn law_grace_runs_out(h: HubView, id: u64, p: PendingView, grace: u8)
    requires
        lookup(h.ledger.entries, id) == Some(p),
        p.reroute_grace == Some(grace),
        grace > 1,
        p.awaiting.len() == 0,
        h.reroutes(id).len() == 0,
    ensures
        lookup(h.sweeping_one(id).ledger.entries, id) matches Some(q) && q.reroute_grace == Some(
            (grace - 1) as u8,
        ),
{
    broadcast use crate::assoc::lemma_lookup_put;

    let h1 = h.doing_all(crate::forwarding::reminders(h.cluster, p, p.awaiting));
    let q = PendingView { reroute_grace: Some((grace - 1) as u8), ..p };
    let h2 = h1.with_grace(id, Some((grace - 1) as u8));
    assert(lookup(h2.ledger.entries, id) == Some(q));
    crate::replies::law_accepted_exactly_when_due(h2, id, q);
}

/// A publish that nobody waits on another node for, and whose grace is not running, is left alone by
/// a sweep.
pub proof fn law_quiet_publish_is_left_alone(h: HubView, id: u64, p: PendingView)
    requires
        lookup(h.ledger.entries, id) == Some(p),
        p.reroute_grace is None,
        p.awaiting.len() == 0,
    ensures
        h.sweeping_one(id).effects == h.effects,
        h.sweeping_one(id).ledger == h.ledger,
{
    assert(h.effects + Seq::<EffectView>::empty() =~= h.effects);
}

/// When every member of a group has refused, or could not be asked, the publisher is told why the
/// last one refused; where none said so it is told nothing. Either way the publish is over.
pub proof fn law_nobody_left(
    h: HubView,
    id: u64,
    e: PendingView,
    p: PublicationView,
    key: KeyView,
    left: Seq<CandidateView>,
    tried: Tried,
    why: PublishRefusal,
    token: u64,
)
    requires
        lookup(h.ledger.entries, id) == Some(e),
        e.done == Some(token),
        !e.stored,
        e.appends_outstanding == 0,
        !e.awaiting_store,
        h.pick(key, left) is None,
    ensures
        ({
            let r = h.trying(id, p, key, left, tried, DurableOutcome::Refused(why));
            &&& r.1 is None
            &&& r.0.effects == h.effects.push(
                EffectView::Published { token, outcome: PublishOutcome::Refused(why) },
            )
            &&& lookup(r.0.ledger.entries, id) is None
        }),
        ({
            let r = h.trying(id, p, key, left, tried, DurableOutcome::Failed);
            &&& r.1 is None
            &&& r.0.effects == h.effects.push(EffectView::Withheld { token })
            &&& lookup(r.0.ledger.entries, id) is None
        }),
{
    let h1 = h.turning(key, left.len());
    crate::replies::law_turned_away_is_told(h1, id, e, token, why);
    crate::replies::law_dropped_is_withheld(h1, id, e, id);
}

/// A completion of a packet id that an earlier session left behind has the store asked to give it
/// up.
pub proof fn law_left_behind_is_retired(
    h: HubView,
    client: ClientId,
    pkid: u16,
    inf: InflightView,
    offset: u64,
)
    requires
        lookup(h.sessions.inflight, client.deep_view()) == Some(inf),
        lookup(inf.pending, pkid) is None,
        lookup(inf.orphaned_qos2, pkid) == Some(offset),
        !h.qos2.retire_inflight.contains(client.deep_view()),
        h.lane(client.deep_view()).takes_control(),
    ensures
        ({
            let c = client.deep_view();
            let r = h.after(HubCommand::PubComp { client, pkid });
            &&& r.effects.len() == h.effects.len() + 1
            &&& r.effects.last() matches EffectView::Lane {
                client: d,
                job: LaneJobView::Qos2Op { client: f, op: Qos2OpView::Retire(plan) },
            } && d == c && f == c && plan.client == c && plan.epoch == h.epoch(c)
                && plan.orphans.contains((pkid, offset))
            &&& r.inf(c).orphaned_qos2_cleanup.contains(pkid)
            &&& r.qos2.retire_inflight.contains(c)
        }),
{
    broadcast use crate::assoc::lemma_lookup_put;

    reveal(HubView::after);
    let c = client.deep_view();
    let next = InflightView {
        orphaned_qos2_cleanup: crate::assoc::adjoin(inf.orphaned_qos2_cleanup, pkid),
        ..inf
    };
    let h1 = h.with_inf(c, next).cleaning(c, true);
    crate::listening::lemma_adjoin_contains(inf.orphaned_qos2_cleanup, pkid, pkid);
    crate::listening::lemma_adjoin_contains(h1.qos2.retire_inflight, c, c);
    let i = choose|i: int|
        0 <= i < next.orphaned_qos2_cleanup.len() && next.orphaned_qos2_cleanup[i] == pkid;
    lemma_orphans_due(next.orphaned_qos2_cleanup, inf.orphaned_qos2, i, offset);
    assert(h1.inf(c) == next);
    let plan = h1.retire_plan(c);
    assert(plan.orphans.contains((pkid, offset)));
    assert(plan.orphans.len() > 0);
}

proof fn lemma_orphans_due(cleanup: Seq<u16>, orphaned: Seq<(u16, u64)>, i: int, offset: u64)
    requires
        0 <= i < cleanup.len(),
        lookup(orphaned, cleanup[i]) == Some(offset),
    ensures
        crate::exactly_once::orphans_due(cleanup, orphaned).contains((cleanup[i], offset)),
    decreases cleanup.len(),
{
    let t = cleanup.drop_last();
    let rest = crate::exactly_once::orphans_due(t, orphaned);
    let all = crate::exactly_once::orphans_due(cleanup, orphaned);
    if i < t.len() {
        assert(t[i] == cleanup[i]);
        lemma_orphans_due(t, orphaned, i, offset);
        let k = choose|k: int| 0 <= k < rest.len() && rest[k] == (cleanup[i], offset);
        assert(all[k] == (cleanup[i], offset));
    } else {
        assert(all[rest.len() as int] == (cleanup[i], offset));
    }
}

/// A lane counts its jobs: one that is taken in is both outstanding and not started; started, it is
/// outstanding still; done, it is neither.
pub proof fn law_lane_counts_its_jobs(l: Lane)
    requires
        l.outstanding < usize::MAX,
        l.queued < usize::MAX,
    ensures
        l.taken_in().outstanding == l.outstanding + 1,
        l.taken_in().queued == l.queued + 1,
        l.taken_in().started().outstanding == l.outstanding + 1,
        l.taken_in().started().queued == l.queued,
        l.taken_in().started().done() == l,
{
}

/// A job that a lane starts makes room for another one.
pub proof fn law_started_job_makes_room(h: HubView, client: ClientId, l: Lane)
    requires
        lookup(h.sessions.lanes, client.deep_view()) == Some(l),
    ensures
        ({
            let r = h.after(HubCommand::LaneStarted { client });
            &&& lookup(r.sessions.lanes, client.deep_view()) matches Some(m) && m.outstanding
                == l.outstanding && (l.queued > 0 ==> m.queued == l.queued - 1)
            &&& r.effects == h.effects
            &&& r.sessions.inflight == h.sessions.inflight
            &&& r.sessions.online == h.sessions.online
        }),
{
    broadcast use crate::assoc::lemma_lookup_put;

    reveal(HubView::after);
}

/// The packet ids that a client holds stay in order as one more is handed out.
pub proof fn law_packet_ids_stay_in_order(inf: InflightView, pkid: u16, p: PendingOutView)
    requires
        forall|i: int, j: int|
            0 <= i < j < inf.pending.len() ==> (#[trigger] inf.pending[i]).0 < (
            #[trigger] inf.pending[j]).0,
    ensures
        ({
            let s = inf.holding(pkid, p).pending;
            forall|i: int, j: int| 0 <= i < j < s.len() ==> (#[trigger] s[i]).0 < (#[trigger] s[j]).0
        }),
{
    let s = inf.pending;
    let r = inf.holding(pkid, p).pending;
    crate::assoc::lemma_position(s, pkid);
    crate::assoc::lemma_rank_bound::<u16, PendingOutView>(s, pkid);
    let n = crate::assoc::rank::<u16, PendingOutView>(s, pkid);
    lemma_rank(s, pkid);
    if bound(s, pkid) {
        assert forall|i: int| 0 <= i < s.len() implies (#[trigger] r[i]).0 == s[i].0 by {}
    } else {
        assert forall|i: int, j: int| 0 <= i < j < r.len() implies (#[trigger] r[i]).0 < (
        #[trigger] r[j]).0 by {
            if i < n {
                assert(r[i] == s[i]);
            }
            if j < n {
                assert(r[j] == s[j]);
            }
            if i > n {
                assert(r[i] == s[i - 1]);
            }
            if j > n {
                assert(r[j] == s[j - 1]);
            }
            if j == n {
                assert(s[i].0 <= pkid);
                assert(s[i].0 != pkid);
            }
            if i == n {
                assert(s[n].0 > pkid);
                if j - 1 > n {
                    assert(s[n].0 < s[j - 1].0);
                }
            }
        }
    }
}

proof fn lemma_rank(s: Seq<(u16, PendingOutView)>, k: u16)
    ensures
        ({
            let n = crate::assoc::rank::<u16, PendingOutView>(s, k);
            &&& 0 <= n <= s.len()
            &&& forall|i: int| 0 <= i < n ==> (#[trigger] s[i]).0 <= k
            &&& n < s.len() ==> s[n].0 > k
        }),
    decreases s.len(),
{
    if s.len() > 0 && !(k < s[0].0) {
        let t = s.skip(1);
        lemma_rank(t, k);
        let m = crate::assoc::rank::<u16, PendingOutView>(t, k);
        assert forall|i: int| 0 <= i < m + 1 implies (#[trigger] s[i]).0 <= k by {
            if i > 0 {
                assert(t[i - 1] == s[i]);
            }
        }
        if m < t.len() {
            assert(t[m] == s[m + 1]);
        }
    }
}

/// How many sessions there are: every session that is kept counts once, and so does every connected
/// client without one.
pub proof fn law_sessions_are_counted(
    online: Seq<(Seq<char>, crate::session::OnlineView)>,
    kept: Seq<(Seq<char>, u32)>,
    client: Seq<char>,
    o: crate::session::OnlineView,
)
    ensures
        crate::attaching::unkept(Seq::empty(), kept) == 0,
        crate::attaching::unkept(online.push((client, o)), kept) == crate::attaching::unkept(
            online,
            kept,
        ) + (if lookup(kept, client) is Some {
            0int
        } else {
            1
        }),
{
    assert(online.push((client, o)).drop_last() =~= online);
}

/// How many subscriptions and messages under way there are: each client adds its own.
pub proof fn law_totals_add_up(
    subs: Seq<(Seq<char>, crate::subscriptions::Grants)>,
    inflight: Seq<(Seq<char>, InflightView)>,
    client: Seq<char>,
    grants: crate::subscriptions::Grants,
    inf: InflightView,
)
    ensures
        crate::gauges::all_grants(Seq::empty()) == 0,
        crate::gauges::all_pending(Seq::empty()) == 0,
        crate::gauges::all_grants(subs.push((client, grants))) == crate::gauges::all_grants(subs)
            + grants.len(),
        crate::gauges::all_pending(inflight.push((client, inf))) == crate::gauges::all_pending(
            inflight,
        ) + inf.pending.len(),
{
    assert(subs.push((client, grants)).drop_last() =~= subs);
    assert(inflight.push((client, inf)).drop_last() =~= inflight);
}

/// What the gauges show: the sessions, the subscriptions, the messages under way, the retained
/// messages and the links that there are.
pub proof fn law_gauges_show(h: HubView)
    requires
        h.session_count() <= usize::MAX,
        h.retained.cache.len() <= usize::MAX,
        h.cluster.peers.len() <= usize::MAX,
        crate::gauges::all_grants(h.routing.subs_by_client) <= usize::MAX,
        crate::gauges::all_pending(h.sessions.inflight) <= usize::MAX,
    ensures
        h.gauges().sessions == crate::attaching::unkept(
            h.sessions.online,
            h.sessions.session_expiry,
        ) + h.sessions.session_expiry.len(),
        h.gauges().retained_messages == h.retained.cache.len(),
        h.gauges().peer_links == h.cluster.peers.len(),
        h.gauges().subscriptions == crate::gauges::all_grants(h.routing.subs_by_client),
        h.gauges().inflight_messages == crate::gauges::all_pending(h.sessions.inflight),
{
}

} // verus!
