//! What every command keeps.
//!
//! A hub that is sound stays sound, whatever it is told: its ledger is in order, within its cap,
//! and leads every answer home, no acknowledgement is held up for a publish that is not delivered
//! again, and growth is refused exactly while a resource is over its watermark. And every publisher
//! that asked for an answer is settled with exactly once.

use vstd::prelude::*;

use crate::assoc::{bound, cut, keys, lookup, put, without};
use crate::attaching::{first_of, remaining, revoked};
use crate::cluster::{ClusterView, PeerView};
use crate::completions::one_less;
use crate::delivery::{room, Targets};
use crate::effects::EffectView;
use crate::forwarding::{fan_frames, gate_of, reminders, unsettled_ids, untried, Tried};
use crate::hub::{held, HubView, SessionsView};
use crate::ids::{next_number, number_above};
use crate::inflight::{BacklogView, InflightView, OutState, PendingOutView};
use crate::keyspace::{snapshot_frames, to_every};
use crate::lanes::{GateView, JobView, LaneOutcome, ThenView, WorkView};
use crate::ledger::{lost_with, not_owed_by, owed_by, told, under, withheld, KindView, LedgerView,
    ObligationView, PendingAdmission, PendingView, PENDING_PUBLISH_CAP};
use crate::message::{MessageView, PublicationView};
use crate::outcome::{DurableOutcome, ForwardVerdict, PublishOutcome, PublishRefusal};
use crate::packet::{publish_of, PacketView, NOT_AUTHORIZED};
use crate::peers::{gossip_frames, interest_frames};
use crate::qos::{level, weaker, QoS};
use crate::qos2::{Qos2View, RetireResultView};
use crate::retained::{MutationView, RetainedStateView};
use crate::session::{AttachView, QueuedView, RecoveryView, StorageError};
use crate::shared::{candidates_of, CandidateView, KeyView, Matches};
use crate::subscribing::{replay, verdicts, WishView};
use crate::subscriptions::{matching, Grants};
use crate::sweeps::{expired, Eviction, StoredView, SweepPolicyView};
use crate::wire::{FrameView, RetainedEntryView, SharedGroupWireView};

verus! {

/// Whether the numbers of `s` rise.
pub open spec fn rising(s: Seq<(u64, PendingView)>) -> bool {
    forall|i: int, j: int|
        0 <= i < j < s.len() ==> (#[trigger] s[i]).0 < (#[trigger] s[j]).0
}

/// Whether a publish of `s` whose acknowledgement waits for routing to settle is delivered again
/// while it does.
pub open spec fn replayed(s: Seq<(u64, PendingView)>) -> bool {
    forall|i: int|
        0 <= i < s.len() && (#[trigger] s[i]).1.ack_awaits_settle ==> s[i].1.awaiting_settle
}

impl LedgerView {
    /// Whether the publishes stand in the order in which they came, no more than the cap allows;
    /// every forward leads to the publish that waits for it, under a number that was handed out;
    /// and no acknowledgement waits for routing to settle without its publish being delivered
    /// again.
    #[verifier::opaque]
    pub open spec fn sound(self) -> bool {
        &&& self.coherent()
        &&& self.numbered()
        &&& rising(self.entries)
        &&& replayed(self.entries)
        &&& self.entries.len() <= PENDING_PUBLISH_CAP
    }
}

/// Two numbers that are counted together.
pub type Tally = (nat, nat);

/// The sum of two tallies.
pub open spec fn plus(a: Tally, b: Tally) -> Tally {
    (a.0 + b.0, a.1 + b.1)
}

/// Whether `a` has as many of the first as `b`, and no more of the second.
pub open spec fn within(a: Tally, b: Tally) -> bool {
    a.0 == b.0 && a.1 <= b.1
}

/// Whether `p` waits for an answer to the publisher named `token`; and whether it does so without
/// waiting for the store.
pub open spec fn weight(p: PendingView, token: u64) -> Tally {
    (one_if(p.done == Some(token)), one_if(p.done == Some(token) && !p.awaiting_store))
}

/// How many of `s` wait for an answer to the publisher named `token`; and how many of those do not
/// wait for the store.
pub open spec fn waiting_for(s: Seq<(u64, PendingView)>, token: u64) -> Tally
    decreases s.len(),
{
    if s.len() == 0 {
        (0, 0)
    } else {
        plus(waiting_for(s.drop_last(), token), weight(s.last().1, token))
    }
}

/// Whether `e` answers the publisher named `token`, or leaves it without an answer for good; and
/// whether it tells it that its publish was accepted.
pub open spec fn settles_with(e: EffectView, token: u64) -> Tally {
    match e {
        EffectView::Published { token: t, outcome } => (
            one_if(t == token),
            one_if(t == token && outcome == PublishOutcome::Accepted),
        ),
        EffectView::Withheld { token: t } => (one_if(t == token), 0),
        _ => (0, 0),
    }
}

/// How many of `es` do so.
pub open spec fn settled_by(es: Seq<EffectView>, token: u64) -> Tally
    decreases es.len(),
{
    if es.len() == 0 {
        (0, 0)
    } else {
        plus(settled_by(es.drop_last(), token), settles_with(es.last(), token))
    }
}

/// 1 or 0.
pub open spec fn one_if(b: bool) -> nat {
    if b {
        1
    } else {
        0
    }
}

impl HubView {
    /// Whether the ledger is sound, and growth is refused exactly while a resource is over its
    /// watermark.
    pub open spec fn sound(self) -> bool {
        self.ledger.sound() && self.brownout == self.axes.any()
    }

    /// How often the publisher named `token` waits, or has been settled with; and how often it
    /// waits for anything but the store, or was told that its publish was accepted.
    pub open spec fn accounts_for(self, token: u64) -> Tally {
        plus(waiting_for(self.ledger.entries, token), settled_by(self.effects, token))
    }
}

/// Whether `b` differs from `a` in nothing that soundness is about, and settles with nobody.
pub open spec fn apart(a: HubView, b: HubView) -> bool {
    &&& b.ledger == a.ledger
    &&& b.brownout == a.brownout
    &&& b.axes == a.axes
    &&& forall|t: u64| #[trigger] settled_by(b.effects, t) == settled_by(a.effects, t)
}

/// Whether `b` is sound where `a` is, accounts for the same publishers, has freed none of them from
/// waiting for the store, and refuses growth as `a` does.
pub open spec fn keeps(a: HubView, b: HubView) -> bool {
    &&& a.ledger.sound() ==> b.ledger.sound()
    &&& a.ledger.sound() ==> forall|t: u64|
        #![trigger b.accounts_for(t)]
        #![trigger settled_by(b.effects, t)]
        within(b.accounts_for(t), a.accounts_for(t))
    &&& b.brownout == a.brownout
    &&& b.axes == a.axes
}

// What settles with whom.

pub broadcast proof fn lemma_settled_push(es: Seq<EffectView>, e: EffectView, t: u64)
    ensures
        #[trigger] settled_by(es.push(e), t) == plus(settled_by(es, t), settles_with(e, t)),
{
    assert(es.push(e).drop_last() =~= es);
}

pub broadcast proof fn lemma_settled_add(a: Seq<EffectView>, b: Seq<EffectView>, t: u64)
    ensures
        #[trigger] settled_by(a + b, t) == plus(settled_by(a, t), settled_by(b, t)),
    decreases b.len(),
{
    if b.len() == 0 {
        assert(a + b =~= a);
    } else {
        assert((a + b).drop_last() =~= a + b.drop_last());
        lemma_settled_add(a, b.drop_last(), t);
    }
}

pub broadcast proof fn lemma_settled_none(t: u64)
    ensures
        #[trigger] settled_by(Seq::empty(), t) == (0nat, 0nat),
{
}

pub broadcast proof fn lemma_framed_settle(c: ClusterView, node: Seq<char>, frame: FrameView, t: u64)
    ensures
        #[trigger] settled_by(c.framed(node, frame), t) == (0nat, 0nat),
{
    broadcast use {lemma_settled_push, lemma_settled_none};

}

pub broadcast proof fn lemma_interest_settle(
    node: Seq<char>,
    filters: Seq<Seq<char>>,
    groups: Seq<SharedGroupWireView>,
    t: u64,
)
    ensures
        #[trigger] settled_by(interest_frames(node, filters, groups), t) == (0nat, 0nat),
{
    broadcast use {lemma_settled_push, lemma_settled_none};

    let first = EffectView::Frame { node, frame: FrameView::Interest { filters } };
    let second = EffectView::Frame { node, frame: FrameView::SharedInterest { groups } };
    assert(interest_frames(node, filters, groups) =~= Seq::empty().push(first).push(second));
}

pub broadcast proof fn lemma_gossip_settle(
    peers: Seq<(Seq<char>, PeerView)>,
    filters: Seq<Seq<char>>,
    groups: Seq<SharedGroupWireView>,
    t: u64,
)
    ensures
        #[trigger] settled_by(gossip_frames(peers, filters, groups), t) == (0nat, 0nat),
    decreases peers.len(),
{
    broadcast use {lemma_settled_add, lemma_settled_none, lemma_interest_settle};

    if peers.len() > 0 {
        lemma_gossip_settle(peers.drop_last(), filters, groups, t);
    }
}

pub broadcast proof fn lemma_fan_settle(
    peers: Seq<(Seq<char>, PeerView)>,
    wanting: Seq<Seq<char>>,
    gated: bool,
    to_all: bool,
    frame: FrameView,
    t: u64,
)
    ensures
        #[trigger] settled_by(fan_frames(peers, wanting, gated, to_all, frame), t) == (0nat, 0nat),
    decreases peers.len(),
{
    broadcast use {lemma_settled_push, lemma_settled_none};

    if peers.len() > 0 {
        lemma_fan_settle(peers.drop_last(), wanting, gated, to_all, frame, t);
    }
}

pub broadcast proof fn lemma_reminders_settle(
    c: ClusterView,
    p: PendingView,
    awaiting: Seq<(u64, ObligationView)>,
    t: u64,
)
    ensures
        #[trigger] settled_by(reminders(c, p, awaiting), t) == (0nat, 0nat),
    decreases awaiting.len(),
{
    broadcast use {lemma_settled_add, lemma_settled_none, lemma_framed_settle};

    if awaiting.len() > 0 {
        lemma_reminders_settle(c, p, awaiting.drop_last(), t);
    }
}

pub broadcast proof fn lemma_every_settle(peers: Seq<(Seq<char>, PeerView)>, frame: FrameView, t: u64)
    ensures
        #[trigger] settled_by(to_every(peers, frame), t) == (0nat, 0nat),
    decreases peers.len(),
{
    broadcast use {lemma_settled_push, lemma_settled_none};

    if peers.len() > 0 {
        lemma_every_settle(peers.drop_last(), frame, t);
    }
}

pub broadcast proof fn lemma_snapshot_settle(
    node: Seq<char>,
    chunks: Seq<Seq<RetainedEntryView>>,
    t: u64,
)
    ensures
        #[trigger] settled_by(snapshot_frames(node, chunks), t) == (0nat, 0nat),
    decreases chunks.len(),
{
    broadcast use {lemma_settled_push, lemma_settled_none};

    if chunks.len() > 0 {
        lemma_snapshot_settle(node, chunks.drop_last(), t);
    }
}

pub broadcast proof fn lemma_kick_settle(r: RetainedStateView, me: Seq<char>, c: ClusterView, t: u64)
    ensures
        #[trigger] settled_by(r.kick_effects(me, c), t) == (0nat, 0nat),
    decreases r.queue.len(),
{
    broadcast use {lemma_settled_push, lemma_settled_add, lemma_settled_none, lemma_framed_settle};

    if !(r.handoff is Some || r.commit_inflight || r.queue.len() == 0) {
        let m = r.queue[0];
        let rest = RetainedStateView { queue: r.queue.skip(1), ..r };
        lemma_kick_settle(rest.not_waiting(m.reply), me, c, t);
    }
}

pub broadcast proof fn lemma_writes_settle(
    r: RetainedStateView,
    m: MessageView,
    owed: ThenView,
    t: u64,
)
    ensures
        #[trigger] settled_by(r.writes(m, owed), t) == (0nat, 0nat),
{
    broadcast use {lemma_settled_push, lemma_settled_none};

}

pub broadcast proof fn lemma_update_settle(
    r: RetainedStateView,
    m: MutationView,
    token: (u64, u64),
    t: u64,
)
    ensures
        #[trigger] settled_by(r.update_effects(m, token), t) == (0nat, 0nat),
{
    broadcast use {lemma_settled_none, lemma_writes_settle};

}

pub broadcast proof fn lemma_taken_settle(
    r: RetainedStateView,
    have: Seq<(Seq<char>, MessageView)>,
    entries: Seq<RetainedEntryView>,
    t: u64,
)
    ensures
        #[trigger] settled_by(r.snapshot_effects(have, entries), t) == (0nat, 0nat),
    decreases entries.len(),
{
    broadcast use {lemma_settled_add, lemma_settled_none, lemma_writes_settle};

    if entries.len() > 0 {
        lemma_taken_settle(r, have, entries.drop_last(), t);
    }
}

pub broadcast proof fn lemma_told_settle(done: Option<u64>, outcome: PublishOutcome, t: u64)
    ensures
        #[trigger] settled_by(told(done, outcome), t) == (
            one_if(done == Some(t)),
            one_if(done == Some(t) && outcome == PublishOutcome::Accepted),
        ),
{
    broadcast use {lemma_settled_push, lemma_settled_none};

}

pub broadcast proof fn lemma_withheld_settle(done: Option<u64>, t: u64)
    ensures
        #[trigger] settled_by(withheld(done), t) == (one_if(done == Some(t)), 0nat),
{
    broadcast use {lemma_settled_push, lemma_settled_none};

}

pub broadcast group group_settled {
    lemma_settled_push,
    lemma_settled_add,
    lemma_settled_none,
    lemma_framed_settle,
    lemma_interest_settle,
    lemma_gossip_settle,
    lemma_fan_settle,
    lemma_reminders_settle,
    lemma_every_settle,
    lemma_snapshot_settle,
    lemma_kick_settle,
    lemma_writes_settle,
    lemma_update_settle,
    lemma_taken_settle,
    lemma_told_settle,
    lemma_withheld_settle,
}

// The ledger.

pub proof fn lemma_filter_rises(s: Seq<(u64, PendingView)>, keep: spec_fn((u64, PendingView)) -> bool)
    requires
        rising(s),
        replayed(s),
    ensures
        rising(s.filter(keep)),
        replayed(s.filter(keep)),
        s.filter(keep).len() <= s.len(),
    decreases s.len(),
{
    reveal(Seq::filter);
    if s.len() > 0 {
        let t = s.drop_last();
        let f = s.filter(keep);
        assert(rising(t)) by {
            assert forall|i: int, j: int| 0 <= i < j < t.len() implies (#[trigger] t[i]).0 < (
            #[trigger] t[j]).0 by {
                assert(t[i] == s[i] && t[j] == s[j]);
            }
        }
        assert(replayed(t)) by {
            assert forall|i: int|
                0 <= i < t.len() && (#[trigger] t[i]).1.ack_awaits_settle implies
                t[i].1.awaiting_settle by {
                assert(t[i] == s[i]);
            }
        }
        lemma_filter_rises(t, keep);
        if keep(s.last()) {
            let g = t.filter(keep);
            assert(f == g.push(s.last()));
            assert forall|i: int, j: int| 0 <= i < j < f.len() implies (#[trigger] f[i]).0 < (
            #[trigger] f[j]).0 by {
                if j == g.len() {
                    crate::ledger::lemma_filter_keeps(t, keep, i);
                    let n = choose|n: int| 0 <= n < t.len() && t[n] == g[i];
                    assert(s[n] == g[i]);
                    assert(s[s.len() - 1] == s.last());
                }
            }
            assert forall|i: int|
                0 <= i < f.len() && (#[trigger] f[i]).1.ack_awaits_settle implies
                f[i].1.awaiting_settle by {
                if i == g.len() {
                    assert(s[s.len() - 1] == f[i]);
                } else {
                    assert(g[i] == f[i]);
                }
            }
        }
    }
}

/// Whether the answers that each publish of `s` awaits come under numbers up to `n`.
pub open spec fn all_under(s: Seq<(u64, PendingView)>, n: u64) -> bool {
    forall|i: int| 0 <= i < s.len() ==> under((#[trigger] s[i]).1.awaiting, n)
}

pub proof fn lemma_put_under(s: Seq<(u64, PendingView)>, id: u64, q: PendingView, n: u64)
    requires
        bound(s, id),
        all_under(s, n),
        under(q.awaiting, n),
    ensures
        all_under(put(s, id, q), n),
{
    let t = put(s, id, q);
    crate::assoc::lemma_position(s, id);
    assert forall|i: int| 0 <= i < t.len() implies under((#[trigger] t[i]).1.awaiting, n) by {
        assert(under(s[i].1.awaiting, n));
    }
}

pub proof fn lemma_filter_under(
    s: Seq<(u64, PendingView)>,
    keep: spec_fn((u64, PendingView)) -> bool,
    n: u64,
)
    requires
        all_under(s, n),
    ensures
        all_under(s.filter(keep), n),
{
    let t = s.filter(keep);
    assert forall|i: int| 0 <= i < t.len() implies under((#[trigger] t[i]).1.awaiting, n) by {
        crate::ledger::lemma_filter_keeps(s, keep, i);
        let j = choose|j: int| 0 <= j < s.len() && s[j] == t[i];
        assert(under(s[j].1.awaiting, n));
    }
}

pub proof fn lemma_index_under(s: Seq<(u64, u64)>, keep: spec_fn((u64, u64)) -> bool, n: u64)
    requires
        forall|i: int| 0 <= i < s.len() ==> (#[trigger] s[i]).0 <= n,
    ensures
        forall|i: int| 0 <= i < s.filter(keep).len() ==> (#[trigger] s.filter(keep)[i]).0 <= n,
{
    let t = s.filter(keep);
    assert forall|i: int| 0 <= i < t.len() implies (#[trigger] t[i]).0 <= n by {
        crate::ledger::lemma_filter_keeps(s, keep, i);
        let j = choose|j: int| 0 <= j < s.len() && s[j] == t[i];
        assert(s[j].0 <= n);
    }
}

pub proof fn lemma_found_under(s: Seq<(u64, PendingView)>, id: u64, p: PendingView, n: u64)
    requires
        lookup(s, id) == Some(p),
        all_under(s, n),
    ensures
        under(p.awaiting, n),
{
    crate::assoc::lemma_position(s, id);
    assert(under(s[crate::assoc::position(s, id)].1.awaiting, n));
}

/// A publish may change in place, as long as it waits for the same answers, and for the store if
/// it did.
pub proof fn lemma_with(l: LedgerView, id: u64, p: PendingView, q: PendingView)
    requires
        l.sound(),
        lookup(l.entries, id) == Some(p),
        q.awaiting == p.awaiting,
        q.ack_awaits_settle ==> p.ack_awaits_settle,
        q.awaiting_settle == p.awaiting_settle || !q.ack_awaits_settle,
        q.done == p.done,
    ensures
        l.with(id, q).sound(),
        forall|t: u64|
            plus(#[trigger] waiting_for(l.with(id, q).entries, t), weight(p, t)) == plus(
                waiting_for(l.entries, t),
                weight(q, t),
            ),
{
    reveal(LedgerView::sound);
    crate::ledger::lemma_with_coherent(l, id, q);
    lemma_put_entry(l.entries, id, p, q);
    lemma_found_under(l.entries, id, p, l.forward_seq);
    lemma_put_under(l.entries, id, q, l.forward_seq);
    assert forall|t: u64|
        plus(#[trigger] waiting_for(l.with(id, q).entries, t), weight(p, t)) == plus(
            waiting_for(l.entries, t),
            weight(q, t),
        ) by {
        lemma_waiting_put(l.entries, id, p, q, t);
    }
}

pub proof fn lemma_waiting_update(s: Seq<(u64, PendingView)>, i: int, e: (u64, PendingView), t: u64)
    requires
        0 <= i < s.len(),
    ensures
        plus(waiting_for(s.update(i, e), t), weight(s[i].1, t)) == plus(
            waiting_for(s, t),
            weight(e.1, t),
        ),
    decreases s.len(),
{
    let d = s.drop_last();
    if i == s.len() - 1 {
        assert(s.update(i, e).drop_last() =~= d);
    } else {
        assert(s.update(i, e).drop_last() =~= d.update(i, e));
        lemma_waiting_update(d, i, e, t);
    }
}

pub proof fn lemma_waiting_cut(s: Seq<(u64, PendingView)>, i: int, t: u64)
    requires
        rising(s),
        0 <= i < s.len(),
    ensures
        plus(waiting_for(cut(s, s[i].0), t), weight(s[i].1, t)) == waiting_for(s, t),
    decreases s.len(),
{
    reveal(Seq::filter);
    let d = s.drop_last();
    let keep = crate::assoc::not_key::<u64, PendingView>(s[i].0);
    if i == s.len() - 1 {
        assert forall|j: int| 0 <= j < d.len() implies keep(#[trigger] d[j]) by {
            assert(d[j] == s[j]);
        }
        crate::assoc::lemma_filter_all(d, keep);
    } else {
        assert(rising(d)) by {
            assert forall|a: int, b: int| 0 <= a < b < d.len() implies (#[trigger] d[a]).0 < (
            #[trigger] d[b]).0 by {
                assert(d[a] == s[a] && d[b] == s[b]);
            }
        }
        lemma_waiting_cut(d, i, t);
        assert(d[i] == s[i]);
        let g = d.filter(keep);
        assert(s[i].0 < s[s.len() - 1].0);
        assert(s.filter(keep) == g.push(s.last()));
        assert(g.push(s.last()).drop_last() =~= g);
    }
}

/// Taking a publish out leaves its publisher to be settled with.
pub proof fn lemma_waiting_gone(l: LedgerView, id: u64, t: u64)
    requires
        l.sound(),
    ensures
        match lookup(l.entries, id) {
            Some(p) => plus(waiting_for(cut(l.entries, id), t), weight(p, t)) == waiting_for(
                l.entries,
                t,
            ),
            None => true,
        },
{
    reveal(LedgerView::sound);
    crate::assoc::lemma_position(l.entries, id);
    if bound(l.entries, id) {
        lemma_waiting_cut(l.entries, crate::assoc::position(l.entries, id), t);
    }
}

pub proof fn lemma_waiting_put(s: Seq<(u64, PendingView)>, id: u64, p: PendingView, q: PendingView, t: u64)
    requires
        lookup(s, id) == Some(p),
    ensures
        plus(waiting_for(put(s, id, q), t), weight(p, t)) == plus(waiting_for(s, t), weight(q, t)),
{
    crate::assoc::lemma_position(s, id);
    lemma_waiting_update(s, crate::assoc::position(s, id), (id, q), t);
}

pub proof fn lemma_waiting_same(a: Seq<(u64, PendingView)>, b: Seq<(u64, PendingView)>, t: u64)
    requires
        a.len() == b.len(),
        forall|i: int| 0 <= i < a.len() ==> weight((#[trigger] a[i]).1, t) == weight(b[i].1, t),
    ensures
        waiting_for(a, t) == waiting_for(b, t),
    decreases a.len(),
{
    if a.len() > 0 {
        let (c, d) = (a.drop_last(), b.drop_last());
        assert forall|i: int| 0 <= i < c.len() implies weight((#[trigger] c[i]).1, t) == weight(
            d[i].1,
            t,
        ) by {
            assert(weight(a[i].1, t) == weight(b[i].1, t));
        }
        lemma_waiting_same(c, d, t);
        assert(weight(a[a.len() - 1].1, t) == weight(b[a.len() - 1].1, t));
    }
}

pub proof fn lemma_put_entry(s: Seq<(u64, PendingView)>, id: u64, p: PendingView, q: PendingView)
    requires
        rising(s),
        replayed(s),
        lookup(s, id) == Some(p),
        q.ack_awaits_settle ==> p.ack_awaits_settle,
        q.awaiting_settle == p.awaiting_settle || !q.ack_awaits_settle,
    ensures
        rising(put(s, id, q)),
        replayed(put(s, id, q)),
        put(s, id, q).len() == s.len(),
{
    let t = put(s, id, q);
    crate::assoc::lemma_position(s, id);
    assert forall|i: int, j: int| 0 <= i < j < t.len() implies (#[trigger] t[i]).0 < (
    #[trigger] t[j]).0 by {
        assert(s[i].0 == t[i].0 && s[j].0 == t[j].0);
    }
    assert forall|i: int| 0 <= i < t.len() && (#[trigger] t[i]).1.ack_awaits_settle implies
        t[i].1.awaiting_settle by {
        assert(s[i].0 == t[i].0);
    }
}

pub proof fn lemma_ledger_dropped(l: LedgerView, id: u64)
    requires
        l.sound(),
    ensures
        l.dropped(id).sound(),
        forall|t: u64|
            within(
                plus(
                    #[trigger] waiting_for(l.dropped(id).entries, t),
                    settled_by(l.drop_effects(id), t),
                ),
                waiting_for(l.entries, t),
            ),
        forall|t: u64, r: PublishRefusal| #[trigger]
            settled_by(l.refuse_effects(id, r), t) == settled_by(l.drop_effects(id), t),
{
    broadcast use group_settled;

    assert forall|t: u64|
        within(
            plus(
                #[trigger] waiting_for(l.dropped(id).entries, t),
                settled_by(l.drop_effects(id), t),
            ),
            waiting_for(l.entries, t),
        ) by {
        lemma_waiting_gone(l, id, t);
    }
    reveal(LedgerView::sound);
    crate::ledger::lemma_dropped_coherent(l, id);
    lemma_filter_rises(l.entries, crate::assoc::not_key::<u64, PendingView>(id));
    lemma_filter_under(l.entries, crate::assoc::not_key::<u64, PendingView>(id), l.forward_seq);
    lemma_index_under(
        l.forward_index,
        crate::assoc::not_value::<u64, u64>(id),
        l.forward_seq,
    );
}

pub proof fn lemma_ledger_completed(l: LedgerView, id: u64)
    requires
        l.sound(),
    ensures
        l.completed(id).sound(),
        forall|t: u64|
            within(
                plus(
                    #[trigger] waiting_for(l.completed(id).entries, t),
                    settled_by(l.complete_effects(id), t),
                ),
                waiting_for(l.entries, t),
            ),
{
    broadcast use group_settled;

    assert forall|t: u64|
        within(
            plus(
                #[trigger] waiting_for(l.completed(id).entries, t),
                settled_by(l.complete_effects(id), t),
            ),
            waiting_for(l.entries, t),
        ) by {
        lemma_waiting_gone(l, id, t);
        match lookup(l.entries, id) {
            Some(p) => {
                lemma_waiting_put(l.entries, id, p, PendingView { done: None, ..p }, t);
            },
            None => {},
        }
    }
    reveal(LedgerView::sound);
    crate::ledger::lemma_completed_coherent(l, id);
    lemma_filter_rises(l.entries, crate::assoc::not_key::<u64, PendingView>(id));
    lemma_filter_under(l.entries, crate::assoc::not_key::<u64, PendingView>(id), l.forward_seq);
    match lookup(l.entries, id) {
        Some(p) => {
            lemma_found_under(l.entries, id, p, l.forward_seq);
            lemma_put_under(l.entries, id, PendingView { done: None, ..p }, l.forward_seq);
            lemma_put_entry(l.entries, id, p, PendingView { done: None, ..p });
        },
        None => {},
    }
}

pub proof fn lemma_ledger_registered(
    l: LedgerView,
    token: u64,
    p: PublicationView,
    unsettled: bool,
    instant: u64,
)
    requires
        l.sound(),
        l.publish_ids < u64::MAX,
    ensures
        l.registered(token, p, unsettled, instant).sound(),
        forall|t: u64|
            within(
                plus(
                    #[trigger] waiting_for(
                        l.registered(token, p, unsettled, instant).entries,
                        t,
                    ),
                    settled_by(l.register_effects(token, instant), t),
                ),
                plus(waiting_for(l.entries, t), (one_if(t == token), one_if(t == token))),
            ),
        l.registered_id(instant) matches Some(id) ==> (lookup(
            l.registered(token, p, unsettled, instant).entries,
            id,
        ) matches Some(q) && q.done == Some(token) && !q.awaiting_store),
{
    broadcast use group_settled;

    reveal(LedgerView::sound);
    crate::ledger::law_forwards_lead_home(l, 0, token, p, unsettled, instant);
    crate::ledger::law_waiting_cap(l, token, p, unsettled, instant);
    if l.admission(instant) != PendingAdmission::Refuse {
        match l.victim(instant) {
            Some(v) => {
                lemma_ledger_dropped(l, v);
            },
            None => {},
        }
        let place = l.with_place(instant);
        let s = place.entries;
        let id = next_number(place.publish_ids);
        let t = l.registered(token, p, unsettled, instant).entries;
        assert forall|j: int| 0 <= j < s.len() implies (#[trigger] s[j]).0 < id by {
            assert(s[j].0 <= place.publish_ids);
        }
        crate::assoc::lemma_position(s, id);
        crate::assoc::lemma_rank_at::<u64, PendingView>(s, id, s.len() as int);
        assert forall|i: int, j: int| 0 <= i < j < t.len() implies (#[trigger] t[i]).0 < (
        #[trigger] t[j]).0 by {
            assert(t[i] == s[i]);
            if j < s.len() {
                assert(t[j] == s[j]);
            }
        }
        assert forall|i: int| 0 <= i < t.len() && (#[trigger] t[i]).1.ack_awaits_settle implies
            t[i].1.awaiting_settle by {
            if i < s.len() {
                assert(t[i] == s[i]);
            }
        }
        assert forall|n: u64| #[trigger]
            waiting_for(t, n) == plus(
            waiting_for(s, n),
            (one_if(n == token), one_if(n == token)),
        ) by {
            assert(t.drop_last() =~= s);
        }
        assert forall|j: int| 0 <= j < s.len() implies (#[trigger] t[j]).0 != id by {
            assert(t[j] == s[j]);
        }
        crate::assoc::lemma_position_at(t, id, s.len() as int);
        assert(all_under(t, l.forward_seq)) by {
            assert forall|i: int| 0 <= i < t.len() implies under(
                (#[trigger] t[i]).1.awaiting,
                l.forward_seq,
            ) by {
                if i < s.len() {
                    assert(t[i] == s[i]);
                    assert(under(s[i].1.awaiting, l.forward_seq));
                }
            }
        }
    }
}

pub proof fn lemma_ledger_forwarded(l: LedgerView, id: u64, o: ObligationView)
    requires
        l.sound(),
    ensures
        l.forwarded(id, o).sound(),
        forall|t: u64| #[trigger]
            waiting_for(l.forwarded(id, o).entries, t) == waiting_for(l.entries, t),
{
    assert forall|t: u64| #[trigger]
        waiting_for(l.forwarded(id, o).entries, t) == waiting_for(l.entries, t) by {
        match lookup(l.entries, id) {
            Some(p) => {
                let q = PendingView {
                    awaiting: put(p.awaiting, number_above(l.forward_seq), o),
                    ..p
                };
                lemma_waiting_put(l.entries, id, p, q, t);
            },
            None => {},
        }
    }
    reveal(LedgerView::sound);
    crate::ledger::law_answers_lead_home(l, id, o, Seq::empty(), 0);
    let n = number_above(l.forward_seq);
    assert(all_under(l.entries, n)) by {
        assert forall|i: int| 0 <= i < l.entries.len() implies under(
            (#[trigger] l.entries[i]).1.awaiting,
            n,
        ) by {
            assert(under(l.entries[i].1.awaiting, l.forward_seq));
        }
    }
    match lookup(l.entries, id) {
        Some(p) => {
            let q = PendingView { awaiting: put(p.awaiting, n, o), ..p };
            lemma_put_entry(l.entries, id, p, q);
            lemma_found_under(l.entries, id, p, n);
            crate::assoc::lemma_position(p.awaiting, n);
            lemma_put_under(l.entries, id, q, n);
            crate::assoc::lemma_position(l.forward_index, n);
        },
        None => {},
    }
}

pub proof fn lemma_ledger_settled(l: LedgerView, node: Seq<char>, seq: u64)
    requires
        l.sound(),
    ensures
        l.settled(node, seq).sound(),
        forall|t: u64| #[trigger]
            waiting_for(l.settled(node, seq).entries, t) == waiting_for(l.entries, t),
{
    assert forall|t: u64| #[trigger]
        waiting_for(l.settled(node, seq).entries, t) == waiting_for(l.entries, t) by {
        match l.settles(node, seq) {
            Some((id, _)) => {
                let p = lookup(l.entries, id)->Some_0;
                let q = PendingView { awaiting: cut(p.awaiting, seq), ..p };
                lemma_waiting_put(l.entries, id, p, q, t);
            },
            None => {},
        }
    }
    reveal(LedgerView::sound);
    crate::ledger::lemma_settled_coherent(l, node, seq);
    lemma_index_under(l.forward_index, crate::assoc::not_key::<u64, u64>(seq), l.forward_seq);
    match l.settles(node, seq) {
        Some((id, _)) => {
            let p = lookup(l.entries, id)->Some_0;
            let q = PendingView { awaiting: cut(p.awaiting, seq), ..p };
            lemma_put_entry(l.entries, id, p, q);
            lemma_found_under(l.entries, id, p, l.forward_seq);
            assert(under(q.awaiting, l.forward_seq)) by {
                let keep = crate::assoc::not_key::<u64, ObligationView>(seq);
                assert forall|i: int| 0 <= i < q.awaiting.len() implies (
                #[trigger] q.awaiting[i]).0 <= l.forward_seq by {
                    crate::ledger::lemma_filter_keeps(p.awaiting, keep, i);
                }
            }
            lemma_put_under(l.entries, id, q, l.forward_seq);
        },
        None => {},
    }
}

pub proof fn lemma_ledger_stored_on(l: LedgerView, id: u64, node: Seq<char>)
    requires
        l.sound(),
    ensures
        l.stored_on(id, node).sound(),
        forall|t: u64| #[trigger]
            waiting_for(l.stored_on(id, node).entries, t) == waiting_for(l.entries, t),
{
    match lookup(l.entries, id) {
        Some(p) => {
            lemma_with(
                l,
                id,
                p,
                PendingView {
                    stored: true,
                    acked_nodes: crate::assoc::adjoin(p.acked_nodes, node),
                    ..p
                },
            );
        },
        None => {},
    }
}

pub proof fn lemma_ledger_bereft(l: LedgerView, node: Seq<char>)
    requires
        l.sound(),
    ensures
        l.bereft_of(node).sound(),
        forall|t: u64| #[trigger]
            waiting_for(l.bereft_of(node).entries, t) == waiting_for(l.entries, t),
{
    assert forall|t: u64| #[trigger]
        waiting_for(l.bereft_of(node).entries, t) == waiting_for(l.entries, t) by {
        lemma_waiting_same(l.bereft_of(node).entries, l.entries, t);
    }
    reveal(LedgerView::sound);
    crate::ledger::lemma_bereft_coherent(l, node);
    let s = l.entries;
    let t = l.bereft_of(node).entries;
    assert(l.bereft_of(node).numbered()) by {
        assert forall|i: int| 0 <= i < t.len() implies under(
            (#[trigger] t[i]).1.awaiting,
            l.forward_seq,
        ) by {
            let (a, b) = (s[i].1.awaiting, t[i].1.awaiting);
            assert(under(a, l.forward_seq));
            assert forall|k: int| 0 <= k < b.len() implies (#[trigger] b[k]).0 <= l.forward_seq by {
                if owed_by(a, node).len() > 0 {
                    crate::ledger::lemma_filter_keeps(a, not_owed_by(node), k);
                }
            }
        }
        let index = l.bereft_of(node).forward_index;
        assert forall|i: int| 0 <= i < index.len() implies (#[trigger] index[i]).0
            <= l.forward_seq by {
            crate::ledger::lemma_cut_all_keeps(l.forward_index, lost_with(s, node), i);
            let j = choose|j: int| 0 <= j < l.forward_index.len() && l.forward_index[j] == index[i];
            assert(l.forward_index[j].0 <= l.forward_seq);
        }
    }
    assert forall|i: int, j: int| 0 <= i < j < t.len() implies (#[trigger] t[i]).0 < (
    #[trigger] t[j]).0 by {
        assert(s[i].0 < s[j].0);
    }
    assert forall|i: int| 0 <= i < t.len() && (#[trigger] t[i]).1.ack_awaits_settle implies
        t[i].1.awaiting_settle by {
        assert(s[i].0 == t[i].0);
    }
}

// Deliveries.

pub proof fn lemma_completing(h: HubView, id: u64)
    ensures
        keeps(h, h.completing(id)),
{
    broadcast use group_settled;

    if h.ledger.sound() {
        lemma_ledger_completed(h.ledger, id);
    }
}

pub proof fn lemma_dropping(h: HubView, id: u64)
    ensures
        keeps(h, h.dropping(id)),
{
    broadcast use group_settled;

    if h.ledger.sound() {
        lemma_ledger_dropped(h.ledger, id);
    }
}

pub proof fn lemma_refusing(h: HubView, id: u64, r: PublishRefusal)
    ensures
        keeps(h, h.refusing(id, r)),
{
    broadcast use group_settled;

    if h.ledger.sound() {
        lemma_ledger_dropped(h.ledger, id);
    }
}

pub proof fn lemma_submitting(h: HubView, job: JobView)
    ensures
        keeps(h, h.submitting(job).0),
        job.owed is Ungated ==> apart(h, h.submitting(job).0),
{
    broadcast use group_settled;

    let lane = h.lane(job.client);
    if lane.takes_delivery() && h.ledger.sound() {
        match job.owed {
            ThenView::Gate(id) => {
                match lookup(h.ledger.entries, id) {
                    Some(p) => {
                        let deep = lane.deeper_than(h.limits.soft_lane_depth);
                        lemma_with(
                            h.ledger,
                            id,
                            p,
                            PendingView {
                                appends_outstanding: held(p.appends_outstanding, 1),
                                congested: p.congested || deep,
                                ..p
                            },
                        );
                    },
                    None => {},
                }
            },
            _ => {},
        }
    }
}

pub proof fn lemma_sending_qos(h: HubView, client: Seq<char>, e: BacklogView)
    ensures
        apart(h, h.sending_qos(client, e).0),
{
    broadcast use group_settled;

}

pub proof fn lemma_draining(h: HubView, client: Seq<char>, n: nat)
    ensures
        apart(h, h.draining(client, n)),
    decreases n,
{
    if n > 0 && h.is_online(client) {
        match lookup(h.sessions.inflight, client) {
            Some(inf) => {
                if !(inf.is_full() || inf.records_pending > 0 || inf.backlog.len() == 0) {
                    let rest = h.with_inf(
                        client,
                        InflightView { backlog: inf.backlog.skip(1), ..inf },
                    );
                    lemma_sending_qos(rest, client, inf.backlog[0]);
                    lemma_draining(
                        rest.sending_qos(client, inf.backlog[0]).0,
                        client,
                        (n - 1) as nat,
                    );
                }
            },
            None => {},
        }
    }
}

pub proof fn lemma_drained(h: HubView, client: Seq<char>)
    ensures
        apart(h, h.drained(client)),
{
    lemma_draining(h, client, h.inf(client).backlog.len());
}

pub proof fn lemma_to_client(h: HubView, client: Seq<char>, e: BacklogView)
    ensures
        apart(h, h.to_client(client, e)),
{
    broadcast use group_settled;

    let h1 = if e.offset is Some && e.message.qos != QoS::AtMostOnce {
        h.with_inf(client, h.inf(client).tracking(e.offset->Some_0))
    } else {
        h
    };
    lemma_sending_qos(h1, client, e);
    lemma_drained(h1.queueing(client, e), client);
}

pub proof fn lemma_delivering(
    h: HubView,
    client: Seq<char>,
    p: PublicationView,
    qos: QoS,
    retain: bool,
    gate: GateView,
)
    ensures
        keeps(h, h.delivering(client, p, qos, retain, gate).0),
{
    let m = p.message(qos, retain, h.now);
    let conn = h.conn_of(client);
    lemma_submitting(h, h.append_job(client, m, p.message_expiry, gate, conn));
    lemma_submitting(h, h.append_job(client, m, p.message_expiry, gate, None));
    let h1 = h.appending(client, m, p.message_expiry, gate, conn).0;
    lemma_sending_in_order(h, client, m, p.message_expiry);
    lemma_sending_in_order(h1, client, m, p.message_expiry);
}

pub proof fn lemma_sending_in_order(
    h: HubView,
    client: Seq<char>,
    m: MessageView,
    message_expiry: Option<u32>,
)
    ensures
        apart(h, h.sending_in_order(client, m, message_expiry)),
{
    broadcast use group_settled;

    lemma_to_client(
        h,
        client,
        BacklogView { message: m, retain: m.retain, message_expiry, offset: None },
    );
    lemma_submitting(
        h,
        JobView {
            client,
            message: m,
            work: WorkView::Passthrough,
            owed: ThenView::Ungated,
            planned_conn: h.conn_of(client),
            retain: m.retain,
            message_expiry,
        },
    );
}

pub proof fn lemma_delivering_all(h: HubView, p: PublicationView, targets: Targets, gate: GateView)
    ensures
        keeps(h, h.delivering_all(p, targets, gate).0),
    decreases targets.len(),
{
    if targets.len() > 0 {
        lemma_delivering_all(h, p, targets.drop_last(), gate);
        let t = targets.last();
        let h1 = h.delivering_all(p, targets.drop_last(), gate).0;
        lemma_delivering(h1, t.0, p, weaker(p.qos, t.1), t.2, gate);
    }
}

pub proof fn lemma_keeping(h: HubView, p: PublicationView, gate: GateView)
    ensures
        keeps(h, h.keeping(p, gate)),
{
    broadcast use group_settled;

    if h.ledger.sound() {
        match gate {
            GateView::Pending(id) => {
                match lookup(h.ledger.entries, id) {
                    Some(q) => {
                        lemma_with(h.ledger, id, q, PendingView { awaiting_store: true, ..q });
                    },
                    None => {},
                }
            },
            _ => {},
        }
    }
}

pub proof fn lemma_applying(
    h: HubView,
    p: PublicationView,
    publisher: Option<Seq<char>>,
    gate: GateView,
)
    ensures
        keeps(h, h.applying(p, publisher, gate).0),
{
    lemma_keeping(h, p, gate);
    lemma_delivering_all(h.keeping(p, gate), p, h.targets(p.topic, publisher, p.retain), gate);
}

// Publishes.

pub proof fn lemma_forwarding(h: HubView, id: u64, o: ObligationView)
    ensures
        keeps(h, h.forwarding(id, o)),
{
    broadcast use group_settled;

    if h.ledger.sound() {
        lemma_ledger_forwarded(h.ledger, id, o);
    }
}

pub proof fn lemma_forwarding_each(h: HubView, id: u64, nodes: Seq<Seq<char>>)
    ensures
        keeps(h, h.forwarding_each(id, nodes)),
    decreases nodes.len(),
{
    if nodes.len() > 0 {
        lemma_forwarding_each(h, id, nodes.drop_last());
        lemma_forwarding(
            h.forwarding_each(id, nodes.drop_last()),
            id,
            ObligationView { node: nodes.last(), kind: KindView::Ordinary },
        );
    }
}

pub proof fn lemma_placing(
    h: HubView,
    p: PublicationView,
    gate: Option<u64>,
    key: KeyView,
    node: Seq<char>,
    client: Seq<char>,
    qos: QoS,
    tried: Tried,
)
    ensures
        keeps(h, h.placing(p, gate, key, node, client, qos, tried)),
{
    broadcast use group_settled;

    if h.answered_by(gate, node, qos) {
        lemma_forwarding(
            h,
            gate->Some_0,
            ObligationView { node, kind: KindView::Shared { key, client, qos, tried } },
        );
    }
}

pub proof fn lemma_sharing(
    h: HubView,
    p: PublicationView,
    gate: Option<u64>,
    key: KeyView,
    candidates: Seq<CandidateView>,
)
    ensures
        keeps(h, h.sharing(p, gate, key, candidates).0),
{
    let h1 = h.turning(key, candidates.len());
    match h.pick(key, candidates) {
        Some(c) => {
            let qos = weaker(p.qos, c.qos);
            match c.node {
                None => {
                    lemma_delivering(h1, c.client, p, qos, false, gate_of(gate));
                },
                Some(node) => {
                    let tried = seq![(Some(node), c.client)];
                    lemma_placing(h1, p, gate, key, node, c.client, qos, tried);
                },
            }
        },
        None => {},
    }
}

pub proof fn lemma_sharing_all(h: HubView, p: PublicationView, gate: Option<u64>, m: Matches)
    ensures
        keeps(h, h.sharing_all(p, gate, m).0),
    decreases m.len(),
{
    if m.len() > 0 {
        lemma_sharing_all(h, p, gate, m.drop_last());
        lemma_sharing(h.sharing_all(p, gate, m.drop_last()).0, p, gate, m.last().0, m.last().1);
    }
}

pub proof fn lemma_fanning_out(h: HubView, p: PublicationView, gate: Option<u64>)
    ensures
        keeps(h, h.fanning_out(p, gate)),
{
    broadcast use group_settled;

    if gate is Some {
        lemma_forwarding_each(h, gate->Some_0, h.cluster.interest.wanting(p.topic));
    }
}

pub proof fn lemma_enqueueing(h: HubView, m: MutationView)
    ensures
        keeps(h, h.enqueueing(m)),
{
    broadcast use group_settled;

    let h1 = HubView { retained: h.retained.enqueued(m), ..h };
    match h.retained.given_up() {
        Some(oldest) => {
            let h2 = h1.doing(EffectView::RetainedGivenUp { topic: oldest.topic });
            if oldest.publish is Some {
                lemma_dropping(h2, oldest.publish->Some_0);
            }
        },
        None => {},
    }
}

pub proof fn lemma_committing(h: HubView, p: PublicationView, gate: Option<u64>)
    ensures
        keeps(h, h.committing(p, gate)),
{
    broadcast use group_settled;

    let h1 = match gate {
        Some(id) => match lookup(h.ledger.entries, id) {
            Some(e) => h.with_ledger(
                h.ledger.with(id, PendingView { awaiting_retained: true, ..e }),
            ),
            None => h,
        },
        None => h,
    };
    if h.ledger.sound() && gate is Some {
        let id = gate->Some_0;
        match lookup(h.ledger.entries, id) {
            Some(e) => {
                lemma_with(h.ledger, id, e, PendingView { awaiting_retained: true, ..e });
            },
            None => {},
        }
    }
    assert(keeps(h, h1));
    lemma_enqueueing(
        h1,
        MutationView {
            topic: p.topic,
            payload: p.payload,
            qos: level(p.qos),
            app: p.app,
            reply: None,
            publish: gate,
        },
    );
}

pub proof fn lemma_reached(h: HubView, id: u64)
    ensures
        keeps(h, h.reached(id)),
{
    if h.ledger.sound() {
        match lookup(h.ledger.entries, id) {
            Some(p) => {
                lemma_with(h.ledger, id, p, PendingView { ack_awaits_settle: false, ..p });
            },
            None => {},
        }
    }
}

pub proof fn lemma_publishing(
    h: HubView,
    p: PublicationView,
    publisher: Option<Seq<char>>,
    gate: Option<u64>,
)
    ensures
        keeps(h, h.publishing(p, publisher, gate).0),
{
    lemma_applying(h, p, publisher, gate_of(gate));
    lemma_rest_of_publishing(h, p, publisher, gate);
}

pub proof fn lemma_rest_of_publishing(
    h: HubView,
    p: PublicationView,
    publisher: Option<Seq<char>>,
    gate: Option<u64>,
)
    ensures
        !(gate is Some && h.shared_plan_owes(p.topic, p.qos) && h.brownout) ==> keeps(
            h.applying(p, publisher, gate_of(gate)).0,
            h.publishing(p, publisher, gate).0,
        ),
{
    let h1 = h.applying(p, publisher, gate_of(gate)).0;
    lemma_sharing_all(h1, p, gate, h1.shared_matches(p.topic));
    let h2 = h1.sharing_all(p, gate, h1.shared_matches(p.topic)).0;
    lemma_fanning_out(h2, p, gate);
    let h3 = h2.fanning_out(p, gate);
    lemma_committing(h3, p, gate);
    let h4 = if p.retain {
        h3.committing(p, gate)
    } else {
        h3
    };
    if gate is Some {
        lemma_reached(h4, gate->Some_0);
    }
}

pub proof fn lemma_redelivering(h: HubView, id: u64)
    ensures
        keeps(h, h.redelivering(id).0),
{
    match lookup(h.ledger.entries, id) {
        Some(p) => {
            let topic = p.publication.topic;
            lemma_delivering_all(
                h,
                p.publication,
                h.late_targets(matching(h.routing.table, topic), topic, p.created_at),
                GateView::Pending(id),
            );
        },
        None => {},
    }
}

pub proof fn lemma_window_closed(h: HubView, id: u64)
    ensures
        keeps(h, h.window_closed(id)),
{
    if h.ledger.sound() {
        match lookup(h.ledger.entries, id) {
            Some(p) => {
                lemma_with(
                    h.ledger,
                    id,
                    p,
                    PendingView { awaiting_settle: false, ack_awaits_settle: false, ..p },
                );
            },
            None => {},
        }
    }
}

pub proof fn lemma_settling_one(h: HubView, id: u64, over: bool)
    ensures
        keeps(h, h.settling_one(id, over)),
{
    lemma_redelivering(h, id);
    let (h1, out) = h.redelivering(id);
    match out {
        DurableOutcome::Failed => {
            lemma_dropping(h1, id);
        },
        DurableOutcome::Refused(r) => {
            lemma_refusing(h1, id, r);
        },
        DurableOutcome::Met => {
            lemma_forwarding_each(h1, id, h1.reroutes(id));
            let h2 = h1.forwarding_each(id, h1.reroutes(id));
            lemma_window_closed(h2, id);
            lemma_completing(
                if over {
                    h2.window_closed(id)
                } else {
                    h2
                },
                id,
            );
        },
    }
}

pub proof fn lemma_settling_each(h: HubView, ids: Seq<u64>, over: bool)
    ensures
        keeps(h, h.settling_each(ids, over)),
    decreases ids.len(),
{
    if ids.len() > 0 {
        lemma_settling_each(h, ids.drop_last(), over);
        lemma_settling_one(h.settling_each(ids.drop_last(), over), ids.last(), over);
    }
}

pub proof fn lemma_with_grace(h: HubView, id: u64, grace: Option<u8>)
    ensures
        keeps(h, h.with_grace(id, grace)),
{
    if h.ledger.sound() {
        match lookup(h.ledger.entries, id) {
            Some(p) => {
                lemma_with(h.ledger, id, p, PendingView { reroute_grace: grace, ..p });
            },
            None => {},
        }
    }
}

pub proof fn lemma_sweeping_one(h: HubView, id: u64)
    ensures
        keeps(h, h.sweeping_one(id)),
{
    broadcast use group_settled;

    match lookup(h.ledger.entries, id) {
        None => {},
        Some(p) => {
            let h1 = h.doing_all(reminders(h.cluster, p, p.awaiting));
            match p.reroute_grace {
                None => {},
                Some(grace) => {
                    lemma_with_grace(h1, id, None);
                    lemma_forwarding_each(h1.with_grace(id, None), id, h1.reroutes(id));
                    lemma_completing(h1, id);
                    let less = Some((grace - 1) as u8);
                    lemma_with_grace(h1, id, less);
                    lemma_completing(h1.with_grace(id, less), id);
                    lemma_redelivering(h1, id);
                    let (h2, out) = h1.redelivering(id);
                    lemma_dropping(h2, id);
                    lemma_with_grace(h2, id, None);
                    lemma_completing(h2.with_grace(id, None), id);
                    match out {
                        DurableOutcome::Refused(r) => {
                            lemma_refusing(h2, id, r);
                        },
                        _ => {},
                    }
                },
            }
        },
    }
}

pub proof fn lemma_sweeping_each(h: HubView, ids: Seq<u64>)
    ensures
        keeps(h, h.sweeping_each(ids)),
    decreases ids.len(),
{
    if ids.len() > 0 {
        lemma_sweeping_each(h, ids.drop_last());
        lemma_sweeping_one(h.sweeping_each(ids.drop_last()), ids.last());
    }
}

pub proof fn lemma_trying(
    h: HubView,
    id: u64,
    p: PublicationView,
    key: KeyView,
    left: Seq<CandidateView>,
    tried: Tried,
    last: DurableOutcome,
)
    ensures
        keeps(h, h.trying(id, p, key, left, tried, last).0),
{
    let h1 = h.turning(key, left.len());
    match h.pick(key, left) {
        None => {
            lemma_dropping(h1, id);
            match last {
                DurableOutcome::Refused(r) => {
                    lemma_refusing(h1, id, r);
                },
                _ => {},
            }
        },
        Some(c) => {
            let qos = weaker(p.qos, c.qos);
            match c.node {
                Some(node) => {
                    let more = tried.push((c.node, c.client));
                    lemma_placing(h1, p, Some(id), key, node, c.client, qos, more);
                    lemma_completing(
                        h1.placing(p, Some(id), key, node, c.client, qos, more),
                        id,
                    );
                },
                None => {
                    let gate = GateView::Pending(id);
                    lemma_delivering(h1, c.client, p, qos, false, gate);
                    let h2 = h1.delivering(c.client, p, qos, false, gate).0;
                    lemma_completing(h2, id);
                    lemma_dropping(h2, id);
                },
            }
        },
    }
}

pub proof fn lemma_reselecting_from(
    h: HubView,
    id: u64,
    p: PublicationView,
    key: KeyView,
    all: Seq<CandidateView>,
    tried: Tried,
    last: DurableOutcome,
    fuel: nat,
)
    ensures
        keeps(h, h.reselecting_from(id, p, key, all, tried, last, fuel)),
    decreases fuel,
{
    let left = untried(all, tried);
    lemma_trying(h, id, p, key, left, tried, last);
    let (h1, again) = h.trying(id, p, key, left, tried, last);
    match again {
        Some(r) => {
            if fuel > 0 {
                lemma_reselecting_from(
                    h1,
                    id,
                    p,
                    key,
                    all,
                    h.tried_next(key, left, tried),
                    DurableOutcome::Refused(r),
                    (fuel - 1) as nat,
                );
            }
        },
        None => {},
    }
}

pub proof fn lemma_reselecting(
    h: HubView,
    id: u64,
    key: KeyView,
    tried: Tried,
    last: DurableOutcome,
)
    ensures
        keeps(h, h.reselecting(id, key, tried, last)),
{
    match lookup(h.ledger.entries, id) {
        Some(p) => {
            let all = candidates_of(h.shared_matches(p.publication.topic), key);
            lemma_reselecting_from(
                h,
                id,
                p.publication,
                key,
                all,
                tried,
                last,
                untried(all, tried).len(),
            );
        },
        None => {},
    }
}

pub proof fn lemma_answered(h: HubView, node: Seq<char>, seq: u64, verdict: ForwardVerdict)
    ensures
        keeps(h, h.answered(node, seq, verdict)),
{
    let h1 = h.with_ledger(h.ledger.settled(node, seq));
    if h.ledger.sound() {
        lemma_ledger_settled(h.ledger, node, seq);
    }
    match h.ledger.settles(node, seq) {
        None => {},
        Some((id, o)) => {
            match DurableOutcome::of_verdict(verdict) {
                DurableOutcome::Met => {
                    if h1.ledger.sound() {
                        lemma_ledger_stored_on(h1.ledger, id, node);
                    }
                    lemma_completing(h1.with_ledger(h1.ledger.stored_on(id, node)), id);
                },
                DurableOutcome::Failed => {
                    lemma_dropping(h1, id);
                },
                DurableOutcome::Refused(r) => {
                    match o.kind {
                        KindView::Ordinary => {
                            lemma_refusing(h1, id, r);
                        },
                        KindView::Shared { key, tried, .. } => {
                            lemma_reselecting(h1, id, key, tried, DurableOutcome::Refused(r));
                        },
                    }
                },
            }
        },
    }
}

pub proof fn lemma_relaxing(h: HubView, id: u64)
    ensures
        keeps(h, h.relaxing(id)),
{
    if h.ledger.sound() {
        match lookup(h.ledger.entries, id) {
            Some(p) => {
                lemma_with(h.ledger, id, p, PendingView { relaxed: true, ..p });
            },
            None => {},
        }
    }
}

/// Whether `b` is sound where `a` is, accounts for the publisher named `token` once more, and
/// refuses growth as `a` does.
pub open spec fn takes_on(a: HubView, b: HubView, token: u64) -> bool {
    &&& a.ledger.sound() ==> b.ledger.sound()
    &&& a.ledger.sound() ==> forall|t: u64|
        #![trigger b.accounts_for(t)]
        #![trigger settled_by(b.effects, t)]
        within(
            b.accounts_for(t),
            plus(a.accounts_for(t), (one_if(t == token), one_if(t == token))),
        )
    &&& b.brownout == a.brownout
    &&& b.axes == a.axes
}

pub proof fn lemma_takes_on(a: HubView, b: HubView, c: HubView, token: u64)
    requires
        takes_on(a, b, token),
        keeps(b, c),
    ensures
        takes_on(a, c, token),
{
    if a.ledger.sound() {
        let more = |t: u64| (one_if(t == token), one_if(t == token));
        assert forall|t: u64| within(
            #[trigger] c.accounts_for(t),
            plus(a.accounts_for(t), more(t)),
        ) by {
            assert(within(b.accounts_for(t), plus(a.accounts_for(t), more(t))));
        }
    }
}

pub proof fn lemma_registering(h: HubView, token: u64, p: PublicationView)
    requires
        h.ledger.publish_ids < u64::MAX,
    ensures
        takes_on(
            h,
            h.with_ledger(
                h.ledger.registered(token, p, h.cluster.unsettled(), h.instant),
            ).doing_all(h.ledger.register_effects(token, h.instant)),
            token,
        ),
{
    broadcast use group_settled;

    if h.ledger.sound() {
        lemma_ledger_registered(h.ledger, token, p, h.cluster.unsettled(), h.instant);
    }
}

pub proof fn lemma_publishing_for(
    h: HubView,
    p: PublicationView,
    publisher: Option<Seq<char>>,
    token: u64,
    relaxed: bool,
)
    requires
        h.ledger.publish_ids < u64::MAX,
    ensures
        takes_on(h, h.publishing_for(p, publisher, token, relaxed), token),
{
    let h1 = h.with_ledger(
        h.ledger.registered(token, p, h.cluster.unsettled(), h.instant),
    ).doing_all(h.ledger.register_effects(token, h.instant));
    lemma_registering(h, token, p);
    match h.ledger.registered_id(h.instant) {
        None => {},
        Some(id) => {
            lemma_relaxing(h1, id);
            let h2 = if relaxed {
                h1.relaxing(id)
            } else {
                h1
            };
            lemma_takes_on(h, h1, h2, token);
            lemma_publishing(h2, p, publisher, Some(id));
            let (h3, out) = h2.publishing(p, publisher, Some(id));
            lemma_takes_on(h, h2, h3, token);
            lemma_concluding(h3, id, out);
            lemma_takes_on(h, h3, h3.concluding(id, out), token);
        },
    }
}

pub proof fn lemma_concluding(h: HubView, id: u64, out: DurableOutcome)
    ensures
        keeps(h, h.concluding(id, out)),
{
    match out {
        DurableOutcome::Met => {
            let h1 = match lookup(h.ledger.entries, id) {
                Some(p) => h.with_ledger(
                    h.ledger.with(id, PendingView { local_done: true, ..p }),
                ),
                None => h,
            };
            if h.ledger.sound() {
                match lookup(h.ledger.entries, id) {
                    Some(p) => {
                        lemma_with(h.ledger, id, p, PendingView { local_done: true, ..p });
                    },
                    None => {},
                }
            }
            lemma_completing(h1, id);
        },
        DurableOutcome::Failed => {
            lemma_dropping(h, id);
        },
        DurableOutcome::Refused(r) => {
            lemma_refusing(h, id, r);
        },
    }
}

pub proof fn lemma_accepting(
    h: HubView,
    p: PublicationView,
    publisher: Option<Seq<char>>,
    done: Option<u64>,
    v5: bool,
    relaxed: bool,
)
    requires
        h.ledger.publish_ids < u64::MAX,
    ensures
        match done {
            Some(token) => takes_on(h, h.accepting(p, publisher, done, v5, relaxed), token),
            None => keeps(h, h.accepting(p, publisher, done, v5, relaxed)),
        },
{
    broadcast use group_settled;

    let over = h.over_retained_quota(p);
    let q = PublicationView { retain: p.retain && !over, ..p };
    lemma_publishing(h, q, publisher, None);
    match done {
        Some(token) => {
            lemma_publishing_for(h, q, publisher, token, relaxed);
        },
        None => {},
    }
}

// What comes back from the store.

pub proof fn lemma_repaying(h: HubView, owed: ThenView, outcome: LaneOutcome)
    ensures
        keeps(h, h.repaying(owed, outcome)),
{
    broadcast use group_settled;

    match owed {
        ThenView::Gate(id) => {
            let h1 = match lookup(h.ledger.entries, id) {
                Some(p) => h.with_ledger(
                    h.ledger.with(
                        id,
                        PendingView {
                            appends_outstanding: one_less(p.appends_outstanding),
                            stored: p.stored || outcome is Stored,
                            ..p
                        },
                    ),
                ),
                None => h,
            };
            if h.ledger.sound() {
                match lookup(h.ledger.entries, id) {
                    Some(p) => {
                        lemma_with(
                            h.ledger,
                            id,
                            p,
                            PendingView {
                                appends_outstanding: one_less(p.appends_outstanding),
                                stored: p.stored || outcome is Stored,
                                ..p
                            },
                        );
                    },
                    None => {},
                }
            }
            lemma_dropping(h1, id);
            lemma_completing(h1, id);
        },
        _ => {},
    }
}

pub proof fn lemma_recorded(h: HubView, job: JobView, pkid: u16, offset: u64, outcome: LaneOutcome)
    ensures
        apart(h, h.recorded(job, pkid, offset, outcome)),
{
    broadcast use group_settled;

    let h1 = h.record_over(job.client);
    lemma_drained(h1.unstaged(job.client, pkid), job.client);
    lemma_drained(
        h1.with_state(job.client, pkid, OutState::AwaitingPubRec).sending(
            job.client,
            publish_of(job.message, Some(pkid), false, job.retain, job.message_expiry),
            room(job.message),
        ),
        job.client,
    );
}

pub proof fn lemma_appended(h: HubView, job: JobView, outcome: LaneOutcome)
    ensures
        keeps(h, h.appended(job, outcome)),
{
    broadcast use group_settled;

    let h1 = h.job_finished(job.client);
    match job.work {
        WorkView::RecordOutbound { pkid, offset } => {
            lemma_recorded(h1, job, pkid, offset, outcome);
        },
        _ => {
            let h2 = if outcome is Stored {
                h1.counting_write()
            } else {
                h1
            };
            let entry = job.entry(
                match outcome {
                    LaneOutcome::Stored(o) => Some(o),
                    _ => None,
                },
            );
            lemma_to_client(h2, job.client, entry);
            let h3 = if !h2.sends_finished(job, outcome) {
                h2
            } else if h2.parks(job) {
                h2.queueing(job.client, job.entry(None))
            } else {
                h2.to_client(job.client, entry)
            };
            assert(apart(h, h3));
            lemma_repaying(h3, job.owed, outcome);
        },
    }
}

pub proof fn lemma_reserved(h: HubView, client: Seq<char>, result: Result<u16, StorageError>)
    ensures
        apart(h, h.reserved(client, result)),
{
    lemma_drained(
        h.with_inf(
            client,
            InflightView {
                reserve_outstanding: false,
                banked_base: Some(
                    match result {
                        Ok(base) => base,
                        Err(_) => 0,
                    },
                ),
                ..h.inf(client)
            },
        ),
        client,
    );
}

// Exchanges.

pub proof fn lemma_puback(h: HubView, client: Seq<char>, pkid: u16)
    ensures
        apart(h, h.puback(client, pkid)),
{
    broadcast use group_settled;

    match h.held_by(client, pkid) {
        Some(p) => {
            let h1 = h.with_inf(client, h.inf(client).acked(pkid, p)).truncating(client);
            lemma_drained(h1, client);
            lemma_drained(h1.retiring(client), client);
        },
        None => {},
    }
}

pub proof fn lemma_pubcomp(h: HubView, client: Seq<char>, pkid: u16)
    ensures
        apart(h, h.pubcomp(client, pkid)),
{
    broadcast use group_settled;

    assert(apart(h, h.marking(client, pkid)));
}

pub proof fn lemma_retiring_each(h: HubView, clients: Seq<Seq<char>>)
    ensures
        apart(h, h.retiring_each(clients)),
    decreases clients.len(),
{
    broadcast use group_settled;

    if clients.len() > 0 {
        lemma_retiring_each(h, clients.drop_last());
        let c = clients.last();
        lemma_drained(h.retiring_each(clients.drop_last()).retiring(c), c);
    }
}

pub proof fn lemma_advanced(h: HubView, client: Seq<char>, pkid: u16, epoch: u64, ok: bool)
    ensures
        apart(h, h.advanced(client, pkid, epoch, ok)),
{
    broadcast use group_settled;

    let key = (client, pkid);
    let h1 = h.with_qos2(
        Qos2View {
            advance_inflight: without(h.qos2.advance_inflight, key),
            held_pubcomp: without(h.qos2.held_pubcomp, key),
            ..h.qos2
        },
    );
    lemma_pubcomp(h1.releasing(client, pkid), client, pkid);
}

pub proof fn lemma_applying_retire(h: HubView, r: RetireResultView)
    ensures
        apart(h, h.applying_retire(r)),
{
    broadcast use group_settled;

    let h1 = h.with_qos2(
        Qos2View { retire_inflight: without(h.qos2.retire_inflight, r.client), ..h.qos2 },
    );
    let h2 = match lookup(h1.sessions.inflight, r.client) {
        Some(inf) => h1.with_inf(r.client, inf.retired(r)),
        None => h1,
    };
    lemma_drained(h2.cleaning(r.client, false), r.client);
    lemma_drained(h2.cleaning(r.client, true).retiring(r.client), r.client);
}

// Retained messages.

pub proof fn lemma_retained_done_for(h: HubView, publish: Option<u64>)
    ensures
        keeps(h, h.retained_done_for(publish)),
{
    match publish {
        Some(id) => {
            let h1 = match lookup(h.ledger.entries, id) {
                Some(p) => h.with_ledger(
                    h.ledger.with(id, PendingView { awaiting_retained: false, ..p }),
                ),
                None => h,
            };
            if h.ledger.sound() {
                match lookup(h.ledger.entries, id) {
                    Some(p) => {
                        lemma_with(h.ledger, id, p, PendingView { awaiting_retained: false, ..p });
                    },
                    None => {},
                }
            }
            lemma_completing(h1, id);
        },
        None => {},
    }
}

pub proof fn lemma_taking_over(h: HubView, node: Seq<char>, seq: u64, m: MutationView)
    ensures
        keeps(h, h.taking_over(node, seq, m)),
{
    broadcast use group_settled;

    lemma_enqueueing(
        h.with_retained(
            RetainedStateView {
                handoff_pending: put(h.retained.handoff_pending, node, seq),
                ..h.retained
            },
        ),
        m,
    );
}

pub proof fn lemma_handoff_answered(h: HubView, node: Seq<char>, seq: u64, token: Option<(u64, u64)>)
    ensures
        keeps(h, h.handoff_answered(node, seq, token)),
{
    broadcast use group_settled;

    match h.retained.handoff {
        Some((_, _, m)) => {
            lemma_retained_done_for(
                h.with_retained(RetainedStateView { handoff: None, ..h.retained }),
                m.publish,
            );
        },
        None => {},
    }
}

pub proof fn lemma_committed(h: HubView, m: MutationView, token: Option<(u64, u64)>)
    ensures
        keeps(h, h.committed(m, token)),
{
    broadcast use group_settled;

    lemma_retained_done_for(
        h.with_retained(RetainedStateView { commit_inflight: false, ..h.retained }),
        m.publish,
    );
}

// Sessions.

pub proof fn lemma_replacing(h: HubView, client: Seq<char>)
    ensures
        keeps(h, h.replacing(client)),
{
    broadcast use group_settled;

    match lookup(h.sessions.online, client) {
        Some(old) => {
            let h1 = h.with_online(cut(h.sessions.online, client)).doing(
                EffectView::Close { conn: old.conn_id },
            );
            match old.will {
                Some(w) => {
                    lemma_publishing(h1, PublicationView { message_expiry: None, ..w }, None, None);
                },
                None => {},
            }
        },
        None => {},
    }
}

pub proof fn lemma_resending(h: HubView, client: Seq<char>, pending: Seq<(u16, PendingOutView)>)
    ensures
        apart(h, h.resending(client, pending)),
    decreases pending.len(),
{
    broadcast use group_settled;

    if pending.len() > 0 {
        lemma_resending(h, client, pending.drop_last());
    }
}

pub proof fn lemma_replaying_each(
    h: HubView,
    client: Seq<char>,
    revoked: Seq<Seq<char>>,
    queue: Seq<QueuedView>,
)
    ensures
        apart(h, h.replaying_each(client, revoked, queue)),
    decreases queue.len(),
{
    if queue.len() > 0 {
        lemma_replaying_each(h, client, revoked, queue.drop_last());
        let h1 = h.replaying_each(client, revoked, queue.drop_last());
        let q = queue.last();
        lemma_to_client(
            h1,
            client,
            BacklogView {
                message: q.message,
                retain: false,
                message_expiry: match q.expiry_at {
                    Some(d) => Some(remaining(h1.now, d)),
                    None => None,
                },
                offset: Some(q.offset),
            },
        );
    }
}

pub proof fn lemma_then(a: HubView, b: HubView, c: HubView)
    requires
        keeps(a, b),
        keeps(b, c),
    ensures
        keeps(a, c),
{
    if a.ledger.sound() {
        assert forall|t: u64| within(#[trigger] c.accounts_for(t), a.accounts_for(t)) by {
            assert(within(b.accounts_for(t), a.accounts_for(t)));
        }
    }
}

pub proof fn lemma_apart(a: HubView, b: HubView)
    requires
        apart(a, b),
    ensures
        keeps(a, b),
{
}

pub proof fn lemma_resubscribing(
    h: HubView,
    client: Seq<char>,
    subs: Grants,
    denied: Seq<Seq<char>>,
    secs: u32,
    receive_maximum: u16,
)
    ensures
        ({
            let h1 = h.resubscribing(client, subs, denied, secs > 0).keeping_session(client, secs);
            apart(
                h,
                h1.with_inf(client, InflightView { receive_maximum, ..h1.inf(client) }),
            )
        }),
{
    broadcast use group_settled;

    let h1 = h.resubscribing(client, subs, denied, secs > 0);
    assert(apart(h, h1));
    assert(apart(h1, h1.keeping_session(client, secs)));
}

pub proof fn lemma_connected(h: HubView, p: AttachView, present: bool)
    ensures
        apart(h, h.connecting_as(p, present)),
{
    broadcast use group_settled;

}

pub proof fn lemma_replaying_queue(
    h: HubView,
    client: Seq<char>,
    revoked: Seq<Seq<char>>,
    queue: Seq<QueuedView>,
)
    ensures
        apart(h, h.replaying_queue(client, revoked, queue)),
{
    broadcast use group_settled;

    lemma_replaying_each(h, client, revoked, queue);
}

pub proof fn lemma_reaping(h: HubView, p: AttachView)
    ensures
        apart(h, h.doing(EffectView::Reap { client: p.client, token: p.reply })),
{
    broadcast use group_settled;

}

#[verifier::spinoff_prover]
pub proof fn lemma_finishing(
    h: HubView,
    p: AttachView,
    present: bool,
    subs: Grants,
    queue: Option<Seq<QueuedView>>,
    denied: Seq<Seq<char>>,
)
    ensures
        keeps(h, h.finishing(p, present, subs, queue, denied)),
{
    lemma_reaping(h, p);
    let h1 = h.resubscribing(
        p.client,
        subs,
        denied,
        p.session_expiry > 0,
    ).keeping_session(p.client, p.session_expiry);
    let ready = h1.with_inf(
        p.client,
        InflightView { receive_maximum: p.receive_maximum, ..h1.inf(p.client) },
    );
    lemma_resubscribing(h, p.client, subs, denied, p.session_expiry, p.receive_maximum);
    lemma_apart(h, ready);
    let there = ready.replacing(p.client);
    lemma_replacing(ready, p.client);
    lemma_then(h, ready, there);
    let h2 = there.connecting_as(p, present);
    lemma_connected(there, p, present);
    lemma_apart(there, h2);
    lemma_then(h, there, h2);
    let h3 = h2.resending(p.client, h2.inf(p.client).pending);
    assert(h3 == h.letting_in(p, present, subs, denied));
    lemma_resending(h2, p.client, h2.inf(p.client).pending);
    lemma_apart(h2, h3);
    lemma_then(h, h2, h3);
    match queue {
        Some(q) => {
            let h4 = h3.replaying_queue(p.client, revoked(subs, denied), first_of(q));
            lemma_replaying_queue(h3, p.client, revoked(subs, denied), first_of(q));
            lemma_apart(h3, h4);
            lemma_then(h, h3, h4);
        },
        None => {},
    }
}

pub proof fn lemma_recovering(
    h: HubView,
    p: AttachView,
    recovery: RecoveryView,
    queue: Option<Seq<QueuedView>>,
    denied: Seq<Seq<char>>,
)
    ensures
        keeps(h, h.recovering(p, recovery, queue, denied)),
{
    broadcast use group_settled;

    let h1 = h.with_sessions(
        SessionsView { connecting: cut(h.sessions.connecting, p.client), ..h.sessions },
    );
    match recovery {
        RecoveryView::Ready { present, subscriptions } => {
            lemma_finishing(h1, p, present, subscriptions, queue, denied);
        },
        RecoveryView::Cleaned => {
            lemma_finishing(h1, p, false, Seq::empty(), None, denied);
        },
        _ => {},
    }
}

pub proof fn lemma_discarding(h: HubView, client: Seq<char>)
    ensures
        apart(h, h.discarding(client)),
{
    broadcast use group_settled;

}

pub proof fn lemma_parting(h: HubView, client: Seq<char>)
    ensures
        apart(h, h.parting(client)),
{
    broadcast use group_settled;

    lemma_discarding(h, client);
}

pub proof fn lemma_detaching(h: HubView, client: Seq<char>, conn_id: u64, graceful: bool)
    ensures
        keeps(h, h.detaching(client, conn_id, graceful)),
{
    broadcast use group_settled;

    match lookup(h.sessions.online, client) {
        Some(o) => {
            let h1 = h.with_online(cut(h.sessions.online, client)).doing(
                EffectView::Close { conn: conn_id },
            );
            lemma_parting(h1, client);
            match o.will {
                Some(w) => {
                    lemma_publishing(h1, PublicationView { message_expiry: None, ..w }, None, None);
                    lemma_parting(h1.willing(w), client);
                },
                None => {},
            }
        },
        None => {},
    }
}

pub proof fn lemma_evicting(h: HubView, client: Seq<char>)
    ensures
        keeps(h, h.evicting(client)),
{
    broadcast use group_settled;

    match lookup(h.sessions.online, client) {
        Some(o) => {
            lemma_detaching(h, client, o.conn_id, false);
            lemma_detaching(
                h.sending(client, PacketView::Disconnect { reason: NOT_AUTHORIZED }, 0),
                client,
                o.conn_id,
                false,
            );
        },
        None => {},
    }
}

pub proof fn lemma_replaying(h: HubView, client: Seq<char>, messages: Seq<MessageView>)
    ensures
        apart(h, h.replaying(client, messages)),
    decreases messages.len(),
{
    if messages.len() > 0 {
        lemma_replaying(h, client, messages.drop_last());
        lemma_to_client(
            h.replaying(client, messages.drop_last()),
            client,
            BacklogView {
                message: messages.last(),
                retain: true,
                message_expiry: None,
                offset: None,
            },
        );
    }
}

pub proof fn lemma_subscribing(
    h: HubView,
    client: Seq<char>,
    wishes: Seq<WishView>,
    token: Option<u64>,
    stored: bool,
)
    ensures
        apart(h, h.subscribing(client, wishes, token, stored)),
{
    broadcast use group_settled;

    let held = h.routing.grants(client);
    let cap = h.quotas.max_subscriptions_per_client;
    let h1 = h.with_routing(h.routing.granting(client, held, wishes, cap)).granted_to(
        token,
        verdicts(held, wishes, cap),
    ).gossiping();
    lemma_replaying(h1, client, replay(h.retained.cache, held, wishes, cap));
}

// Sweeps.

pub proof fn lemma_discarding_each(h: HubView, clients: Seq<Seq<char>>)
    ensures
        apart(h, h.discarding_each(clients)),
    decreases clients.len(),
{
    if clients.len() > 0 {
        lemma_discarding_each(h, clients.drop_last());
        lemma_discarding(h.discarding_each(clients.drop_last()), clients.last());
    }
}

pub proof fn lemma_sweeping_sessions(h: HubView)
    ensures
        apart(h, h.sweeping_sessions()),
{
    broadcast use group_settled;

    let h1 = h.reconciling();
    lemma_discarding_each(h1, expired(h1.sessions.expiring, h1.now));
}

pub proof fn lemma_inheriting_each(h: HubView, sessions: Seq<StoredView>)
    ensures
        apart(h, h.inheriting_each(sessions).0),
    decreases sessions.len(),
{
    broadcast use group_settled;

    if sessions.len() > 0 {
        lemma_inheriting_each(h, sessions.drop_last());
    }
}

pub proof fn lemma_inheriting(h: HubView, sessions: Seq<StoredView>)
    ensures
        keeps(h, h.inheriting(sessions)),
{
    broadcast use group_settled;

    let start = h.with_cluster(ClusterView { scan_inflight: false, ..h.cluster });
    lemma_inheriting_each(start, sessions);
    let (h1, any) = start.inheriting_each(sessions);
    let h2 = if any {
        h1.gossiping()
    } else {
        h1
    };
    lemma_settling_each(h2, unsettled_ids(h2.ledger.entries), !h2.cluster.unsettled());
}

pub proof fn lemma_evicting_each(h: HubView, victims: Seq<(Seq<char>, Eviction)>)
    ensures
        keeps(h, h.evicting_each(victims)),
    decreases victims.len(),
{
    if victims.len() > 0 {
        lemma_evicting_each(h, victims.drop_last());
        lemma_evicting(h.evicting_each(victims.drop_last()), victims.last().0);
    }
}

pub proof fn lemma_unsubscribing_each(h: HubView, losers: Seq<(Seq<char>, Seq<Seq<char>>)>)
    ensures
        apart(h, h.unsubscribing_each(losers)),
    decreases losers.len(),
{
    broadcast use group_settled;

    if losers.len() > 0 {
        lemma_unsubscribing_each(h, losers.drop_last());
    }
}

pub proof fn lemma_unlinking_each(h: HubView, nodes: Seq<Seq<char>>)
    ensures
        apart(h, h.unlinking_each(nodes)),
    decreases nodes.len(),
{
    broadcast use group_settled;

    if nodes.len() > 0 {
        lemma_unlinking_each(h, nodes.drop_last());
    }
}

pub proof fn lemma_sweeping_policy(h: HubView, f: SweepPolicyView)
    ensures
        keeps(h, h.sweeping_policy(f)),
{
    lemma_evicting_each(h, f.victims(h.sessions.online));
    let h1 = h.evicting_each(f.victims(h.sessions.online));
    let losers = f.losers(h1.sessions.online, h1.routing.subs_by_client);
    lemma_unsubscribing_each(h1, losers);
    let h2 = h1.unsubscribing_each(losers);
    lemma_unlinking_each(h2, f.lost_peers(h2.cluster.peers));
}

pub proof fn lemma_ticking(h: HubView)
    ensures
        keeps(h, h.ticking()),
{
    broadcast use group_settled;

    lemma_sweeping_sessions(h.remeshed());
    let h1 = h.remeshed().sweeping_sessions().retrying().kicking();
    assert(apart(h, h1));
    lemma_sweeping_each(h1, keys(h1.ledger.entries));
    let h2 = h1.sweeping();
    lemma_retiring_each(h2, h2.qos2.cleanup);
}

pub proof fn lemma_losing(h: HubView, node: Seq<char>)
    ensures
        keeps(h, h.losing(node)),
{
    broadcast use group_settled;

    if h.ledger.sound() {
        lemma_ledger_bereft(h.ledger, node);
    }
}

pub proof fn lemma_applying_remote(h: HubView, node: Seq<char>, seq: u64, p: PublicationView)
    ensures
        keeps(h, h.applying_remote(node, seq, p)),
{
    broadcast use group_settled;

    lemma_applying(h, p, None, GateView::Peer { node, seq });
}

pub proof fn lemma_linking(h: HubView, node: Seq<char>, peer: PeerView, ids: Seq<(u64, u64)>)
    ensures
        apart(h, h.linking(node, peer).offering(node, ids).kicking()),
{
    broadcast use group_settled;

    assert(apart(h, h.linking(node, peer)));
}

pub proof fn lemma_remote_delivery(
    h: HubView,
    node: Seq<char>,
    seq: u64,
    client: Seq<char>,
    p: PublicationView,
)
    ensures
        ({
            let gate = GateView::Peer { node, seq };
            let (h1, out) = h.delivering(client, p, p.qos, false, gate);
            keeps(h, h1.settling_remote(node, seq, out))
        }),
{
    broadcast use group_settled;

    lemma_delivering(h, client, p, p.qos, false, GateView::Peer { node, seq });
}

} // verus!
