//! What publishers are told and when, what the answers of other nodes do to a publish, whose turn
//! it is in a group, and how names of topics and groups are taken apart.

use vstd::prelude::*;

use crate::assoc::{bound, lookup};
use crate::dispatch::HubCommand;
use crate::effects::EffectView;
use crate::hearing::subscribes;
use crate::hub::HubView;
use crate::ids::{next_number, ClientId, NodeId};
use crate::ledger::{ObligationView, PendingView, PENDING_PUBLISH_CAP};
use crate::message::Publication;
use crate::outcome::{DurableOutcome, ForwardVerdict, PublishOutcome, PublishRefusal};
use crate::shared::{picked, turn, CandidateView, Cursors, KeyView};
use crate::topic::{levels, share_mark, share_parts, slash};

verus! {

/// Whether nothing of a publish is outstanding that its publisher waits for.
pub open spec fn nothing_outstanding(p: PendingView) -> bool {
    &&& !p.awaiting_retained
    &&& !p.awaiting_store
    &&& p.appends_outstanding == 0
    &&& p.awaiting.len() == 0
    &&& p.reroute_grace is None || p.reroute_grace == Some(0u8)
}

/// A publisher is told that its publish is accepted exactly when that is true: the publish is over
/// on this node, nothing may be missed that the acknowledgement waits for, no store has still to
/// take it, and either nothing is outstanding at all, or the publisher does not wait for the rest
/// and the lanes are not behind. It is told once.
pub proof fn law_accepted_exactly_when_due(h: HubView, id: u64, p: PendingView)
    requires
        lookup(h.ledger.entries, id) == Some(p),
    ensures
        ({
            let r = h.completing(id);
            let due = p.local_done && !p.ack_awaits_settle && !p.awaiting_store && (
            nothing_outstanding(p) || (p.relaxed && !p.congested));
            let over = p.local_done && !p.ack_awaits_settle && !p.awaiting_settle
                && nothing_outstanding(p);
            &&& r.effects == match p.done {
                Some(token) => if due {
                    h.effects.push(
                        EffectView::Published { token, outcome: PublishOutcome::Accepted },
                    )
                } else {
                    h.effects
                },
                None => h.effects,
            }
            &&& over ==> lookup(r.ledger.entries, id) is None
            &&& !over && due ==> lookup(r.ledger.entries, id) == Some(
                PendingView { done: None, ..p },
            )
            &&& !over && !due ==> r.ledger == h.ledger
        }),
{
    broadcast use crate::assoc::lemma_lookup_put, crate::assoc::lemma_lookup_cut;

    assert(h.effects + Seq::<EffectView>::empty() =~= h.effects);
    match p.done {
        Some(token) => {
            let e = EffectView::Published { token, outcome: PublishOutcome::Accepted };
            assert(h.effects + seq![e] =~= h.effects.push(e));
        },
        None => {},
    }
}

/// A publish that is dropped is forgotten, and its publisher, if it still waits, is told nothing: it
/// will publish again. Every other publish stays as it is.
pub proof fn law_dropped_is_withheld(h: HubView, id: u64, p: PendingView, other: u64)
    requires
        lookup(h.ledger.entries, id) == Some(p),
    ensures
        ({
            let r = h.dropping(id);
            &&& lookup(r.ledger.entries, other) == if other == id {
                None
            } else {
                lookup(h.ledger.entries, other)
            }
            &&& r.effects == match p.done {
                Some(token) => h.effects.push(EffectView::Withheld { token }),
                None => h.effects,
            }
        }),
{
    broadcast use crate::assoc::lemma_lookup_cut;

    assert(h.effects + Seq::<EffectView>::empty() =~= h.effects);
    match p.done {
        Some(token) => {
            let e = EffectView::Withheld { token };
            assert(h.effects + seq![e] =~= h.effects.push(e));
        },
        None => {},
    }
}

/// A publish that is turned away is forgotten. Its publisher is told why where nothing of it was
/// kept and nothing still may be; else it is told nothing.
pub proof fn law_turned_away_is_told(
    h: HubView,
    id: u64,
    p: PendingView,
    token: u64,
    why: PublishRefusal,
)
    requires
        lookup(h.ledger.entries, id) == Some(p),
        p.done == Some(token),
    ensures
        ({
            let r = h.refusing(id, why);
            let kept = p.stored || p.appends_outstanding > 0 || p.awaiting_store;
            &&& lookup(r.ledger.entries, id) is None
            &&& r.effects == h.effects.push(
                if kept {
                    EffectView::Withheld { token }
                } else {
                    EffectView::Published { token, outcome: PublishOutcome::Refused(why) }
                },
            )
        }),
{
    broadcast use crate::assoc::lemma_lookup_cut;

    let e = h.refusing(id, why).effects.last();
    assert(h.effects + seq![e] =~= h.effects.push(e));
}

/// What a node answers counts for the publish it was forwarded for. Stored, the node is not
/// forwarded the publish again, and the publish waits for one answer less. Failed, the publish is
/// dropped. Turned away, so is the publish.
pub proof fn law_answer_counts(
    h: HubView,
    node: NodeId,
    seq: u64,
    verdict: ForwardVerdict,
    id: u64,
    p: PendingView,
    o: ObligationView,
)
    requires
        lookup(h.ledger.forward_index, seq) == Some(id),
        lookup(h.ledger.entries, id) == Some(p),
        lookup(p.awaiting, seq) == Some(o),
        o.node == node.deep_view(),
        o.kind is Ordinary,
    ensures
        ({
            let r = h.after(HubCommand::RemotePublishVerdict { node, seq, verdict });
            &&& verdict == ForwardVerdict::Stored ==> match lookup(r.ledger.entries, id) {
                Some(q) => lookup(q.awaiting, seq) is None && q.acked_nodes.contains(o.node)
                    && q.stored,
                None => p.local_done,
            }
            &&& verdict == ForwardVerdict::Failed ==> lookup(r.ledger.entries, id) is None && (
            p.done matches Some(token) ==> r.effects == h.effects.push(
                EffectView::Withheld { token },
            ))
            &&& verdict == (ForwardVerdict::Refused { code: 1 }) ==> lookup(
                r.ledger.entries,
                id,
            ) is None && (p.done matches Some(token) ==> !p.stored && p.appends_outstanding == 0
                && !p.awaiting_store ==> r.effects == h.effects.push(
                EffectView::Published {
                    token,
                    outcome: PublishOutcome::Refused(PublishRefusal::Brownout),
                },
            ))
        }),
{
    broadcast use crate::assoc::lemma_lookup_put, crate::assoc::lemma_lookup_cut;

    reveal(HubView::after);
    reveal(HubView::after_cluster);
    let n = node.deep_view();
    let r = h.after(HubCommand::RemotePublishVerdict { node, seq, verdict });
    let q = PendingView { awaiting: crate::assoc::cut(p.awaiting, seq), ..p };
    let h1 = h.with_ledger(h.ledger.settled(n, seq));
    assert(lookup(h1.ledger.entries, id) == Some(q));
    match verdict {
        ForwardVerdict::Stored => {
            crate::listening::lemma_adjoin_contains(q.acked_nodes, n, n);
            let s = PendingView {
                stored: true,
                acked_nodes: crate::assoc::adjoin(q.acked_nodes, n),
                ..q
            };
            let h2 = h1.with_ledger(h1.ledger.stored_on(id, n));
            assert(lookup(h2.ledger.entries, id) == Some(s));
            law_accepted_exactly_when_due(h2, id, s);
            assert(r == h2.completing(id));
        },
        ForwardVerdict::Failed => {
            law_dropped_is_withheld(h1, id, q, id);
            assert(r == h1.dropping(id));
        },
        ForwardVerdict::Refused { code } => {
            if code == 1 {
                assert(r == h1.refusing(id, PublishRefusal::Brownout));
                match p.done {
                    Some(token) => {
                        law_turned_away_is_told(h1, id, q, token, PublishRefusal::Brownout);
                    },
                    None => {},
                }
            }
        },
    }
}

/// A publish that nobody wants is accepted at once: nobody here or on another node subscribes to its
/// topic, it is not retained, and nobody may turn up who does.
pub proof fn law_unwanted_publish_is_accepted(
    h: HubView,
    publication: Publication,
    publisher: Option<ClientId>,
    token: u64,
    v5: bool,
    relaxed: bool,
)
    requires
        forall|c: Seq<char>| !#[trigger] subscribes(h, c, publication.deep_view().topic),
        h.shared_matches(publication.deep_view().topic).len() == 0,
        h.cluster.interest.wanting(publication.deep_view().topic).len() == 0,
        !publication.deep_view().retain,
        !h.cluster.unsettled(),
        h.ledger.entries.len() < PENDING_PUBLISH_CAP,
    ensures
        h.after(
            HubCommand::Publish { publication, publisher, done: Some(token), v5, relaxed },
        ).effects == h.effects.push(
            EffectView::Published { token, outcome: PublishOutcome::Accepted },
        ),
{
    broadcast use crate::assoc::lemma_lookup_put;

    reveal(HubView::after);
    let p = publication.deep_view();
    let who = publisher.deep_view();
    let id = next_number(h.ledger.publish_ids);
    let h1 = h.with_ledger(
        h.ledger.registered(token, p, h.cluster.unsettled(), h.instant),
    ).doing_all(h.ledger.register_effects(token, h.instant));
    assert(h1.effects =~= h.effects);
    let e = PendingView {
        done: Some(token),
        publication: p,
        awaiting: Seq::empty(),
        stored: false,
        acked_nodes: Seq::empty(),
        awaiting_retained: false,
        local_done: false,
        appends_outstanding: 0,
        created_at: h.instant,
        reroute_grace: None,
        awaiting_settle: false,
        ack_awaits_settle: false,
        relaxed: false,
        congested: false,
        awaiting_store: false,
    };
    crate::assoc::lemma_lookup_ranked::<u64, PendingView>(h.ledger.entries, id, e, id);
    assert(lookup(h1.ledger.entries, id) == Some(e));
    let h2 = if relaxed {
        h1.relaxing(id)
    } else {
        h1
    };
    let e2 = PendingView { relaxed, ..e };
    assert(lookup(h2.ledger.entries, id) == Some(e2));
    let ts = h2.targets(p.topic, who, p.retain);
    assert(ts.len() == 0) by {
        if ts.len() > 0 {
            crate::hearing::law_fan_out(h2, p.topic, who, p.retain, ts[0].0, p.qos);
            assert(ts[0].0 == ts[0].0);
            assert(subscribes(h2, ts[0].0, p.topic) == subscribes(h, ts[0].0, p.topic));
        }
    }
    let g = crate::forwarding::gate_of(Some(id));
    assert(!h2.some_owe(ts, p.qos));
    assert(h2.applying(p, who, g) == (h2, DurableOutcome::Met));
    assert(h2.shared_matches(p.topic) == h.shared_matches(p.topic));
    let (h3, out) = h2.publishing(p, who, Some(id));
    assert(out == DurableOutcome::Met);
    assert(h3.ledger == h2.ledger);
    lemma_no_frames(h2, p, id);
    assert(h3.effects == h.effects);
    let e3 = PendingView { local_done: true, ..e2 };
    let h4 = h3.with_ledger(h3.ledger.with(id, e3));
    assert(lookup(h4.ledger.entries, id) == Some(e3));
    law_accepted_exactly_when_due(h4, id, e3);
}

proof fn lemma_no_frames(h: HubView, p: crate::message::PublicationView, id: u64)
    requires
        h.cluster.interest.wanting(p.topic).len() == 0,
        !p.retain,
    ensures
        h.fanning_out(p, Some(id)).effects == h.effects,
        h.fanning_out(p, Some(id)).ledger == h.ledger,
{
}

// Whose turn it is.

/// The turn goes round: where the member whose turn it is is connected, it is the one that is
/// picked.
pub proof fn law_whoever_has_the_turn(
    cursors: Cursors,
    key: KeyView,
    candidates: Seq<CandidateView>,
    kept: Seq<(Seq<char>, u32)>,
)
    requires
        candidates.len() > 0,
        candidates[turn(cursors, key, candidates.len())].online,
    ensures
        picked(cursors, key, candidates, kept) == Some(
            candidates[turn(cursors, key, candidates.len())],
        ),
{
    let n = candidates.len() as int;
    let raw = match lookup(cursors, key) {
        Some(c) => c as int,
        None => 0,
    };
    let start = turn(cursors, key, candidates.len());
    assert(0 <= start < n) by (nonlinear_arith)
        requires
            n > 0,
            start == raw % n,
    ;
    let s = crate::shared::rotated(candidates, start);
    assert(s[0] == candidates[start]);
}

proof fn lemma_none_wanted(
    s: Seq<CandidateView>,
    w: crate::shared::Want,
    kept: Seq<(Seq<char>, u32)>,
)
    ensures
        match crate::shared::first_wanted(s, w, kept) {
            Some(c) => crate::shared::wanted(w, c, kept) && s.contains(c),
            None => forall|i: int|
                0 <= i < s.len() ==> !crate::shared::wanted(w, #[trigger] s[i], kept),
        },
    decreases s.len(),
{
    if s.len() > 0 {
        if crate::shared::wanted(w, s[0], kept) {
            assert(s.contains(s[0]));
        } else {
            let t = s.skip(1);
            lemma_none_wanted(t, w, kept);
            match crate::shared::first_wanted(t, w, kept) {
                Some(c) => {
                    let i = choose|i: int| 0 <= i < t.len() && t[i] == c;
                    assert(s[i + 1] == c);
                },
                None => {
                    assert forall|i: int| 0 <= i < s.len() implies !crate::shared::wanted(
                        w,
                        #[trigger] s[i],
                        kept,
                    ) by {
                        if i > 0 {
                            assert(t[i - 1] == s[i]);
                        }
                    }
                },
            }
        }
    }
}

/// Where no member is connected, a member of this node whose session is kept comes before one of
/// another node.
pub proof fn law_kept_sessions_come_first(
    cursors: Cursors,
    key: KeyView,
    candidates: Seq<CandidateView>,
    kept: Seq<(Seq<char>, u32)>,
    i: int,
)
    requires
        forall|j: int| 0 <= j < candidates.len() ==> !(#[trigger] candidates[j]).online,
        0 <= i < candidates.len(),
        candidates[i].node is None,
        bound(kept, candidates[i].client),
    ensures
        picked(cursors, key, candidates, kept) matches Some(c) && c.node is None && bound(
            kept,
            c.client,
        ),
{
    let n = candidates.len() as int;
    let raw = match lookup(cursors, key) {
        Some(c) => c as int,
        None => 0,
    };
    let start = turn(cursors, key, candidates.len());
    assert(0 <= start < n) by (nonlinear_arith)
        requires
            n > 0,
            start == raw % n,
    ;
    let s = crate::shared::rotated(candidates, start);
    lemma_none_wanted(s, crate::shared::Want::Online, kept);
    lemma_none_wanted(s, crate::shared::Want::Kept, kept);
    assert forall|j: int| 0 <= j < s.len() implies !(#[trigger] s[j]).online by {
        if j < n - start {
            assert(s[j] == candidates[start + j]);
        } else {
            assert(s[j] == candidates[j - (n - start)]);
        }
    }
    let at = if i >= start {
        i - start
    } else {
        i + (n - start)
    };
    assert(s[at] == candidates[i]);
    assert(crate::shared::wanted(crate::shared::Want::Kept, s[at], kept));
}

// Names.

/// Topics with the same levels are the same, and no level has a slash in it.
pub proof fn law_levels_tell_apart(a: Seq<char>, b: Seq<char>)
    ensures
        levels(a) == levels(b) ==> a == b,
        forall|i: int, j: int|
            0 <= i < levels(a).len() && 0 <= j < levels(a)[i].len() ==> #[trigger] levels(
                a,
            )[i][j] != '/',
    decreases a.len(),
{
    crate::topic::lemma_slash(a);
    crate::topic::lemma_slash(b);
    let la = levels(a);
    let lb = levels(b);
    let (n, m) = (slash(a), slash(b));
    if n < a.len() {
        let ra = a.skip(n + 1);
        let rest = levels(ra);
        assert(la == seq![a.take(n)] + rest);
        law_levels_tell_apart(ra, if m < b.len() {
            b.skip(m + 1)
        } else {
            ra
        });
        assert forall|i: int, j: int| 0 <= i < la.len() && 0 <= j < la[i].len() implies #[trigger]
            la[i][j] != '/' by {
            if i > 0 {
                assert(la[i] == rest[i - 1]);
                assert(rest[i - 1][j] != '/');
            } else {
                assert(la[0][j] == a[j]);
            }
        }
        if la == lb {
            lemma_levels_len(ra);
            if m < b.len() {
                let rb = b.skip(m + 1);
                assert(lb == seq![b.take(m)] + levels(rb));
                assert(la[0] == a.take(n) && lb[0] == b.take(m));
                assert(levels(ra) =~= la.skip(1));
                assert(levels(rb) =~= lb.skip(1));
                assert(ra == rb);
                assert(n == m);
                assert(a =~= a.take(n) + seq!['/'] + ra);
                assert(b =~= b.take(m) + seq!['/'] + rb);
            } else {
                assert(lb.len() == 1);
                assert(la.len() == 1 + rest.len());
            }
        }
    } else {
        assert(la == seq![a]);
        assert forall|i: int, j: int| 0 <= i < la.len() && 0 <= j < la[i].len() implies #[trigger]
            la[i][j] != '/' by {
            assert(la[i] == a);
        }
        if la == lb {
            if m < b.len() {
                lemma_levels_len(b.skip(m + 1));
                assert(lb.len() == 1 + levels(b.skip(m + 1)).len());
            } else {
                assert(lb == seq![b]);
                assert(la[0] == lb[0]);
            }
        }
    }
}

proof fn lemma_levels_len(s: Seq<char>)
    ensures
        levels(s).len() >= 1,
{
    crate::topic::lemma_slash(s);
}

/// A shared subscription is taken apart into the group and the filter that it was put together
/// from.
pub proof fn law_shared_filter_reads_back(group: Seq<char>, filter: Seq<char>)
    requires
        group.len() > 0,
        filter.len() > 0,
        forall|i: int| 0 <= i < group.len() ==> #[trigger] group[i] != '/',
    ensures
        share_parts(share_mark() + group + seq!['/'] + filter) == Some((group, filter)),
{
    let s = share_mark() + group + seq!['/'] + filter;
    let rest = s.skip(7);
    assert(s.take(7) =~= share_mark());
    assert(rest =~= group + seq!['/'] + filter);
    crate::topic::lemma_slash(rest);
    let n = slash(rest);
    assert(n == group.len()) by {
        if n < group.len() {
            assert(rest[n] == group[n]);
        } else if n > group.len() {
            assert(rest[group.len() as int] == '/');
        }
    }
    assert(rest.take(n) =~= group);
    assert(rest.skip(n + 1) =~= filter);
}

} // verus!
