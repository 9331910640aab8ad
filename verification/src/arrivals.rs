//! What a finished attach comes to: the connection, the session and the subscriptions of the
//! client, and what becomes of the connection that it had before.

use vstd::prelude::*;

use crate::assoc::lookup;
use crate::attaching::{first_of, last_offset, not_denied, remaining, revoked};
use crate::dispatch::HubCommand;
use crate::effects::EffectView;
use crate::endings::{steady, will_is_heard};
use crate::guarantees::distinct;
use crate::hub::{HubView, RoutingView};
use crate::inflight::{BacklogView, InflightView, PendingOutView};
use crate::listening::{belongs, flagged, listens};
use crate::message::PublicationView;
use crate::qos::QoS;
use crate::session::{AttachView, OnlineView, PendingAttach, QueuedMessage, QueuedView,
    RecoveryView, SessionRecovery};
use crate::shared::KeyView;
use crate::subscriptions::Grants;
use crate::topic::share_parts;

verus! {

/// Whether `b` goes on with the same connection of `c` as `a`, and as many messages may be on their
/// way to it.
pub open spec fn stays_on(a: HubView, b: HubView, c: Seq<char>) -> bool {
    &&& steady(a, b)
    &&& b.routing == a.routing
    &&& crate::reach::grows(a, b)
    &&& b.inf(c).receive_maximum == a.inf(c).receive_maximum
    &&& lookup(a.sessions.online, c) matches Some(o) ==> (lookup(
        b.sessions.online,
        c,
    ) matches Some(q) && q.conn_id == o.conn_id && q.will == o.will && q.admission == o.admission
        && q.attached_at == o.attached_at)
}

proof fn lemma_stays_on(a: HubView, b: HubView, d: HubView, c: Seq<char>)
    requires
        stays_on(a, b, c),
        stays_on(b, d, c),
    ensures
        stays_on(a, d, c),
{
    crate::reach::lemma_grows(a, b, d);
}

proof fn lemma_pushed(a: HubView, b: HubView)
    requires
        b.effects == a.effects || b.effects == a.effects.push(b.effects.last()),
    ensures
        crate::reach::grows(a, b),
{
    assert(b.effects.take(a.effects.len() as int) =~= a.effects);
}

proof fn lemma_sending_stays(
    h: HubView,
    c: Seq<char>,
    packet: crate::packet::PacketView,
    n: nat,
)
    ensures
        stays_on(h, h.sending(c, packet, n), c),
{
    broadcast use crate::assoc::lemma_lookup_put;

    lemma_pushed(h, h.sending(c, packet, n));
}

proof fn lemma_with_inf_stays(h: HubView, c: Seq<char>, inf: InflightView)
    requires
        inf.receive_maximum == h.inf(c).receive_maximum,
    ensures
        stays_on(h, h.with_inf(c, inf), c),
{
    broadcast use crate::assoc::lemma_lookup_put;

    lemma_pushed(h, h.with_inf(c, inf));
}

proof fn lemma_sending_qos_stays(h: HubView, c: Seq<char>, e: BacklogView)
    ensures
        stays_on(h, h.sending_qos(c, e).0, c),
{
    broadcast use crate::assoc::lemma_lookup_put;

    let r = h.sending_qos(c, e).0;
    crate::inflight::lemma_allocated_keeps_line(h.inf(c));
    lemma_pushed(h, r);
    if e.message.qos == QoS::AtMostOnce {
        lemma_sending_stays(
            h,
            c,
            crate::packet::publish_of(e.message, None, false, e.retain, e.message_expiry),
            crate::delivery::room(e.message),
        );
    }
}

proof fn lemma_draining_stays(h: HubView, c: Seq<char>, n: nat)
    ensures
        stays_on(h, h.draining(c, n), c),
    decreases n,
{
    broadcast use crate::assoc::lemma_lookup_put;

    lemma_pushed(h, h);
    if n > 0 && h.is_online(c) {
        match lookup(h.sessions.inflight, c) {
            Some(inf) => {
                if !(inf.is_full() || inf.records_pending > 0 || inf.backlog.len() == 0) {
                    let next = InflightView { backlog: inf.backlog.skip(1), ..inf };
                    let popped = h.with_inf(c, next);
                    lemma_with_inf_stays(h, c, next);
                    lemma_sending_qos_stays(popped, c, inf.backlog[0]);
                    let sent = popped.sending_qos(c, inf.backlog[0]).0;
                    lemma_stays_on(h, popped, sent, c);
                    lemma_draining_stays(sent, c, (n - 1) as nat);
                    lemma_stays_on(h, sent, sent.draining(c, (n - 1) as nat), c);
                }
            },
            None => {},
        }
    }
}

proof fn lemma_truncating_stays(h: HubView, c: Seq<char>)
    ensures
        stays_on(h, h.truncating(c), c),
{
    broadcast use crate::assoc::lemma_lookup_put;

    lemma_pushed(h, h.truncating(c));
}

proof fn lemma_released_all_maximum(inf: InflightView, gone: Seq<BacklogView>)
    ensures
        inf.released_all(gone).receive_maximum == inf.receive_maximum,
    decreases gone.len(),
{
    if gone.len() > 0 {
        lemma_released_all_maximum(inf, gone.drop_last());
    }
}

proof fn lemma_to_client_stays(h: HubView, c: Seq<char>, e: BacklogView)
    ensures
        stays_on(h, h.to_client(c, e), c),
{
    broadcast use crate::assoc::lemma_lookup_put;

    let h1 = if e.offset is Some && e.message.qos != QoS::AtMostOnce {
        h.with_inf(c, h.inf(c).tracking(e.offset->Some_0))
    } else {
        h
    };
    lemma_pushed(h, h1);
    assert(stays_on(h, h1, c));
    let r = h.to_client(c, e);
    if e.message.qos == QoS::AtMostOnce {
        if !h1.sheds(c, e.message) {
            lemma_sending_stays(
                h1,
                c,
                crate::packet::publish_of(e.message, None, false, e.retain, e.message_expiry),
                crate::delivery::room(e.message),
            );
        }
    } else if h1.inf(c).must_wait() {
        let inf = h1.inf(c);
        let gone = inf.evicted(e, h1.limits);
        lemma_released_all_maximum(inf.waiting(e, h1.limits), gone);
        let h2 = h1.with_inf(c, inf.waiting(e, h1.limits).released_all(gone));
        lemma_with_inf_stays(h1, c, inf.waiting(e, h1.limits).released_all(gone));
        lemma_truncating_stays(h2, c);
        lemma_stays_on(h1, h2, h2.truncating(c), c);
        let h3 = h1.queueing(c, e);
        assert(stays_on(h1, h3, c));
        lemma_stays_on(h, h1, h3, c);
        lemma_draining_stays(h3, c, h3.inf(c).backlog.len());
        lemma_stays_on(h, h3, h3.drained(c), c);
    } else {
        lemma_sending_qos_stays(h1, c, e);
        lemma_stays_on(h, h1, r, c);
    }
}

proof fn lemma_replaying_stays(
    h: HubView,
    c: Seq<char>,
    gone: Seq<Seq<char>>,
    queue: Seq<QueuedView>,
)
    ensures
        stays_on(h, h.replaying_each(c, gone, queue), c),
    decreases queue.len(),
{
    lemma_pushed(h, h);
    if queue.len() > 0 {
        let q = queue.last();
        lemma_replaying_stays(h, c, gone, queue.drop_last());
        let h1 = h.replaying_each(c, gone, queue.drop_last());
        lemma_to_client_stays(
            h1,
            c,
            BacklogView {
                message: q.message,
                retain: false,
                message_expiry: match q.expiry_at {
                    Some(d) => Some(remaining(h1.now, d)),
                    None => None,
                },
                offset: Some(q.offset),
            },
        );
        let h2 = h1.replaying_one(c, gone, q);
        lemma_pushed(h1, h1);
        assert(stays_on(h1, h2, c));
        lemma_stays_on(h, h1, h2, c);
    }
}

proof fn lemma_queue_stays(
    h: HubView,
    c: Seq<char>,
    gone: Seq<Seq<char>>,
    queue: Seq<QueuedView>,
)
    ensures
        stays_on(h, h.replaying_queue(c, gone, queue), c),
{
    lemma_replaying_stays(h, c, gone, queue);
    let h1 = h.replaying_each(c, gone, queue);
    let last = last_offset(queue);
    if last > 0 {
        let h2 = h1.with_inf(c, h1.inf(c).replayed_through(last));
        lemma_with_inf_stays(h1, c, h1.inf(c).replayed_through(last));
        lemma_truncating_stays(h2, c);
        lemma_stays_on(h1, h2, h2.truncating(c), c);
        lemma_stays_on(h, h1, h2.truncating(c), c);
    }
}

proof fn lemma_resending_stays(h: HubView, c: Seq<char>, pending: Seq<(u16, PendingOutView)>)
    ensures
        stays_on(h, h.resending(c, pending), c),
    decreases pending.len(),
{
    lemma_pushed(h, h);
    if pending.len() > 0 {
        lemma_resending_stays(h, c, pending.drop_last());
        let h1 = h.resending(c, pending.drop_last());
        let (pkid, p) = pending.last();
        lemma_sending_stays(
            h1,
            c,
            crate::packet::publish_of(p.message, Some(pkid), true, false, None),
            crate::delivery::room(p.message),
        );
        lemma_sending_stays(h1, c, crate::packet::PacketView::PubRel(pkid), 0);
        lemma_pushed(h1, h1);
        assert(stays_on(h1, h.resending(c, pending), c));
        lemma_stays_on(h, h1, h.resending(c, pending), c);
    }
}

/// What taking the stored subscriptions in does to one of them.
pub proof fn lemma_entering_each(
    r: RoutingView,
    client: Seq<char>,
    subs: Grants,
    d: Seq<char>,
    f: Seq<char>,
    key: KeyView,
)
    requires
        distinct(subs),
    ensures
        ({
            let e = r.entering_each(client, subs);
            let mine = d == client && lookup(subs, f) is Some;
            &&& listens(e, d, f) <==> listens(r, d, f) || (mine && share_parts(f) is None)
            &&& lookup(e.grants(d), f) == if mine {
                lookup(subs, f)
            } else {
                lookup(r.grants(d), f)
            }
            &&& e.no_local == r.no_local
            &&& e.retain_as_published == r.retain_as_published
            &&& distinct(r.shared) ==> distinct(e.shared) && (belongs(e.shared, d, key)
                <==> belongs(r.shared, d, key) || (d == client && exists|i: int|
                0 <= i < subs.len() && share_parts((#[trigger] subs[i]).0) == Some(key)))
        }),
    decreases subs.len(),
{
    crate::assoc::lemma_position(subs, f);
    if subs.len() > 0 {
        let t = subs.drop_last();
        let x = subs.last();
        assert(subs[subs.len() - 1] == x);
        assert(distinct(t)) by {
            assert forall|i: int, j: int| 0 <= i < j < t.len() implies (#[trigger] t[i]).0 != (
            #[trigger] t[j]).0 by {
                assert(t[i] == subs[i] && t[j] == subs[j]);
            }
        }
        lemma_entering_each(r, client, t, d, f, key);
        let before = r.entering_each(client, t);
        crate::listening::lemma_entering(before, client, x.0, x.1, d, f, key);
        crate::assoc::lemma_position(t, f);
        let n = crate::assoc::position(subs, f);
        if lookup(subs, f) is Some {
            if n < t.len() {
                assert(t[n] == subs[n]);
                crate::assoc::lemma_position_at(t, f, n);
                assert(subs[n].0 != subs[subs.len() - 1].0);
            }
        }
        if lookup(t, f) is Some {
            let m = crate::assoc::position(t, f);
            assert(subs[m] == t[m]);
            assert(subs[m].0 != subs[subs.len() - 1].0);
            assert forall|j: int| 0 <= j < m implies (#[trigger] subs[j]).0 != f by {
                assert(t[j] == subs[j]);
            }
            crate::assoc::lemma_position_at(subs, f, m);
        }
        if x.0 == f {
            assert forall|j: int| 0 <= j < subs.len() - 1 implies (#[trigger] subs[j]).0 != f by {
                assert(subs[j].0 != subs[subs.len() - 1].0);
            }
            crate::assoc::lemma_position_at(subs, f, subs.len() - 1);
        }
        if exists|i: int| 0 <= i < t.len() && share_parts((#[trigger] t[i]).0) == Some(key) {
            let i = choose|i: int| 0 <= i < t.len() && share_parts((#[trigger] t[i]).0) == Some(key);
            assert(subs[i] == t[i]);
        }
        if exists|i: int| 0 <= i < subs.len() && share_parts((#[trigger] subs[i]).0) == Some(key) {
            let i = choose|i: int|
                0 <= i < subs.len() && share_parts((#[trigger] subs[i]).0) == Some(key);
            if i < t.len() {
                assert(t[i] == subs[i]);
            }
        }
    }
}

proof fn lemma_revoked(subs: Grants, denied: Seq<Seq<char>>, f: Seq<char>)
    ensures
        revoked(subs, denied).contains(f) <==> denied.contains(f) && exists|i: int|
            0 <= i < subs.len() && (#[trigger] subs[i]).0 == f,
    decreases subs.len(),
{
    let all = revoked(subs, denied);
    if subs.len() > 0 {
        let t = subs.drop_last();
        let rest = revoked(t, denied);
        lemma_revoked(t, denied, f);
        assert(subs[subs.len() - 1] == subs.last());
        if exists|i: int| 0 <= i < t.len() && (#[trigger] t[i]).0 == f {
            let i = choose|i: int| 0 <= i < t.len() && (#[trigger] t[i]).0 == f;
            assert(subs[i].0 == f);
        }
        if exists|i: int| 0 <= i < subs.len() && (#[trigger] subs[i]).0 == f {
            let i = choose|i: int| 0 <= i < subs.len() && (#[trigger] subs[i]).0 == f;
            if i < t.len() {
                assert(t[i].0 == f);
            }
        }
        if all.contains(f) {
            let i = choose|i: int| 0 <= i < all.len() && all[i] == f;
            if i < rest.len() {
                assert(rest[i] == f);
            }
        }
        if rest.contains(f) {
            let i = choose|i: int| 0 <= i < rest.len() && rest[i] == f;
            assert(all[i] == f);
        }
        if all.len() > rest.len() && subs.last().0 == f {
            assert(all[rest.len() as int] == f);
        }
    }
}

proof fn lemma_kept_subs(subs: Grants, denied: Seq<Seq<char>>, f: Seq<char>)
    requires
        distinct(subs),
    ensures
        distinct(subs.filter(not_denied(denied))),
        lookup(subs.filter(not_denied(denied)), f) == if denied.contains(f) {
            None
        } else {
            lookup(subs, f)
        },
{
    let keep = not_denied(denied);
    let kept = subs.filter(keep);
    crate::listening::lemma_distinct_filter(subs, keep);
    crate::assoc::lemma_position(subs, f);
    crate::assoc::lemma_position(kept, f);
    if lookup(kept, f) is Some {
        let n = crate::assoc::position(kept, f);
        crate::ledger::lemma_filter_keeps(subs, keep, n);
        let i = choose|i: int| 0 <= i < subs.len() && subs[i] == kept[n];
        assert forall|j: int| 0 <= j < i implies (#[trigger] subs[j]).0 != f by {
            assert(subs[j].0 != subs[i].0);
        }
        crate::assoc::lemma_position_at(subs, f, i);
    } else if lookup(subs, f) is Some && !denied.contains(f) {
        let i = crate::assoc::position(subs, f);
        subs.lemma_filter_contains(keep, i);
        let n = choose|n: int| 0 <= n < kept.len() && kept[n] == subs[i];
        assert(kept[n].0 == f);
    }
}

/// The hub in which the attach `p` finds its session taken up and its old connection gone, just
/// before it is connected.
spec fn prepared(h: HubView, p: AttachView, subs: Grants, denied: Seq<Seq<char>>) -> HubView {
    let h1 = h.resubscribing(p.client, subs, denied, p.session_expiry > 0).keeping_session(
        p.client,
        p.session_expiry,
    );
    h1.with_inf(
        p.client,
        InflightView { receive_maximum: p.receive_maximum, ..h1.inf(p.client) },
    )
}

proof fn lemma_prepared(
    h: HubView,
    p: AttachView,
    subs: Grants,
    denied: Seq<Seq<char>>,
    d: Seq<char>,
    f: Seq<char>,
    key: KeyView,
)
    requires
        distinct(subs),
        distinct(h.routing.shared),
    ensures
        ({
            let r = prepared(h, p, subs, denied);
            let mine = d == p.client && lookup(subs, f) is Some;
            &&& crate::reach::grows(h, r)
            &&& r.sessions.online == h.sessions.online
            &&& r.sessions.connecting == h.sessions.connecting
            &&& r.now == h.now
            &&& r.instant == h.instant
            &&& r.inf(p.client).receive_maximum == p.receive_maximum
            &&& lookup(r.sessions.session_expiry, d) == if d != p.client {
                lookup(h.sessions.session_expiry, d)
            } else if p.session_expiry == 0 {
                None
            } else {
                Some(p.session_expiry)
            }
            &&& listens(r.routing, d, f) <==> if mine && share_parts(f) is None {
                !denied.contains(f)
            } else {
                listens(h.routing, d, f)
            }
            &&& lookup(r.routing.grants(d), f) == if mine {
                if denied.contains(f) {
                    None
                } else {
                    lookup(subs, f)
                }
            } else {
                lookup(h.routing.grants(d), f)
            }
            &&& d != p.client ==> (flagged(r.routing.no_local, d, f) == flagged(
                h.routing.no_local,
                d,
                f,
            ) && flagged(r.routing.retain_as_published, d, f) == flagged(
                h.routing.retain_as_published,
                d,
                f,
            ) && belongs(r.routing.shared, d, key) == belongs(h.routing.shared, d, key))
        }),
{
    broadcast use crate::assoc::lemma_lookup_put, crate::assoc::lemma_lookup_cut;

    let kept = subs.filter(not_denied(denied));
    let gone = revoked(subs, denied);
    lemma_kept_subs(subs, denied, f);
    lemma_revoked(subs, denied, f);
    crate::assoc::lemma_position(subs, f);
    if lookup(subs, f) is Some {
        assert(subs[crate::assoc::position(subs, f)].0 == f);
    }
    lemma_entering_each(h.routing, p.client, kept, d, f, key);
    let entered = h.routing.entering_each(p.client, kept);
    crate::listening::lemma_leaving_each(entered, p.client, gone, d, f, key);
    let h1 = h.resubscribing(p.client, subs, denied, p.session_expiry > 0);
    lemma_resubscribing_grows(h, p.client, subs, denied, p.session_expiry > 0);
    let r = prepared(h, p, subs, denied);
    let h2 = h1.keeping_session(p.client, p.session_expiry);
    lemma_pushed(h1, h2);
    crate::reach::lemma_grows(h, h1, h2);
    if gone.len() == 0 {
        assert(!gone.contains(f));
        assert(h1.routing == entered);
    } else {
        assert(h1.routing == entered.leaving_each(p.client, gone));
    }
}

proof fn lemma_resubscribing_grows(
    h: HubView,
    client: Seq<char>,
    subs: Grants,
    denied: Seq<Seq<char>>,
    lasting: bool,
)
    ensures
        ({
            let r = h.resubscribing(client, subs, denied, lasting);
            &&& crate::reach::grows(h, r)
            &&& r.sessions == h.sessions
            &&& r.now == h.now
            &&& r.instant == h.instant
        }),
{
    let r = h.resubscribing(client, subs, denied, lasting);
    assert(r.effects.take(h.effects.len() as int) =~= h.effects);
}

/// What `client` does with its subscriptions is nothing to anybody else.
proof fn lemma_others_keep(
    r: RoutingView,
    client: Seq<char>,
    subs: Grants,
    filters: Seq<Seq<char>>,
    d: Seq<char>,
)
    requires
        d != client,
    ensures
        ({
            let e = r.entering_each(client, subs);
            let l = e.leaving_each(client, filters);
            &&& lookup(e.subs_by_client, d) == lookup(r.subs_by_client, d)
            &&& lookup(e.no_local, d) == lookup(r.no_local, d)
            &&& lookup(e.retain_as_published, d) == lookup(r.retain_as_published, d)
            &&& lookup(l.subs_by_client, d) == lookup(r.subs_by_client, d)
            &&& lookup(l.no_local, d) == lookup(r.no_local, d)
            &&& lookup(l.retain_as_published, d) == lookup(r.retain_as_published, d)
        }),
    decreases subs.len() + filters.len(),
{
    broadcast use crate::assoc::lemma_lookup_put;

    if filters.len() > 0 {
        lemma_others_keep(r, client, subs, filters.drop_last(), d);
    } else if subs.len() > 0 {
        lemma_others_keep(r, client, subs.drop_last(), filters, d);
    }
}

/// The attach `p` is let in, whatever is replayed to it.
proof fn lemma_finished(
    h: HubView,
    pending: PendingAttach,
    recovery: SessionRecovery,
    queue: Option<Vec<QueuedMessage>>,
    denied: Vec<String>,
    present: bool,
    subs: Grants,
) -> (at: HubView)
    requires
        lookup(h.sessions.connecting, pending.deep_view().client) == Some(
            pending.deep_view().conn_id,
        ),
        recovery.deep_view() == (RecoveryView::Ready { present, subscriptions: subs }),
        !h.refuses_session(pending.deep_view().client, present),
    ensures
        at == prepared(
            h.fetched(pending.deep_view().client),
            pending.deep_view(),
            subs,
            denied.deep_view(),
        ).replacing(pending.deep_view().client),
        stays_on(
            at.connecting_as(pending.deep_view(), present),
            h.after(HubCommand::SessionRecovered { pending, recovery, queue, denied }),
            pending.deep_view().client,
        ),
{
    reveal(HubView::after);
    let p = pending.deep_view();
    let d = denied.deep_view();
    let r = h.after(HubCommand::SessionRecovered { pending, recovery, queue, denied });
    let at = prepared(h.fetched(p.client), p, subs, d).replacing(p.client);
    let on = at.connecting_as(p, present);
    lemma_resending_stays(on, p.client, on.inf(p.client).pending);
    let again = on.resending(p.client, on.inf(p.client).pending);
    match queue.deep_view() {
        Some(q) => {
            lemma_queue_stays(again, p.client, revoked(subs, d), first_of(q));
            lemma_stays_on(on, again, r, p.client);
        },
        None => {},
    }
    at
}

/// An attach that is finished has its client connected by the new connection, with the will, the
/// identity and the limits it came with, and the client is told. Its session is kept as long as it
/// asked. Of the subscriptions that were stored for it, it has those that the policy still lets it
/// have, with the guarantees they were stored with; what it had here beside them stays, and
/// nobody else's subscriptions are touched. The connection that it had before is closed.
#[verifier::spinoff_prover]
#[verifier::rlimit(80)]
pub proof fn law_let_in(
    h: HubView,
    pending: PendingAttach,
    recovery: SessionRecovery,
    queue: Option<Vec<QueuedMessage>>,
    denied: Vec<String>,
    present: bool,
    subs: Grants,
    d: Seq<char>,
    f: Seq<char>,
    key: KeyView,
)
    requires
        lookup(h.sessions.connecting, pending.deep_view().client) == Some(
            pending.deep_view().conn_id,
        ),
        recovery.deep_view() == (RecoveryView::Ready { present, subscriptions: subs }),
        !h.refuses_session(pending.deep_view().client, present),
        distinct(subs),
        distinct(h.routing.shared),
    ensures
        ({
            let p = pending.deep_view();
            let r = h.after(HubCommand::SessionRecovered { pending, recovery, queue, denied });
            let mine = d == p.client && lookup(subs, f) is Some;
            &&& lookup(r.sessions.online, p.client) matches Some(q) && q.conn_id == p.conn_id
                && q.will == p.will && q.admission == p.admission && q.attached_at == h.instant
            &&& lookup(r.sessions.connecting, p.client) is None
            &&& r.inf(p.client).receive_maximum == p.receive_maximum
            &&& r.effects.contains(
                EffectView::Attached {
                    token: p.reply,
                    result: crate::session::AttachOutcome::Present(present),
                },
            )
            &&& lookup(h.sessions.online, p.client) matches Some(old) ==> r.effects.contains(
                EffectView::Close { conn: old.conn_id },
            )
            &&& lookup(r.sessions.session_expiry, d) == if d != p.client {
                lookup(h.sessions.session_expiry, d)
            } else if p.session_expiry == 0 {
                None
            } else {
                Some(p.session_expiry)
            }
            &&& listens(r.routing, d, f) <==> if mine && share_parts(f) is None {
                !denied.deep_view().contains(f)
            } else {
                listens(h.routing, d, f)
            }
            &&& lookup(r.routing.grants(d), f) == if mine {
                if denied.deep_view().contains(f) {
                    None
                } else {
                    lookup(subs, f)
                }
            } else {
                lookup(h.routing.grants(d), f)
            }
            &&& d != p.client ==> (belongs(r.routing.shared, d, key) == belongs(
                h.routing.shared,
                d,
                key,
            ))
        }),
{
    broadcast use crate::assoc::lemma_lookup_put, crate::assoc::lemma_lookup_cut;

    let p = pending.deep_view();
    let dv = denied.deep_view();
    let r = h.after(HubCommand::SessionRecovered { pending, recovery, queue, denied });
    let h0 = h.fetched(p.client);
    let at = lemma_finished(h, pending, recovery, queue, denied, present, subs);
    lemma_prepared(h0, p, subs, dv, d, f, key);
    let h1 = prepared(h0, p, subs, dv);
    let on = at.connecting_as(p, present);
    match lookup(h1.sessions.online, p.client) {
        Some(old) => {
            crate::endings::lemma_disconnected(h1, p.client, old, false);
            assert(at == crate::endings::disconnected(h1, p.client, old, false));
            let n = h1.effects.len() as int;
            let e = EffectView::Close { conn: old.conn_id };
            assert(on.effects[n] == at.effects[n]);
            assert(r.effects.take(on.effects.len() as int)[n] == on.effects[n]);
            assert(r.effects[n] == e);
        },
        None => {
            assert(at == h1);
        },
    }
    assert(steady(h1, at));
    assert(at.inf(p.client) == h1.inf(p.client));
    let n = at.effects.len() as int;
    assert(r.effects.take(on.effects.len() as int)[n] == on.effects[n]);
    assert(r.effects[n] == (EffectView::Attached {
        token: p.reply,
        result: crate::session::AttachOutcome::Present(present),
    }));
}

/// Whoever takes over a connection sets the will of the old one free: a subscriber of its topic
/// that can be reached is sent it.
pub proof fn law_replaced_will_is_published(
    h: HubView,
    pending: PendingAttach,
    recovery: SessionRecovery,
    queue: Option<Vec<QueuedMessage>>,
    denied: Vec<String>,
    present: bool,
    subs: Grants,
    old: OnlineView,
    w: PublicationView,
    d: Seq<char>,
    q: OnlineView,
)
    requires
        lookup(h.sessions.connecting, pending.deep_view().client) == Some(
            pending.deep_view().conn_id,
        ),
        recovery.deep_view() == (RecoveryView::Ready { present, subscriptions: subs }),
        distinct(subs),
        distinct(h.routing.shared),
        lookup(h.sessions.online, pending.deep_view().client) == Some(old),
        old.will == Some(w),
        d != pending.deep_view().client,
        lookup(h.sessions.online, d) == Some(q),
        crate::hearing::subscribes(h, d, w.topic),
        crate::hearing::within_reach(h, PublicationView { message_expiry: None, ..w }, d),
    ensures
        will_is_heard(
            h,
            h.after(HubCommand::SessionRecovered { pending, recovery, queue, denied }).effects,
            w,
            d,
            q.conn_id,
        ),
{
    broadcast use crate::assoc::lemma_lookup_put, crate::assoc::lemma_lookup_cut;

    let p = pending.deep_view();
    let dv = denied.deep_view();
    let h0 = h.fetched(p.client);
    assert(h.is_online(p.client) == lookup(h.sessions.online, p.client) is Some);
    let at = lemma_finished(h, pending, recovery, queue, denied, present, subs);
    let h1 = prepared(h0, p, subs, dv);
    let r = h.after(HubCommand::SessionRecovered { pending, recovery, queue, denied });
    let wp = PublicationView { message_expiry: None, ..w };
    lemma_others_keep(
        h.routing,
        p.client,
        subs.filter(not_denied(dv)),
        revoked(subs, dv),
        d,
    );
    assert(lookup(h1.routing.subs_by_client, d) == lookup(h.routing.subs_by_client, d));
    assert(lookup(h1.routing.retain_as_published, d) == lookup(h.routing.retain_as_published, d));
    assert(h1.granted(d, w.topic) == h.granted(d, w.topic));
    assert(h1.keeps_retain(d, w.topic) == h.keeps_retain(d, w.topic));
    let seen = choose|f: Seq<char>|
        #[trigger] listens(h.routing, d, f) && crate::topic::matches_topic(f, w.topic);
    lemma_prepared(h0, p, subs, dv, d, seen, (seen, seen));
    assert(listens(h1.routing, d, seen));
    assert(h1.inf(d) == h.inf(d));
    assert(lookup(h1.sessions.session_expiry, d) == lookup(h.sessions.session_expiry, d));
    assert(crate::reach::turn_of(h1, wp, d) == crate::reach::turn_of(h, wp, d));
    assert(crate::hearing::within_reach(h1, wp, d));
    assert(at == crate::endings::disconnected(h1, p.client, old, false));
    crate::endings::lemma_will_is_heard(h1, p.client, old, w, d, q);
    assert(crate::hearing::asked_for_flag(h1, d, w.topic) == crate::hearing::asked_for_flag(
        h,
        d,
        w.topic,
    )) by {
        crate::hearing::law_flag_is_kept_on_request(h, d, w.topic);
        crate::hearing::law_flag_is_kept_on_request(h1, d, w.topic);
    }
    assert(will_is_heard(h, at.effects, w, d, q.conn_id));
    let on = at.connecting_as(p, present);
    lemma_pushed(at, on);
    crate::reach::lemma_grows(at, on, r);
    crate::endings::lemma_still_heard(h, at, r, w, d, q.conn_id);
}

/// A client whose session was removed first is let in with none: as one whose session was looked
/// for and not there.
pub proof fn law_cleaned_is_absent(
    h: HubView,
    p: AttachView,
    queue: Option<Seq<QueuedView>>,
    denied: Seq<Seq<char>>,
)
    ensures
        h.recovering(p, RecoveryView::Cleaned, queue, denied) == h.recovering(
            p,
            RecoveryView::Ready { present: false, subscriptions: Seq::empty() },
            None,
            denied,
        ),
{
}

/// A new session too many is turned away: its client is told through the store, which removes what
/// was made for it, and nothing else happens.
pub proof fn law_turned_away(
    h: HubView,
    pending: PendingAttach,
    recovery: SessionRecovery,
    queue: Option<Vec<QueuedMessage>>,
    denied: Vec<String>,
    subs: Grants,
)
    requires
        lookup(h.sessions.connecting, pending.deep_view().client) == Some(
            pending.deep_view().conn_id,
        ),
        recovery.deep_view() == (RecoveryView::Ready { present: false, subscriptions: subs }),
        lookup(h.sessions.online, pending.deep_view().client) is None,
        lookup(h.sessions.session_expiry, pending.deep_view().client) is None,
        h.brownout || (h.quotas.max_sessions matches Some(cap) && h.session_count() >= cap),
    ensures
        ({
            let p = pending.deep_view();
            let r = h.after(HubCommand::SessionRecovered { pending, recovery, queue, denied });
            &&& r.effects == h.effects.push(EffectView::Reap { client: p.client, token: p.reply })
            &&& r.routing == h.routing
            &&& r.sessions.online == h.sessions.online
            &&& r.sessions.inflight == h.sessions.inflight
            &&& r.sessions.session_expiry == h.sessions.session_expiry
            &&& lookup(r.sessions.connecting, p.client) is None
        }),
{
    broadcast use crate::assoc::lemma_lookup_cut;

    reveal(HubView::after);
}

/// A session that is kept has its clock stopped in the store while its client is connected.
pub proof fn law_stored_clock_is_stopped(
    h: HubView,
    pending: PendingAttach,
    recovery: SessionRecovery,
    queue: Option<Vec<QueuedMessage>>,
    denied: Vec<String>,
    present: bool,
    subs: Grants,
)
    requires
        lookup(h.sessions.connecting, pending.deep_view().client) == Some(
            pending.deep_view().conn_id,
        ),
        recovery.deep_view() == (RecoveryView::Ready { present, subscriptions: subs }),
        !h.refuses_session(pending.deep_view().client, present),
        pending.deep_view().session_expiry > 0,
    ensures
        h.after(HubCommand::SessionRecovered { pending, recovery, queue, denied }).effects.contains(
            EffectView::SetSessionExpiry { client: pending.deep_view().client, deadline: None },
        ),
{
    let p = pending.deep_view();
    let dv = denied.deep_view();
    let r = h.after(HubCommand::SessionRecovered { pending, recovery, queue, denied });
    let h0 = h.fetched(p.client);
    let at = lemma_finished(h, pending, recovery, queue, denied, present, subs);
    let h1 = h0.resubscribing(p.client, subs, dv, p.session_expiry > 0);
    let h2 = prepared(h0, p, subs, dv);
    let e = EffectView::SetSessionExpiry { client: p.client, deadline: None };
    let n = h1.effects.len() as int;
    assert(h2.effects == h1.effects.push(e));
    assert(h2.effects[n] == e);
    let on = at.connecting_as(p, present);
    match lookup(h2.sessions.online, p.client) {
        Some(old) => {
            crate::endings::lemma_disconnected(h2, p.client, old, false);
            assert(at == crate::endings::disconnected(h2, p.client, old, false));
            assert(at.effects.take(h2.effects.len() as int)[n] == at.effects[n]);
        },
        None => {},
    }
    assert(on.effects[n] == e);
    assert(r.effects.take(on.effects.len() as int)[n] == r.effects[n]);
}

} // verus!
