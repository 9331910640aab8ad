//! What a session that is resumed gets back: what is recorded for its client while that attaches,
//! and not what was revoked.

use vstd::prelude::*;

use crate::assoc::{bound, cut, lookup};
use crate::attaching::{due, first_of, replay_entry, revoked};
use crate::delivery::{first_state, QosSend};
use crate::effects::EffectView;
use crate::hub::{HubView, RoutingView};
use crate::inflight::{BacklogView, InflightView, OutState, PendingOutView, SubscriberLimits};
use crate::lanes::{JobView, LaneOutcome};
use crate::qos::QoS;
use crate::session::{AttachView, QueuedView, RecoveryView};
use crate::subscriptions::Grants;

verus! {

/// Whether one of `s` carries the message at `offset`.
pub open spec fn carried(s: Seq<(u16, PendingOutView)>, offset: u64) -> bool {
    exists|i: int| 0 <= i < s.len() && (#[trigger] s[i]).1.offset == Some(offset)
}

/// Whether the message at `offset` waits in `b`.
pub open spec fn in_line(b: Seq<BacklogView>, offset: u64) -> bool {
    exists|i: int| 0 <= i < b.len() && (#[trigger] b[i]).offset == Some(offset)
}

/// Whether the message at `offset` is on its way to the client: on the wire, about to be once its
/// packet id is recorded, or waiting for its turn.
pub open spec fn on_its_way(inf: InflightView, offset: u64) -> bool {
    carried(inf.pending, offset) || in_line(inf.backlog, offset)
}

/// Whether the message at `offset`, which waits for its turn, makes place where `e` comes to wait.
pub open spec fn gives_way(h: HubView, client: Seq<char>, e: BacklogView, offset: u64) -> bool {
    &&& e.message.qos != QoS::AtMostOnce
    &&& h.inf(client).must_wait()
    &&& in_line(h.inf(client).evicted(e, h.limits), offset)
}

/// Whether, as `queue` is replayed, the message at `offset` has to make place for one behind it,
/// for want of room in line.
pub open spec fn crowded_out(
    h: HubView,
    client: Seq<char>,
    gone: Seq<Seq<char>>,
    queue: Seq<QueuedView>,
    offset: u64,
) -> bool
    decreases queue.len(),
{
    queue.len() > 0 && {
        let before = h.replaying_each(client, gone, queue.drop_last());
        ||| crowded_out(h, client, gone, queue.drop_last(), offset)
        ||| due(before, client, gone, queue.last()) && gives_way(
            before,
            client,
            replay_entry(h.now, queue.last()),
            offset,
        )
    }
}

/// Whether whatever waits at `offset` has a guarantee.
spec fn guaranteed(inf: InflightView, offset: u64) -> bool {
    forall|i: int|
        0 <= i < inf.backlog.len() && (#[trigger] inf.backlog[i]).offset == Some(offset)
            ==> inf.backlog[i].message.qos != QoS::AtMostOnce
}

/// Whether `b` differs from `a` in nothing by which messages are judged.
spec fn judges_alike(a: HubView, b: HubView) -> bool {
    b.routing == a.routing && b.now == a.now && b.limits == a.limits
}

/// Whether `b`, with respect to the message at `offset`, has lost nothing of `a`.
spec fn loses_nothing(a: InflightView, b: InflightView, offset: u64) -> bool {
    &&& on_its_way(a, offset) ==> on_its_way(b, offset)
    &&& guaranteed(a, offset) ==> guaranteed(b, offset)
    &&& a.outstanding.contains(offset) ==> b.outstanding.contains(offset)
}

/// Those that make place are the first in line.
proof fn lemma_make_place(b: Seq<BacklogView>, e: BacklogView, limits: SubscriberLimits)
    ensures
        ({
            let left = crate::inflight::make_place(b, e, limits);
            left.len() <= b.len() && left == b.skip(b.len() - left.len())
        }),
    decreases b.len(),
{
    if b.len() == 0 || crate::inflight::has_place(b, e, limits) {
        assert(b.skip(0) =~= b);
    } else {
        lemma_make_place(b.skip(1), e, limits);
        let left = crate::inflight::make_place(b, e, limits);
        let n = b.skip(1).len() - left.len();
        assert(b.skip(1).skip(n) =~= b.skip(n + 1));
    }
}

/// What was owed stays owed where others are not owed any more.
proof fn lemma_released_all(inf: InflightView, gone: Seq<BacklogView>, offset: u64)
    ensures
        ({
            let r = inf.released_all(gone);
            &&& r.pending == inf.pending
            &&& r.backlog == inf.backlog
            &&& inf.outstanding.contains(offset) && !in_line(gone, offset)
                ==> r.outstanding.contains(offset)
        }),
    decreases gone.len(),
{
    if gone.len() > 0 {
        let t = gone.drop_last();
        lemma_released_all(inf, t, offset);
        let rest = inf.released_all(t);
        if inf.outstanding.contains(offset) && !in_line(gone, offset) {
            assert(gone[gone.len() - 1].offset != Some(offset));
            if in_line(t, offset) {
                let i = choose|i: int| 0 <= i < t.len() && (#[trigger] t[i]).offset == Some(offset);
                assert(gone[i].offset == Some(offset));
            }
            match gone.last().offset {
                Some(o) => {
                    let keep = crate::assoc::not_item::<u64>(o);
                    let i = choose|i: int|
                        0 <= i < rest.outstanding.len() && rest.outstanding[i] == offset;
                    rest.outstanding.lemma_filter_contains(keep, i);
                },
                None => {},
            }
        }
    }
}

/// A message under a new packet id joins those that hold one.
proof fn lemma_holding(inf: InflightView, pkid: u16, p: PendingOutView, offset: u64)
    requires
        !bound(inf.pending, pkid),
    ensures
        ({
            let r = inf.holding(pkid, p);
            &&& carried(r.pending, offset) <==> carried(inf.pending, offset) || p.offset == Some(
                offset,
            )
            &&& carried(cut(r.pending, pkid), offset) <==> carried(inf.pending, offset)
            &&& r.in_hand(offset) ==> inf.in_hand(offset) || p.offset == Some(offset)
            &&& (InflightView { pending: cut(r.pending, pkid), ..r }).in_hand(offset) ==> inf.in_hand(
                offset,
            )
        }),
{
    let s = inf.pending;
    let r = inf.holding(pkid, p).pending;
    let n = crate::assoc::rank::<u16, PendingOutView>(s, pkid);
    crate::assoc::lemma_rank_bound::<u16, PendingOutView>(s, pkid);
    crate::assoc::lemma_position(s, pkid);
    assert(r == s.insert(n, (pkid, p)));
    assert(r[n] == (pkid, p));
    let c = cut(r, pkid);
    let keep = crate::assoc::not_key::<u16, PendingOutView>(pkid);
    assert forall|i: int| 0 <= i < s.len() implies #[trigger] s[i] == r[if i < n {
        i
    } else {
        i + 1
    }] && c.contains(s[i]) by {
        let j = if i < n {
            i
        } else {
            i + 1
        };
        assert(r[j] == s[i]);
        assert(s[i].0 != pkid);
        r.lemma_filter_contains(keep, j);
    }
    assert forall|i: int| 0 <= i < r.len() && i != n implies #[trigger] r[i] == s[if i < n {
        i
    } else {
        i - 1
    }] by {}
    assert forall|i: int| 0 <= i < c.len() implies s.contains(#[trigger] c[i]) by {
        crate::ledger::lemma_filter_keeps(r, keep, i);
        let j = choose|j: int| 0 <= j < r.len() && r[j] == c[i];
        assert(j != n);
        assert(s[if j < n {
            j
        } else {
            j - 1
        }] == c[i]);
    }
    if carried(s, offset) {
        let i = choose|i: int| 0 <= i < s.len() && (#[trigger] s[i]).1.offset == Some(offset);
        let j = if i < n {
            i
        } else {
            i + 1
        };
        assert(r[j].1.offset == Some(offset));
        let k = choose|k: int| 0 <= k < c.len() && c[k] == s[i];
        assert(c[k].1.offset == Some(offset));
    }
    if p.offset == Some(offset) {
        assert(r[n].1.offset == Some(offset));
    }
    if carried(r, offset) && p.offset != Some(offset) {
        let i = choose|i: int| 0 <= i < r.len() && (#[trigger] r[i]).1.offset == Some(offset);
        assert(s[if i < n {
            i
        } else {
            i - 1
        }].1.offset == Some(offset));
    }
    if carried(c, offset) {
        let i = choose|i: int| 0 <= i < c.len() && (#[trigger] c[i]).1.offset == Some(offset);
        let j = choose|j: int| 0 <= j < s.len() && s[j] == c[i];
        assert(s[j].1.offset == Some(offset));
    }
    let h = inf.holding(pkid, p);
    if h.in_hand(offset) && !inf.in_hand(offset) {
        let i = choose|i: int|
            0 <= i < r.len() && (#[trigger] r[i]).1.offset == Some(offset) && r[i].1.state
                != OutState::AwaitingIdRecord;
        if i != n {
            let j = if i < n {
                i
            } else {
                i - 1
            };
            assert(s[j] == r[i]);
        }
    }
    let back = InflightView { pending: c, ..h };
    if back.in_hand(offset) && !inf.in_hand(offset) {
        let i = choose|i: int|
            0 <= i < c.len() && (#[trigger] c[i]).1.offset == Some(offset) && c[i].1.state
                != OutState::AwaitingIdRecord;
        let j = choose|j: int| 0 <= j < s.len() && s[j] == c[i];
        assert(s[j].1.offset == Some(offset));
    }
}

/// A message that is put first in line is in line, and those behind it stay.
proof fn lemma_waiting_first(inf: InflightView, e: BacklogView, offset: u64)
    ensures
        ({
            let r = inf.waiting_first(e);
            &&& in_line(r.backlog, offset) <==> in_line(inf.backlog, offset) || e.offset == Some(
                offset,
            )
            &&& r.in_hand(offset) ==> inf.in_hand(offset) || e.offset == Some(offset)
            &&& guaranteed(inf, offset) && (e.offset == Some(offset) ==> e.message.qos
                != QoS::AtMostOnce) ==> guaranteed(r, offset)
        }),
{
    let b = inf.backlog;
    let r = inf.waiting_first(e).backlog;
    assert(r[0] == e);
    assert forall|i: int| 0 <= i < b.len() implies #[trigger] b[i] == r[i + 1] by {}
    assert forall|i: int| 0 < i < r.len() implies #[trigger] r[i] == b[i - 1] by {}
    if in_line(b, offset) {
        let i = choose|i: int| 0 <= i < b.len() && (#[trigger] b[i]).offset == Some(offset);
        assert(r[i + 1].offset == Some(offset));
    }
    if in_line(r, offset) && e.offset != Some(offset) {
        let i = choose|i: int| 0 <= i < r.len() && (#[trigger] r[i]).offset == Some(offset);
        assert(b[i - 1].offset == Some(offset));
    }
}

proof fn lemma_sending_qos(h: HubView, client: Seq<char>, e: BacklogView, offset: u64)
    requires
        e.offset == Some(offset) ==> e.message.qos != QoS::AtMostOnce,
    ensures
        ({
            let r = h.sending_qos(client, e).0;
            let (a, b) = (h.inf(client), r.inf(client));
            &&& judges_alike(h, r)
            &&& loses_nothing(a, b, offset)
            &&& e.offset == Some(offset) ==> on_its_way(b, offset)
            &&& b.in_hand(offset) ==> a.in_hand(offset) || e.offset == Some(offset)
            &&& b.outstanding == a.outstanding
        }),
{
    broadcast use crate::assoc::lemma_lookup_put;

    let a = h.inf(client);
    if e.message.qos != QoS::AtMostOnce {
        crate::inflight::lemma_allocated_keeps_line(a);
        let (inf, id) = a.allocated();
        match id {
            None => {
                lemma_waiting_first(inf, e, offset);
                let r = h.deferring(client, inf, e);
                assert(r.inf(client).pending == a.pending);
                assert(r.inf(client).backlog == inf.waiting_first(e).backlog);
            },
            Some(pkid) => {
                if e.message.qos == QoS::ExactlyOnce && e.offset is Some {
                    let p = PendingOutView {
                        message: e.message,
                        state: OutState::AwaitingIdRecord,
                        offset: e.offset,
                    };
                    lemma_holding(inf, pkid, p, offset);
                    let parked = inf.holding(pkid, p);
                    let back = InflightView {
                        pending: cut(parked.pending, pkid),
                        records_pending: (crate::hub::held(inf.records_pending, 1) - 1) as usize,
                        ..inf
                    };
                    lemma_waiting_first(back, e, offset);
                    let r = h.sending_qos(client, e).0;
                    if h.lane(client).takes_delivery() {
                        assert(r.inf(client).pending == parked.pending);
                        assert(r.inf(client).backlog == a.backlog);
                    } else {
                        assert(r.inf(client) == back.waiting_first(e));
                        assert(back.in_hand(offset) ==> a.in_hand(offset));
                    }
                } else {
                    let p = PendingOutView {
                        message: e.message,
                        state: first_state(e.message.qos),
                        offset: e.offset,
                    };
                    lemma_holding(inf, pkid, p, offset);
                    let r = h.sending_qos(client, e).0;
                    assert(r.inf(client) == inf.holding(pkid, p));
                }
            },
        }
    }
}

proof fn lemma_draining(h: HubView, client: Seq<char>, n: nat, offset: u64)
    requires
        guaranteed(h.inf(client), offset),
    ensures
        ({
            let r = h.draining(client, n);
            let (a, b) = (h.inf(client), r.inf(client));
            &&& judges_alike(h, r)
            &&& loses_nothing(a, b, offset)
            &&& b.in_hand(offset) ==> a.in_hand(offset)
            &&& b.outstanding == a.outstanding
        }),
    decreases n,
{
    broadcast use crate::assoc::lemma_lookup_put;

    if n > 0 && h.is_online(client) {
        match lookup(h.sessions.inflight, client) {
            Some(inf) => {
                if !(inf.is_full() || inf.records_pending > 0 || inf.backlog.len() == 0) {
                    let e = inf.backlog[0];
                    let rest = InflightView { backlog: inf.backlog.skip(1), ..inf };
                    let h1 = h.with_inf(client, rest);
                    assert(h1.inf(client) == rest);
                    assert forall|i: int| 0 <= i < rest.backlog.len() implies #[trigger]
                        rest.backlog[i] == inf.backlog[i + 1] by {}
                    assert(guaranteed(rest, offset)) by {
                        assert forall|i: int|
                            0 <= i < rest.backlog.len() && (#[trigger] rest.backlog[i]).offset
                                == Some(offset) implies rest.backlog[i].message.qos
                            != QoS::AtMostOnce by {
                            assert(inf.backlog[i + 1].offset == Some(offset));
                        }
                    }
                    if in_line(inf.backlog, offset) && e.offset != Some(offset) {
                        let i = choose|i: int|
                            0 <= i < inf.backlog.len() && (#[trigger] inf.backlog[i]).offset
                                == Some(offset);
                        assert(rest.backlog[i - 1].offset == Some(offset));
                    }
                    if in_line(rest.backlog, offset) {
                        let i = choose|i: int|
                            0 <= i < rest.backlog.len() && (#[trigger] rest.backlog[i]).offset
                                == Some(offset);
                        assert(inf.backlog[i + 1].offset == Some(offset));
                    }
                    assert(rest.in_hand(offset) ==> inf.in_hand(offset));
                    lemma_sending_qos(h1, client, e, offset);
                    let (h2, sent) = h1.sending_qos(client, e);
                    if sent == QosSend::Sent {
                        lemma_draining(h2, client, (n - 1) as nat, offset);
                    }
                }
            },
            None => {},
        }
    }
}

proof fn lemma_to_client(h: HubView, client: Seq<char>, e: BacklogView, offset: u64)
    requires
        guaranteed(h.inf(client), offset),
        e.offset is Some,
        !gives_way(h, client, e, offset),
    ensures
        ({
            let r = h.to_client(client, e);
            let (a, b) = (h.inf(client), r.inf(client));
            &&& judges_alike(h, r)
            &&& loses_nothing(a, b, offset)
            &&& e.offset == Some(offset) && e.message.qos != QoS::AtMostOnce ==> on_its_way(
                b,
                offset,
            ) && b.outstanding.contains(offset)
            &&& b.in_hand(offset) ==> a.in_hand(offset) || e.offset == Some(offset)
                && e.message.qos != QoS::AtMostOnce
        }),
{
    broadcast use crate::assoc::lemma_lookup_put;

    let a = h.inf(client);
    if e.message.qos != QoS::AtMostOnce {
        let o = e.offset->Some_0;
        let inf = a.tracking(o);
        let h1 = h.with_inf(client, inf);
        assert(h1.inf(client) == inf);
        assert(inf.in_hand(offset) == a.in_hand(offset));
        assert(inf.outstanding.contains(o)) by {
            if !a.outstanding.contains(o) {
                assert(inf.outstanding[a.outstanding.len() as int] == o);
            }
        }
        assert(a.outstanding.contains(offset) ==> inf.outstanding.contains(offset)) by {
            if a.outstanding.contains(offset) {
                let i = choose|i: int|
                    0 <= i < a.outstanding.len() && a.outstanding[i] == offset;
                assert(inf.outstanding[i] == offset);
            }
        }
        if inf.must_wait() {
            let line = inf.backlog;
            let left = crate::inflight::make_place(line, e, h.limits);
            let gone = inf.evicted(e, h.limits);
            lemma_make_place(line, e, h.limits);
            let n = line.len() - left.len();
            assert(gone == line.take(n));
            let stays = inf.waiting(e, h.limits);
            lemma_released_all(stays, gone, offset);
            let h2 = h1.queueing(client, e);
            let next = h2.inf(client);
            assert(next.pending == inf.pending);
            assert(next.backlog == left.push(e));
            assert(next.outstanding == stays.released_all(gone).outstanding);
            let last = left.len() as int;
            assert(next.backlog[last] == e);
            assert forall|i: int| 0 <= i < last implies #[trigger] next.backlog[i] == line[i + n] by {
                assert(left[i] == line[i + n]);
            }
            if in_line(line, offset) {
                let i = choose|i: int|
                    0 <= i < line.len() && (#[trigger] line[i]).offset == Some(offset);
                if i < n {
                    assert(gone[i].offset == Some(offset));
                }
                assert(next.backlog[i - n].offset == Some(offset));
            }
            if in_line(next.backlog, offset) && e.offset != Some(offset) {
                let i = choose|i: int|
                    0 <= i < next.backlog.len() && (#[trigger] next.backlog[i]).offset == Some(
                        offset,
                    );
                assert(line[i + n].offset == Some(offset));
            }
            assert(guaranteed(next, offset)) by {
                assert forall|i: int|
                    0 <= i < next.backlog.len() && (#[trigger] next.backlog[i]).offset == Some(
                        offset,
                    ) implies next.backlog[i].message.qos != QoS::AtMostOnce by {
                    if i < last {
                        assert(line[i + n] == next.backlog[i]);
                    }
                }
            }
            assert(next.in_hand(offset) ==> inf.in_hand(offset) || e.offset == Some(offset));
            lemma_draining(h2, client, next.backlog.len(), offset);
        } else {
            lemma_sending_qos(h1, client, e, offset);
        }
    }
}

/// What is replayed of a queue is on its way, each of its messages that is due among it.
proof fn lemma_replaying(
    h: HubView,
    client: Seq<char>,
    gone: Seq<Seq<char>>,
    queue: Seq<QueuedView>,
    offset: u64,
)
    requires
        !h.inf(client).in_hand(offset),
        !crowded_out(h, client, gone, queue, offset),
    ensures
        ({
            let r = h.replaying_each(client, gone, queue);
            let b = r.inf(client);
            &&& judges_alike(h, r)
            &&& guaranteed(b, offset)
            &&& b.in_hand(offset) ==> b.outstanding.contains(offset)
            &&& forall|k: int|
                0 <= k < queue.len() && (#[trigger] queue[k]).offset == offset
                    && queue[k].message.qos != QoS::AtMostOnce && due(h, client, gone, queue[k])
                    ==> on_its_way(b, offset) && b.outstanding.contains(offset)
        }),
    decreases queue.len(),
{
    let a = h.inf(client);
    if queue.len() == 0 {
        assert(guaranteed(a, offset)) by {
            assert forall|i: int|
                0 <= i < a.backlog.len() && (#[trigger] a.backlog[i]).offset == Some(
                    offset,
                ) implies a.backlog[i].message.qos != QoS::AtMostOnce by {
                assert(a.in_hand(offset));
            }
        }
    } else {
        let t = queue.drop_last();
        let q = queue.last();
        let last = queue.len() - 1;
        lemma_replaying(h, client, gone, t, offset);
        let h1 = h.replaying_each(client, gone, t);
        let inf = h1.inf(client);
        let e = replay_entry(h.now, q);
        let r = h.replaying_each(client, gone, queue);
        let sent = due(h1, client, gone, q);
        if sent {
            assert(r == h1.to_client(client, e));
            lemma_to_client(h1, client, e, offset);
        } else {
            assert(r == h1);
        }
        let b = r.inf(client);
        assert forall|k: int|
            0 <= k < queue.len() && (#[trigger] queue[k]).offset == offset
                && queue[k].message.qos != QoS::AtMostOnce && due(
                h,
                client,
                gone,
                queue[k],
            ) implies on_its_way(b, offset) && b.outstanding.contains(offset) by {
            if k < last {
                assert(t[k] == queue[k]);
            } else {
                assert(queue[k] == q);
                if !sent {
                    assert(inf.in_hand(offset));
                    assert(on_its_way(inf, offset));
                }
            }
        }
    }
}

/// What is recorded for a client while it attaches is the replay's to send, and the replay sends
/// it. When its job is done, nothing is sent, and the attach goes on; and once the hub takes up the
/// session and the queue, in which the message stands by then, the message is on its way to the
/// client, and the store keeps it until the client has acknowledged it. The message is due, among
/// those that are replayed at once, and does not have to make place for one behind it.
pub proof fn law_recorded_during_attach_is_replayed(
    h: HubView,
    job: JobView,
    offset: u64,
    p: AttachView,
    present: bool,
    subs: Grants,
    queue: Seq<QueuedView>,
    denied: Seq<Seq<char>>,
    k: int,
)
    requires
        lookup(h.sessions.connecting, p.client) == Some(p.conn_id),
        job.client == p.client,
        job.work is Append,
        0 <= k < first_of(queue).len(),
        queue[k].offset == offset,
        queue[k].message.qos != QoS::AtMostOnce,
        ({
            let recorded = h.appended(job, LaneOutcome::Stored(offset));
            let fetched = recorded.fetched(p.client);
            let ready = fetched.letting_in(p, present, subs, denied);
            &&& !fetched.refuses_session(p.client, present)
            &&& due(ready, p.client, revoked(subs, denied), queue[k])
            &&& !crowded_out(ready, p.client, revoked(subs, denied), first_of(queue), offset)
        }),
    ensures
        ({
            let recorded = h.appended(job, LaneOutcome::Stored(offset));
            let r = recorded.recovering(
                p,
                RecoveryView::Ready { present, subscriptions: subs },
                Some(queue),
                denied,
            );
            &&& recorded.sessions.inflight == h.sessions.inflight
            &&& recorded.sessions.online == h.sessions.online
            &&& recorded.sessions.connecting == h.sessions.connecting
            &&& on_its_way(r.inf(p.client), offset)
            &&& r.inf(p.client).outstanding.contains(offset)
            &&& offset > 0 ==> r.inf(p.client).safe_through() < offset
        }),
{
    broadcast use crate::assoc::lemma_lookup_put;

    let recorded = h.appended(job, LaneOutcome::Stored(offset));
    lemma_recorded_quietly(h, job, offset);
    let fetched = recorded.fetched(p.client);
    let ready = fetched.letting_in(p, present, subs, denied);
    let gone = revoked(subs, denied);
    let q = first_of(queue);
    assert(q[k] == queue[k]);
    lemma_replaying(ready, p.client, gone, q, offset);
    let sent = ready.replaying_each(p.client, gone, q);
    let r = recorded.recovering(
        p,
        RecoveryView::Ready { present, subscriptions: subs },
        Some(queue),
        denied,
    );
    assert(r == ready.replaying_queue(p.client, gone, q));
    let inf = sent.inf(p.client);
    let end = r.inf(p.client);
    assert(end.pending == inf.pending && end.backlog == inf.backlog && end.outstanding
        == inf.outstanding);
    if offset > 0 {
        crate::inflight::law_truncation_stops_at_owed(end, offset);
    }
}

/// While a client attaches, a job of its lane that is done sends nothing.
proof fn lemma_recorded_quietly(h: HubView, job: JobView, offset: u64)
    requires
        bound(h.sessions.connecting, job.client),
        job.work is Append,
    ensures
        ({
            let r = h.appended(job, LaneOutcome::Stored(offset));
            &&& r.sessions.inflight == h.sessions.inflight
            &&& r.sessions.online == h.sessions.online
            &&& r.sessions.connecting == h.sessions.connecting
        }),
{
}

proof fn lemma_left(r: RoutingView, client: Seq<char>, filters: Seq<Seq<char>>, i: int)
    requires
        0 <= i < filters.len(),
    ensures
        !bound(r.leaving_each(client, filters).grants(client), filters[i]),
    decreases filters.len(),
{
    broadcast use crate::assoc::lemma_lookup_put;
    broadcast use crate::assoc::lemma_lookup_cut;

    let before = r.leaving_each(client, filters.drop_last());
    if i < filters.len() - 1 {
        lemma_left(r, client, filters.drop_last(), i);
    }
    match lookup(before.subs_by_client, client) {
        Some(g) => {
            assert(before.leaving(client, filters.last()).grants(client) == cut(g, filters.last()));
            assert(lookup(cut(g, filters.last()), filters[i]) is None);
        },
        None => {
            assert(before.leaving(client, filters.last()).grants(client) == Seq::<
                (Seq<char>, QoS),
            >::empty());
        },
    }
}

/// What was revoked stays revoked: a session that is resumed has none of the subscriptions that
/// its client may not have any more, and the store is told what is left, wherever the session is
/// kept, or is to be from now on.
pub proof fn law_revocation_is_durable(
    h: HubView,
    client: Seq<char>,
    subs: Grants,
    denied: Seq<Seq<char>>,
    lasting: bool,
    i: int,
)
    requires
        h.persistent(client) || lasting,
        0 <= i < revoked(subs, denied).len(),
    ensures
        ({
            let r = h.resubscribing(client, subs, denied, lasting);
            &&& !bound(r.routing.grants(client), revoked(subs, denied)[i])
            &&& r.effects.contains(
                EffectView::SetSubscriptions { client, subscriptions: r.routing.grants(client) },
            )
        }),
{
    let gone = revoked(subs, denied);
    let r = h.resubscribing(client, subs, denied, lasting);
    let kept = subs.filter(crate::attaching::not_denied(denied));
    let h1 = h.with_routing(h.routing.entering_each(client, kept));
    let h2 = if kept.len() > 0 {
        h1.gossiping()
    } else {
        h1
    };
    lemma_left(h2.routing, client, gone, i);
    let at = h2.effects.len() as int;
    let stored = h2.with_routing(h2.routing.leaving_each(client, gone)).storing(client, lasting);
    assert(stored.effects[at] == (EffectView::SetSubscriptions {
        client,
        subscriptions: r.routing.grants(client),
    }));
    assert(r.effects[at] == stored.effects[at]);
}

} // verus!
