//! What the answers of a client do: what each ends, what it releases, and that an answer to nothing
//! does nothing.

use vstd::prelude::*;

use crate::assoc::{bound, lookup};
use crate::dispatch::HubCommand;
use crate::effects::EffectView;
use crate::exactly_once::retirable;
use crate::hub::HubView;
use crate::ids::ClientId;
use crate::inflight::{least, InflightView, OutState, PendingOutView};
use crate::lanes::LaneJobView;
use crate::packet::PacketView;
use crate::qos2::{Qos2OpOutcome, Qos2OpView, Qos2RetireResult};
use crate::session::OnlineView;

verus! {

/// An acknowledgement ends the exchange of its message: the packet id is free, the message is not
/// owed any more, every other packet id is as it was, and once nothing is owed the durable queue is
/// truncated through all that was handed out. Nobody waits for a turn here.
pub proof fn law_acknowledged(
    h: HubView,
    client: ClientId,
    pkid: u16,
    inf: InflightView,
    p: PendingOutView,
    id: u16,
    offset: u64,
)
    requires
        lookup(h.sessions.inflight, client.deep_view()) == Some(inf),
        lookup(inf.pending, pkid) == Some(p),
        p.state == OutState::AwaitingPubAck,
        inf.backlog.len() == 0,
    ensures
        ({
            let r = h.after(HubCommand::PubAck { client, pkid });
            let i = r.inf(client.deep_view());
            &&& lookup(i.pending, id) == if id == pkid {
                None
            } else {
                lookup(inf.pending, id)
            }
            &&& i.outstanding.contains(offset) <==> inf.outstanding.contains(offset) && p.offset
                != Some(offset)
            &&& r.sessions.online == h.sessions.online
            &&& r.routing == h.routing
            &&& i.outstanding.len() == 0 && inf.tracked_through > inf.acked_through
                ==> r.effects.contains(
                EffectView::Ack { client: client.deep_view(), up_to: inf.tracked_through },
            ) && i.acked_through == inf.tracked_through
        }),
{
    broadcast use crate::assoc::lemma_lookup_put, crate::assoc::lemma_lookup_cut;

    reveal(HubView::after);
    let c = client.deep_view();
    let r = h.after(HubCommand::PubAck { client, pkid });
    let acked = inf.acked(pkid, p);
    match p.offset {
        Some(o) => {
            crate::listening::lemma_without_contains(inf.outstanding, o, offset);
        },
        None => {},
    }
    let h1 = h.with_inf(c, acked).truncating(c);
    let h2 = if h1.qos2.cleanup.contains(c) {
        h1.retiring(c)
    } else {
        h1
    };
    assert(h2.sessions.inflight == h1.sessions.inflight);
    assert(h1.inf(c).backlog == inf.backlog);
    assert(r == h2);
    if acked.outstanding.len() == 0 && inf.tracked_through > inf.acked_through {
        let e = EffectView::Ack { client: c, up_to: inf.tracked_through };
        assert(h1.effects == h.effects.push(e));
        assert(h1.effects[h.effects.len() as int] == e);
        assert(h2.effects[h.effects.len() as int] == e);
    }
}

/// An answer that answers nothing does nothing: an acknowledgement of a message that has another
/// guarantee or is not held, a receipt of one that waits for none, and a completion of one that
/// was neither released nor is about to be.
pub proof fn law_stray_answers_do_nothing(h: HubView, client: ClientId, pkid: u16)
    ensures
        !(h.held_by(client.deep_view(), pkid) matches Some(p) && p.state
            == OutState::AwaitingPubAck) ==> h.after(HubCommand::PubAck { client, pkid }) == h,
        !(h.held_by(client.deep_view(), pkid) matches Some(p) && p.state
            == OutState::AwaitingPubRec) ==> h.after(HubCommand::PubRec { client, pkid }) == h,
        (h.held_by(client.deep_view(), pkid) matches Some(p) && (p.state == OutState::AwaitingPubAck
            || p.state == OutState::AwaitingIdRecord || (p.state == OutState::AwaitingPubRec
            && !h.qos2.advance_inflight.contains((client.deep_view(), pkid))))) ==> h.after(
            HubCommand::PubComp { client, pkid },
        ) == h,
        h.held_by(client.deep_view(), pkid) is None && !bound(
            h.inf(client.deep_view()).orphaned_qos2,
            pkid,
        ) ==> h.after(HubCommand::PubComp { client, pkid }) == h,
{
    reveal(HubView::after);
}

/// The confirmation of a receipt releases a message that has no place in the durable queue: it
/// waits for its completion, and the client is sent the release.
pub proof fn law_receipt_is_released(
    h: HubView,
    client: ClientId,
    pkid: u16,
    inf: InflightView,
    p: PendingOutView,
    o: OnlineView,
    id: u16,
)
    requires
        lookup(h.sessions.inflight, client.deep_view()) == Some(inf),
        lookup(inf.pending, pkid) == Some(p),
        p.state == OutState::AwaitingPubRec,
        p.offset is None,
        lookup(h.sessions.online, client.deep_view()) == Some(o),
    ensures
        ({
            let r = h.after(HubCommand::PubRec { client, pkid });
            &&& r.effects == h.effects.push(
                EffectView::Packet { conn: o.conn_id, packet: PacketView::PubRel(pkid) },
            )
            &&& lookup(r.inf(client.deep_view()).pending, id) == if id == pkid {
                Some(PendingOutView { state: OutState::AwaitingPubComp, ..p })
            } else {
                lookup(inf.pending, id)
            }
        }),
{
    broadcast use crate::assoc::lemma_lookup_put;

    reveal(HubView::after);
}

/// The confirmation of a receipt of a message that has a place in the durable queue is recorded
/// first: the store is told the packet id, once, and the client is sent nothing yet.
pub proof fn law_receipt_is_recorded(
    h: HubView,
    client: ClientId,
    pkid: u16,
    inf: InflightView,
    p: PendingOutView,
)
    requires
        lookup(h.sessions.inflight, client.deep_view()) == Some(inf),
        lookup(inf.pending, pkid) == Some(p),
        p.state == OutState::AwaitingPubRec,
        p.offset is Some,
        h.lane(client.deep_view()).takes_control(),
    ensures
        ({
            let c = client.deep_view();
            let r = h.after(HubCommand::PubRec { client, pkid });
            &&& h.qos2.advance_inflight.contains((c, pkid)) ==> r == h
            &&& !h.qos2.advance_inflight.contains((c, pkid)) ==> r.effects == h.effects.push(
                EffectView::Lane {
                    client: c,
                    job: LaneJobView::Qos2Op {
                        client: c,
                        op: Qos2OpView::Advance { pkid, epoch: h.epoch(c) },
                    },
                },
            )
            &&& r.qos2.advance_inflight.contains((c, pkid))
            &&& r.sessions.inflight == h.sessions.inflight
        }),
{
    reveal(HubView::after);
    let c = client.deep_view();
    crate::listening::lemma_adjoin_contains(h.qos2.advance_inflight, (c, pkid), (c, pkid));
}

/// Once the receipt is recorded the message is released; where it could not be recorded nothing
/// happens, and the client may confirm once more.
pub proof fn law_recorded_receipt_is_released(
    h: HubView,
    client: ClientId,
    pkid: u16,
    ok: bool,
    inf: InflightView,
    p: PendingOutView,
    o: OnlineView,
)
    requires
        lookup(h.sessions.inflight, client.deep_view()) == Some(inf),
        lookup(inf.pending, pkid) == Some(p),
        p.state == OutState::AwaitingPubRec,
        lookup(h.sessions.online, client.deep_view()) == Some(o),
        !h.qos2.held_pubcomp.contains((client.deep_view(), pkid)),
    ensures
        ({
            let c = client.deep_view();
            let r = h.after(
                HubCommand::Qos2OpDone {
                    client,
                    step: Qos2OpOutcome::Advance { pkid, epoch: h.epoch(c), ok },
                },
            );
            &&& !r.qos2.advance_inflight.contains((c, pkid))
            &&& ok ==> r.effects == h.effects.push(
                EffectView::Packet { conn: o.conn_id, packet: PacketView::PubRel(pkid) },
            ) && lookup(r.inf(c).pending, pkid) == Some(
                PendingOutView { state: OutState::AwaitingPubComp, ..p },
            )
            &&& !ok ==> r.effects == h.effects && r.sessions.inflight == h.sessions.inflight
        }),
{
    broadcast use crate::assoc::lemma_lookup_put;

    reveal(HubView::after);
    let c = client.deep_view();
    crate::listening::lemma_without_contains(
        h.qos2.advance_inflight,
        (c, pkid),
        (c, pkid),
    );
}

/// A message is done once its completion comes: its packet id is kept until the store has given it
/// up, but the message is not owed any more, and every other packet id is as it was.
pub proof fn law_completed(
    h: HubView,
    client: ClientId,
    pkid: u16,
    inf: InflightView,
    p: PendingOutView,
    id: u16,
    offset: u64,
)
    requires
        lookup(h.sessions.inflight, client.deep_view()) == Some(inf),
        lookup(inf.pending, pkid) == Some(p),
        p.state == OutState::AwaitingPubComp,
    ensures
        ({
            let c = client.deep_view();
            let r = h.after(HubCommand::PubComp { client, pkid });
            let i = r.inf(c);
            &&& lookup(i.pending, id) == if id == pkid {
                Some(PendingOutView { state: OutState::CompletedQos2, ..p })
            } else {
                lookup(inf.pending, id)
            }
            &&& i.outstanding.contains(offset) <==> inf.outstanding.contains(offset) && p.offset
                != Some(offset)
            &&& i.backlog == inf.backlog
            &&& r.sessions.online == h.sessions.online
            &&& r.qos2.cleanup.contains(c)
        }),
{
    broadcast use crate::assoc::lemma_lookup_put;

    reveal(HubView::after);
    let c = client.deep_view();
    let m = h.marking(c, pkid);
    match p.offset {
        Some(o) => {
            crate::listening::lemma_without_contains(inf.outstanding, o, offset);
        },
        None => {},
    }
    let i = m.inf(c);
    let n = crate::assoc::position(i.pending, pkid);
    crate::assoc::lemma_position(i.pending, pkid);
    assert(lookup(i.pending, pkid) == Some(
        PendingOutView { state: OutState::CompletedQos2, ..p },
    ));
    assert(i.pending[n].1.state == OutState::CompletedQos2);
    assert(m.retires(c));
    crate::listening::lemma_adjoin_contains(h.qos2.cleanup, c, c);
}

/// Whether `e` has the store give up packet id `pkid` of `client`, whose message stood at `offset`.
pub open spec fn retires_id(
    e: EffectView,
    client: Seq<char>,
    epoch: u64,
    pkid: u16,
    offset: Option<u64>,
) -> bool {
    e matches EffectView::Lane {
        client: c,
        job: LaneJobView::Qos2Op { client: d, op: Qos2OpView::Retire(plan) },
    } && c == client && d == client && plan.client == client && plan.epoch == epoch
        && plan.candidates.contains((pkid, offset)) && (offset matches Some(o) ==> plan.up_to
        matches Some(t) && o <= t)
}

proof fn lemma_retirable(
    pending: Seq<(u16, PendingOutView)>,
    safe: u64,
    i: int,
)
    requires
        0 <= i < pending.len(),
        pending[i].1.state == OutState::CompletedQos2,
        pending[i].1.offset matches Some(o) ==> o <= safe,
    ensures
        retirable(pending, safe).contains((pending[i].0, pending[i].1.offset)),
    decreases pending.len(),
{
    let t = pending.drop_last();
    let goal = (pending[i].0, pending[i].1.offset);
    let rest = retirable(t, safe);
    let all = retirable(pending, safe);
    if i < t.len() {
        assert(t[i] == pending[i]);
        lemma_retirable(t, safe, i);
        let k = choose|k: int| 0 <= k < rest.len() && rest[k] == goal;
        assert(all[k] == goal);
    } else {
        assert(all[rest.len() as int] == goal);
    }
}

proof fn lemma_least_above(s: Seq<u64>, o: u64)
    requires
        forall|x: u64| s.contains(x) ==> o < x,
        s.len() > 0,
    ensures
        o < least(s),
    decreases s.len(),
{
    let t = s.drop_last();
    assert(s.contains(s[s.len() - 1]));
    if t.len() > 0 {
        assert forall|x: u64| t.contains(x) implies o < x by {
            let i = choose|i: int| 0 <= i < t.len() && t[i] == x;
            assert(s[i] == x);
            assert(s.contains(x));
        }
        lemma_least_above(t, o);
    } else {
        assert(least(t) == u64::MAX);
    }
}

/// The store is asked to give up the packet id of a message that is done, together with its place
/// in the durable queue, as soon as nothing before it is owed and no other retirement is under way.
pub proof fn law_completed_is_retired(
    h: HubView,
    client: ClientId,
    pkid: u16,
    inf: InflightView,
    p: PendingOutView,
)
    requires
        lookup(h.sessions.inflight, client.deep_view()) == Some(inf),
        lookup(inf.pending, pkid) == Some(p),
        p.state == OutState::AwaitingPubComp,
        p.offset matches Some(o) ==> 0 < o <= inf.tracked_through && forall|x: u64|
            inf.outstanding.contains(x) && x != o ==> o < x,
        !h.qos2.retire_inflight.contains(client.deep_view()),
        h.lane(client.deep_view()).takes_control(),
    ensures
        ({
            let c = client.deep_view();
            let r = h.after(HubCommand::PubComp { client, pkid });
            &&& r.effects.len() == h.effects.len() + 1
            &&& retires_id(r.effects.last(), c, h.epoch(c), pkid, p.offset)
            &&& r.qos2.retire_inflight.contains(c)
        }),
{
    broadcast use crate::assoc::lemma_lookup_put;

    reveal(HubView::after);
    let c = client.deep_view();
    let m = h.marking(c, pkid);
    let i = m.inf(c);
    let done = PendingOutView { state: OutState::CompletedQos2, ..p };
    assert(lookup(i.pending, pkid) == Some(done));
    let n = crate::assoc::position(i.pending, pkid);
    crate::assoc::lemma_position(i.pending, pkid);
    assert(i.pending[n] == (pkid, done));
    match p.offset {
        Some(o) => {
            assert(i.outstanding == crate::assoc::without(inf.outstanding, o));
            if i.outstanding.len() > 0 {
                assert forall|x: u64| i.outstanding.contains(x) implies o < x by {
                    crate::listening::lemma_without_contains(inf.outstanding, o, x);
                }
                lemma_least_above(i.outstanding, o);
            }
            assert(o <= i.safe_through());
        },
        None => {},
    }
    lemma_retirable(i.pending, i.safe_through(), n);
    let plan = m.retire_plan(c);
    let goal = (pkid, p.offset);
    let k = choose|k: int| 0 <= k < plan.candidates.len() && plan.candidates[k] == goal;
    assert(plan.candidates[k].1 == p.offset);
    crate::listening::lemma_adjoin_contains(m.qos2.retire_inflight, c, c);
}

/// A completion that overtakes the record of the receipt is not lost: once the receipt is recorded,
/// the message is done, as if the completion had come behind it.
pub proof fn law_early_completion_counts(
    h: HubView,
    client: ClientId,
    pkid: u16,
    inf: InflightView,
    p: PendingOutView,
)
    requires
        lookup(h.sessions.inflight, client.deep_view()) == Some(inf),
        lookup(inf.pending, pkid) == Some(p),
        p.state == OutState::AwaitingPubRec,
        h.qos2.advance_inflight.contains((client.deep_view(), pkid)),
    ensures
        ({
            let c = client.deep_view();
            let early = h.after(HubCommand::PubComp { client, pkid });
            let r = early.after(
                HubCommand::Qos2OpDone {
                    client,
                    step: Qos2OpOutcome::Advance { pkid, epoch: h.epoch(c), ok: true },
                },
            );
            &&& early.sessions == h.sessions
            &&& early.effects == h.effects
            &&& lookup(r.inf(c).pending, pkid) == Some(
                PendingOutView { state: OutState::CompletedQos2, ..p },
            )
        }),
{
    broadcast use crate::assoc::lemma_lookup_put;

    reveal(HubView::after);
    let c = client.deep_view();
    crate::listening::lemma_adjoin_contains(h.qos2.held_pubcomp, (c, pkid), (c, pkid));
    let early = h.after(HubCommand::PubComp { client, pkid });
    let h1 = early.job_finished(c);
    let h2 = h1.with_qos2(
        crate::qos2::Qos2View {
            advance_inflight: crate::assoc::without(h1.qos2.advance_inflight, (c, pkid)),
            held_pubcomp: crate::assoc::without(h1.qos2.held_pubcomp, (c, pkid)),
            ..h1.qos2
        },
    );
    let h3 = h2.releasing(c, pkid);
    let released = PendingOutView { state: OutState::AwaitingPubComp, ..p };
    assert(h3.held_by(c, pkid) == Some(released));
    let h4 = h3.marking(c, pkid);
    assert(h4.held_by(c, pkid) == Some(
        PendingOutView { state: OutState::CompletedQos2, ..released },
    ));
    assert(h4.retiring(c).sessions.inflight == h4.sessions.inflight);
}

proof fn lemma_freed(inf: InflightView, pkids: Seq<u16>, id: u16)
    ensures
        ({
            let r = inf.freed(pkids);
            &&& lookup(r.pending, id) == if pkids.contains(id) && (lookup(
                inf.pending,
                id,
            ) matches Some(p) && p.state == OutState::CompletedQos2) {
                None
            } else {
                lookup(inf.pending, id)
            }
            &&& r.backlog == inf.backlog
        }),
    decreases pkids.len(),
{
    broadcast use crate::assoc::lemma_lookup_cut;

    if pkids.len() > 0 {
        let t = pkids.drop_last();
        let last = pkids.last();
        lemma_freed(inf, t, id);
        lemma_freed(inf, t, last);
        assert(pkids[pkids.len() - 1] == last);
        if pkids.contains(id) && id != last {
            let i = choose|i: int| 0 <= i < pkids.len() && pkids[i] == id;
            assert(t[i] == id);
        }
        if t.contains(id) {
            let i = choose|i: int| 0 <= i < t.len() && t[i] == id;
            assert(pkids[i] == id);
        }
    }
}

proof fn lemma_orphans_gone(inf: InflightView, pkids: Seq<u16>, id: u16)
    ensures
        ({
            let r = inf.orphans_gone(pkids);
            &&& r.pending == inf.pending
            &&& r.backlog == inf.backlog
            &&& lookup(r.orphaned_qos2, id) == if pkids.contains(id) {
                None
            } else {
                lookup(inf.orphaned_qos2, id)
            }
            &&& r.orphaned_qos2_cleanup.contains(id) <==> inf.orphaned_qos2_cleanup.contains(id)
                && !pkids.contains(id)
        }),
    decreases pkids.len(),
{
    broadcast use crate::assoc::lemma_lookup_cut;

    if pkids.len() > 0 {
        let t = pkids.drop_last();
        let last = pkids.last();
        lemma_orphans_gone(inf, t, id);
        crate::listening::lemma_without_contains(
            inf.orphans_gone(t).orphaned_qos2_cleanup,
            last,
            id,
        );
        assert(pkids[pkids.len() - 1] == last);
        if pkids.contains(id) && id != last {
            let i = choose|i: int| 0 <= i < pkids.len() && pkids[i] == id;
            assert(t[i] == id);
        }
        if t.contains(id) {
            let i = choose|i: int| 0 <= i < t.len() && t[i] == id;
            assert(pkids[i] == id);
        }
    }
}

/// What the store has given up is free: a packet id whose message is done and that the store has
/// cleared is held no more, one left behind by an earlier session is forgotten once it is cleared,
/// and every other one is as it was. Nobody waits for a turn here.
pub proof fn law_retired_is_free(
    h: HubView,
    client: ClientId,
    r: Qos2RetireResult,
    inf: InflightView,
    id: u16,
)
    requires
        r.deep_view().client == client.deep_view(),
        r.deep_view().epoch == h.epoch(client.deep_view()),
        lookup(h.sessions.inflight, client.deep_view()) == Some(inf),
        inf.backlog.len() == 0,
    ensures
        ({
            let c = client.deep_view();
            let v = r.deep_view();
            let i = h.after(
                HubCommand::Qos2OpDone { client, step: Qos2OpOutcome::Retire(r) },
            ).inf(c);
            &&& lookup(i.pending, id) == if v.cleared.contains(id) && (lookup(
                inf.pending,
                id,
            ) matches Some(p) && p.state == OutState::CompletedQos2) {
                None
            } else {
                lookup(inf.pending, id)
            }
            &&& lookup(i.orphaned_qos2, id) == if v.orphans_cleared.contains(id) {
                None
            } else {
                lookup(inf.orphaned_qos2, id)
            }
            &&& i.acked_through == (if v.durable matches Some(t) && t > inf.acked_through {
                v.durable->Some_0
            } else {
                inf.acked_through
            })
        }),
{
    broadcast use crate::assoc::lemma_lookup_put;

    reveal(HubView::after);
    let c = client.deep_view();
    let v = r.deep_view();
    lemma_freed(inf.truncated(v.durable), v.cleared, id);
    lemma_orphans_gone(inf.truncated(v.durable).freed(v.cleared), v.orphans_cleared, id);
    lemma_freed_keeps(inf.truncated(v.durable), v.cleared);
    lemma_orphans_gone_keeps(
        inf.truncated(v.durable).freed(v.cleared),
        v.orphans_cleared,
    );
    let done = h.after(HubCommand::Qos2OpDone { client, step: Qos2OpOutcome::Retire(r) });
    assert(done.inf(c) == inf.retired(v));
}

proof fn lemma_freed_keeps(inf: InflightView, pkids: Seq<u16>)
    ensures
        inf.freed(pkids) == (InflightView { pending: inf.freed(pkids).pending, ..inf }),
    decreases pkids.len(),
{
    if pkids.len() > 0 {
        lemma_freed_keeps(inf, pkids.drop_last());
    }
}

proof fn lemma_orphans_gone_keeps(inf: InflightView, pkids: Seq<u16>)
    ensures
        inf.orphans_gone(pkids).acked_through == inf.acked_through,
    decreases pkids.len(),
{
    if pkids.len() > 0 {
        lemma_orphans_gone_keeps(inf, pkids.drop_last());
    }
}

proof fn lemma_retirable_only(pending: Seq<(u16, PendingOutView)>, safe: u64, k: int) -> (i: int)
    requires
        0 <= k < retirable(pending, safe).len(),
    ensures
        0 <= i < pending.len(),
        pending[i].0 == retirable(pending, safe)[k].0,
        pending[i].1.offset == retirable(pending, safe)[k].1,
        pending[i].1.state == OutState::CompletedQos2,
        pending[i].1.offset matches Some(o) ==> o <= safe,
    decreases pending.len(),
{
    let t = pending.drop_last();
    let rest = retirable(t, safe);
    if k < rest.len() {
        let i = lemma_retirable_only(t, safe, k);
        assert(pending[i] == t[i]);
        i
    } else {
        pending.len() - 1
    }
}

/// Nothing is given up that is still owed: what the store is asked to give up is a packet id whose
/// message is done, and neither its place in the durable queue nor anything the queue is truncated
/// through stands at or behind a message that the client has not acknowledged.
pub proof fn law_only_done_is_retired(
    h: HubView,
    client: Seq<char>,
    inf: InflightView,
    k: int,
    owed: u64,
)
    requires
        lookup(h.sessions.inflight, client) == Some(inf),
        inf.outstanding.contains(owed),
    ensures
        ({
            let plan = h.retire_plan(client);
            &&& plan.client == client
            &&& plan.epoch == h.epoch(client)
            &&& plan.up_to matches Some(t) ==> t < owed
            &&& 0 <= k < plan.candidates.len() ==> (exists|i: int|
                0 <= i < inf.pending.len() && (#[trigger] inf.pending[i]).0
                    == plan.candidates[k].0 && inf.pending[i].1.state == OutState::CompletedQos2
                    && inf.pending[i].1.offset == plan.candidates[k].1) && (
            plan.candidates[k].1 matches Some(o) ==> o < owed || o == 0)
        }),
{
    crate::inflight::lemma_least(inf.outstanding, owed);
    let plan = h.retire_plan(client);
    if 0 <= k < plan.candidates.len() {
        let i = lemma_retirable_only(inf.pending, inf.safe_through(), k);
        assert(inf.pending[i].0 == plan.candidates[k].0);
    }
}

} // verus!
