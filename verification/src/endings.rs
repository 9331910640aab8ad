//! How sessions begin and end: what a fresh start and a discarded session leave behind, what
//! becomes of a session whose connection ends, and who hears of a will.

use vstd::prelude::*;

use crate::assoc::{bound, cut, lookup};
use crate::dispatch::HubCommand;
use crate::effects::EffectView;
use crate::forwarding::gate_of;
use crate::hub::{HubView, RoutingView, SessionsView};
use crate::ids::ClientId;
use crate::inflight::{BacklogView, InflightView};
use crate::lanes::{GateView, LaneJobView, WorkView};
use crate::listening::{belongs, flagged, listens, same_wish};
use crate::message::{MessageView, PublicationView};
use crate::qos::{weaker, QoS};

use crate::session::{OnlineView, PendingAttach, SESSION_EXPIRY_NEVER};
use crate::shared::{KeyView, Matches};

verus! {

/// Whether nothing is left of the session of `client`: no subscription, no wish that came with
/// one, no place in a group, nothing on its way to it, no deadline, and no step under way.
pub open spec fn forgotten(h: HubView, client: Seq<char>) -> bool {
    &&& lookup(h.routing.subs_by_client, client) is None
    &&& forall|f: Seq<char>| !#[trigger] listens(h.routing, client, f)
    &&& forall|f: Seq<char>| !#[trigger] flagged(h.routing.no_local, client, f)
    &&& forall|f: Seq<char>| !#[trigger] flagged(h.routing.retain_as_published, client, f)
    &&& forall|key: KeyView| !#[trigger] belongs(h.routing.shared, client, key)
    &&& lookup(h.sessions.inflight, client) is None
    &&& lookup(h.sessions.session_expiry, client) is None
    &&& lookup(h.sessions.expiring, client) is None
    &&& forall|pkid: u16| !#[trigger] h.qos2.advance_inflight.contains((client, pkid))
    &&& forall|pkid: u16| !#[trigger] h.qos2.held_pubcomp.contains((client, pkid))
    &&& !h.qos2.cleanup.contains(client)
    &&& !h.qos2.retire_inflight.contains(client)
}

/// Whether the session of `d` is in `b` what it is in `a`.
pub open spec fn untouched(a: HubView, b: HubView, d: Seq<char>) -> bool {
    &&& forall|f: Seq<char>| #[trigger] same_wish(a.routing, b.routing, d, f)
    &&& forall|key: KeyView| #[trigger]
        belongs(a.routing.shared, d, key) == belongs(b.routing.shared, d, key)
    &&& lookup(a.sessions.inflight, d) == lookup(b.sessions.inflight, d)
    &&& lookup(a.sessions.session_expiry, d) == lookup(b.sessions.session_expiry, d)
    &&& lookup(a.sessions.expiring, d) == lookup(b.sessions.expiring, d)
    &&& forall|pkid: u16| #[trigger]
        a.qos2.advance_inflight.contains((d, pkid)) == b.qos2.advance_inflight.contains((d, pkid))
    &&& forall|pkid: u16| #[trigger]
        a.qos2.held_pubcomp.contains((d, pkid)) == b.qos2.held_pubcomp.contains((d, pkid))
    &&& a.qos2.cleanup.contains(d) == b.qos2.cleanup.contains(d)
    &&& a.qos2.retire_inflight.contains(d) == b.qos2.retire_inflight.contains(d)
    &&& a.epoch(d) == b.epoch(d)
}

proof fn lemma_kept_by<T>(s: Seq<T>, keep: spec_fn(T) -> bool, x: T)
    ensures
        s.filter(keep).contains(x) <==> s.contains(x) && keep(x),
{
    if s.filter(keep).contains(x) {
        let i = choose|i: int| 0 <= i < s.filter(keep).len() && s.filter(keep)[i] == x;
        crate::ledger::lemma_filter_keeps(s, keep, i);
    }
    if s.contains(x) && keep(x) {
        let i = choose|i: int| 0 <= i < s.len() && s[i] == x;
        s.lemma_filter_contains(keep, i);
    }
}

pub proof fn lemma_discarding_local(h: HubView, client: Seq<char>, d: Seq<char>)
    ensures
        ({
            let r = h.discarding_local(client);
            &&& forgotten(r, client)
            &&& d != client ==> untouched(h, r, d)
            &&& r.epoch(client) != h.epoch(client)
            &&& r.sessions.online == h.sessions.online
            &&& r.effects == h.effects
        }),
{
    broadcast use crate::assoc::lemma_lookup_cut, crate::assoc::lemma_lookup_put;

    let r = h.discarding_local(client);
    let g = h.routing.shared;
    assert forall|x: Seq<char>, f: Seq<char>| #[trigger] listens(r.routing, x, f) == (listens(
        h.routing,
        x,
        f,
    ) && x != client) by {
        lemma_kept_by(h.routing.table, crate::subscriptions::not_of(client), (f, x));
    }
    assert forall|x: Seq<char>, key: KeyView| #[trigger] belongs(r.routing.shared, x, key) == (
    belongs(g, x, key) && x != client) by {
        crate::listening::lemma_leave_all(g, client, x, key);
    }
    assert forall|x: Seq<char>, pkid: u16| #[trigger]
        r.qos2.advance_inflight.contains((x, pkid)) == (h.qos2.advance_inflight.contains((x, pkid))
            && x != client) by {
        lemma_kept_by(
            h.qos2.advance_inflight,
            crate::exactly_once::not_of_client(client),
            (x, pkid),
        );
    }
    assert forall|x: Seq<char>, pkid: u16| #[trigger]
        r.qos2.held_pubcomp.contains((x, pkid)) == (h.qos2.held_pubcomp.contains((x, pkid)) && x
            != client) by {
        lemma_kept_by(h.qos2.held_pubcomp, crate::exactly_once::not_of_client(client), (x, pkid));
    }
    crate::listening::lemma_without_contains(h.qos2.cleanup, client, client);
    crate::listening::lemma_without_contains(h.qos2.cleanup, client, d);
    crate::listening::lemma_without_contains(h.qos2.retire_inflight, client, client);
    crate::listening::lemma_without_contains(h.qos2.retire_inflight, client, d);
    if d != client {
        assert forall|f: Seq<char>| #[trigger] same_wish(h.routing, r.routing, d, f) by {
            assert(listens(r.routing, d, f) == listens(h.routing, d, f));
        }
        assert forall|key: KeyView| #[trigger]
            belongs(h.routing.shared, d, key) == belongs(r.routing.shared, d, key) by {
            assert(belongs(r.routing.shared, d, key) == belongs(g, d, key));
        }
        assert forall|pkid: u16| #[trigger]
            h.qos2.advance_inflight.contains((d, pkid)) == r.qos2.advance_inflight.contains(
                (d, pkid),
            ) by {
            assert(r.qos2.advance_inflight.contains((d, pkid))
                == h.qos2.advance_inflight.contains((d, pkid)));
        }
        assert forall|pkid: u16| #[trigger]
            h.qos2.held_pubcomp.contains((d, pkid)) == r.qos2.held_pubcomp.contains((d, pkid)) by {
            assert(r.qos2.held_pubcomp.contains((d, pkid)) == h.qos2.held_pubcomp.contains(
                (d, pkid),
            ));
        }
    }
}

/// Whoever starts anew starts with nothing: no subscription, no place in a group, nothing on its
/// way and no step under way is left of the session before, what was under way for it is told
/// apart from what comes, and the store is asked to remove it before the attach goes on. Nobody
/// else's session is touched.
pub proof fn law_clean_start(h: HubView, pending: PendingAttach, d: Seq<char>)
    ensures
        ({
            let p = pending.deep_view();
            let r = h.after(HubCommand::Attach { pending, clean_start: true });
            &&& forgotten(r, p.client)
            &&& r.epoch(p.client) != h.epoch(p.client)
            &&& d != p.client ==> untouched(h, r, d)
            &&& r.sessions.online == h.sessions.online
            &&& lookup(r.sessions.connecting, d) == if d == p.client {
                Some(p.conn_id)
            } else {
                lookup(h.sessions.connecting, d)
            }
            &&& r.effects.len() == h.effects.len() + 1
            &&& r.effects.last() == (EffectView::Lane {
                client: p.client,
                job: LaneJobView::Discard(p),
            }) || r.effects.last() == (EffectView::Discard { pending: p })
        }),
{
    broadcast use crate::assoc::lemma_lookup_cut, crate::assoc::lemma_lookup_put;

    reveal(HubView::after);
    let p = pending.deep_view();
    let h1 = h.with_sessions(
        SessionsView {
            expiring: cut(h.sessions.expiring, p.client),
            ..h.sessions
        },
    );
    lemma_discarding_local(h1, p.client, d);
    let h2 = h1.discarding_local(p.client);
    let r = h.after(HubCommand::Attach { pending, clean_start: true });
    assert(r.routing == h2.routing);
    assert(r.qos2 == h2.qos2);
    if d != p.client {
        assert(untouched(h1, h2, d));
        assert forall|f: Seq<char>| #[trigger] same_wish(h.routing, r.routing, d, f) by {
            assert(same_wish(h1.routing, h2.routing, d, f));
        }
        assert forall|key: KeyView| #[trigger]
            belongs(h.routing.shared, d, key) == belongs(r.routing.shared, d, key) by {
            assert(belongs(h1.routing.shared, d, key) == belongs(h2.routing.shared, d, key));
        }
        assert forall|pkid: u16| #[trigger]
            h.qos2.advance_inflight.contains((d, pkid)) == r.qos2.advance_inflight.contains(
                (d, pkid),
            ) by {
            assert(h1.qos2.advance_inflight.contains((d, pkid))
                == h2.qos2.advance_inflight.contains((d, pkid)));
        }
        assert forall|pkid: u16| #[trigger]
            h.qos2.held_pubcomp.contains((d, pkid)) == r.qos2.held_pubcomp.contains((d, pkid)) by {
            assert(h1.qos2.held_pubcomp.contains((d, pkid)) == h2.qos2.held_pubcomp.contains(
                (d, pkid),
            ));
        }
    }
}

/// Whoever comes back keeps what it had: nothing is touched before its session is read but the
/// clock of the session, and the session is read.
pub proof fn law_resumed_start(h: HubView, pending: PendingAttach, d: Seq<char>)
    ensures
        ({
            let p = pending.deep_view();
            let r = h.after(HubCommand::Attach { pending, clean_start: false });
            &&& r.routing == h.routing
            &&& r.qos2 == h.qos2
            &&& r.sessions.online == h.sessions.online
            &&& r.sessions.inflight == h.sessions.inflight
            &&& r.sessions.session_expiry == h.sessions.session_expiry
            &&& lookup(r.sessions.expiring, d) == if d == p.client {
                None
            } else {
                lookup(h.sessions.expiring, d)
            }
            &&& lookup(r.sessions.connecting, d) == if d == p.client {
                Some(p.conn_id)
            } else {
                lookup(h.sessions.connecting, d)
            }
            &&& r.effects == h.effects.push(EffectView::Recover { pending: p })
        }),
{
    broadcast use crate::assoc::lemma_lookup_cut, crate::assoc::lemma_lookup_put;

    reveal(HubView::after);
}

// What a publish leaves alone.

/// Whether `b` has the deadlines, the attaches and the steps under way that `a` has.
pub open spec fn steady(a: HubView, b: HubView) -> bool {
    &&& b.sessions.expiring == a.sessions.expiring
    &&& b.sessions.connecting == a.sessions.connecting
    &&& b.sessions.session_expiry == a.sessions.session_expiry
    &&& b.qos2 == a.qos2
    &&& b.now == a.now
    &&& b.quotas == a.quotas
    &&& b.instant == a.instant
    &&& b.routing == (RoutingView { shared_cursor: b.routing.shared_cursor, ..a.routing })
}

proof fn lemma_draining_steady(h: HubView, client: Seq<char>, n: nat)
    ensures
        steady(h, h.draining(client, n)),
    decreases n,
{
    if n > 0 && h.is_online(client) {
        match lookup(h.sessions.inflight, client) {
            Some(inf) => {
                if !(inf.is_full() || inf.records_pending > 0 || inf.backlog.len() == 0) {
                    let popped = h.with_inf(
                        client,
                        InflightView { backlog: inf.backlog.skip(1), ..inf },
                    );
                    let sent = popped.sending_qos(client, inf.backlog[0]).0;
                    lemma_draining_steady(sent, client, (n - 1) as nat);
                }
            },
            None => {},
        }
    }
}

proof fn lemma_to_client_steady(h: HubView, client: Seq<char>, e: BacklogView)
    ensures
        steady(h, h.to_client(client, e)),
{
    let h1 = if e.offset is Some && e.message.qos != QoS::AtMostOnce {
        h.with_inf(client, h.inf(client).tracking(e.offset->Some_0))
    } else {
        h
    };
    let h2 = h1.queueing(client, e);
    lemma_draining_steady(h2, client, h2.inf(client).backlog.len());
}

proof fn lemma_delivering_steady(
    h: HubView,
    client: Seq<char>,
    p: PublicationView,
    qos: QoS,
    retain: bool,
    gate: GateView,
)
    ensures
        steady(h, h.delivering(client, p, qos, retain, gate).0),
{
    let m = p.message(qos, retain, h.now);
    let e = BacklogView {
        message: m,
        retain: m.retain,
        message_expiry: p.message_expiry,
        offset: None,
    };
    lemma_to_client_steady(h, client, e);
    let h1 = h.appending(client, m, p.message_expiry, gate, h.conn_of(client)).0;
    lemma_to_client_steady(h1, client, e);
}

proof fn lemma_delivering_all_steady(
    h: HubView,
    p: PublicationView,
    targets: crate::delivery::Targets,
    gate: GateView,
)
    ensures
        steady(h, h.delivering_all(p, targets, gate).0),
    decreases targets.len(),
{
    if targets.len() > 0 {
        let t = targets.last();
        lemma_delivering_all_steady(h, p, targets.drop_last(), gate);
        let h1 = h.delivering_all(p, targets.drop_last(), gate).0;
        lemma_delivering_steady(h1, t.0, p, weaker(p.qos, t.1), t.2, gate);
    }
}

proof fn lemma_sharing_all_steady(h: HubView, p: PublicationView, gate: Option<u64>, m: Matches)
    ensures
        steady(h, h.sharing_all(p, gate, m).0),
    decreases m.len(),
{
    if m.len() > 0 {
        lemma_sharing_all_steady(h, p, gate, m.drop_last());
        let h1 = h.sharing_all(p, gate, m.drop_last()).0;
        let (key, cs) = m.last();
        match h1.pick(key, cs) {
            Some(x) => {
                lemma_delivering_steady(
                    h1.turning(key, cs.len()),
                    x.client,
                    p,
                    weaker(p.qos, x.qos),
                    false,
                    gate_of(gate),
                );
            },
            None => {},
        }
    }
}

proof fn lemma_forwarding_steady(h: HubView, id: u64, nodes: Seq<Seq<char>>)
    ensures
        steady(h, h.forwarding_each(id, nodes)),
    decreases nodes.len(),
{
    if nodes.len() > 0 {
        lemma_forwarding_steady(h, id, nodes.drop_last());
    }
}

proof fn lemma_fanning_steady(h: HubView, p: PublicationView, gate: Option<u64>)
    ensures
        steady(h, h.fanning_out(p, gate)),
{
    if gate is Some {
        lemma_forwarding_steady(h, gate->Some_0, h.cluster.interest.wanting(p.topic));
    }
}

proof fn lemma_committing_steady(h: HubView, p: PublicationView, gate: Option<u64>)
    ensures
        steady(h, h.committing(p, gate)),
{
}

proof fn lemma_applying_steady(
    h: HubView,
    p: PublicationView,
    publisher: Option<Seq<char>>,
    gate: GateView,
)
    ensures
        steady(h, h.applying(p, publisher, gate).0),
{
    lemma_delivering_all_steady(
        h.keeping(p, gate),
        p,
        h.targets(p.topic, publisher, p.retain),
        gate,
    );
}

proof fn lemma_steady(a: HubView, b: HubView, c: HubView)
    requires
        steady(a, b),
        steady(b, c),
    ensures
        steady(a, c),
{
}

pub proof fn lemma_publishing_steady(
    h: HubView,
    p: PublicationView,
    publisher: Option<Seq<char>>,
    gate: Option<u64>,
)
    ensures
        steady(h, h.publishing(p, publisher, gate).0),
{
    let g = gate_of(gate);
    let h1 = h.applying(p, publisher, g).0;
    let h2 = h1.sharing_all(p, gate, h1.shared_matches(p.topic)).0;
    let h3 = h2.fanning_out(p, gate);
    let h4 = if p.retain {
        h3.committing(p, gate)
    } else {
        h3
    };
    let r = h.publishing(p, publisher, gate).0;
    lemma_applying_steady(h, p, publisher, g);
    lemma_sharing_all_steady(h1, p, gate, h1.shared_matches(p.topic));
    lemma_fanning_steady(h2, p, gate);
    lemma_committing_steady(h3, p, gate);
    lemma_steady(h, h1, h2);
    lemma_steady(h, h2, h3);
    assert(steady(h3, h4));
    lemma_steady(h, h3, h4);
    lemma_publishing_end(h, p, publisher, gate);
}

proof fn lemma_publishing_end(
    h: HubView,
    p: PublicationView,
    publisher: Option<Seq<char>>,
    gate: Option<u64>,
)
    ensures
        ({
            let g = gate_of(gate);
            let h1 = h.applying(p, publisher, g).0;
            let h2 = h1.sharing_all(p, gate, h1.shared_matches(p.topic)).0;
            let h3 = h2.fanning_out(p, gate);
            let h4 = if p.retain {
                h3.committing(p, gate)
            } else {
                h3
            };
            let r = h.publishing(p, publisher, gate).0;
            r == h || r == h1 || r == (HubView { ledger: r.ledger, ..h4 })
        }),
{
}

// The end of a connection.

/// Whether `b` has what everybody subscribes to as `a` has it.
pub open spec fn same_routing(a: HubView, b: HubView) -> bool {
    b.routing == (RoutingView { shared_cursor: b.routing.shared_cursor, ..a.routing })
}

/// Whether `e` has the store remove the session of `client`.
pub open spec fn removes(e: EffectView, client: Seq<char>) -> bool {
    e == (EffectView::Lane { client, job: LaneJobView::Remove { client } }) || e == (
    EffectView::RemoveSession { client })
}

/// Whether `e` hands a message that waited for `client` to the store, with its deadline.
pub open spec fn saves(
    e: EffectView,
    client: Seq<char>,
    m: MessageView,
    expiry_at: Option<u64>,
) -> bool {
    e matches EffectView::Lane { client: c, job: LaneJobView::Deliver(job) } && c == client
        && job.client == client && (job.work matches WorkView::Spill { entries }
        && entries.contains((m, expiry_at)))
}

/// The deadline of an interval of `secs` seconds that starts at `now`.
pub open spec fn ends_at(now: u64, secs: u32) -> u64 {
    if now + secs > u64::MAX {
        u64::MAX
    } else {
        (now + secs) as u64
    }
}

proof fn lemma_gossip_is_frames(
    peers: Seq<(Seq<char>, crate::cluster::PeerView)>,
    filters: Seq<Seq<char>>,
    groups: Seq<crate::wire::SharedGroupWireView>,
    i: int,
)
    requires
        0 <= i < crate::peers::gossip_frames(peers, filters, groups).len(),
    ensures
        crate::peers::gossip_frames(peers, filters, groups)[i] is Frame,
    decreases peers.len(),
{
    if peers.len() > 0 {
        let rest = crate::peers::gossip_frames(peers.drop_last(), filters, groups);
        if i < rest.len() {
            lemma_gossip_is_frames(peers.drop_last(), filters, groups, i);
        }
    }
}

/// Whether `b` goes on from `a` without a packet to anybody.
pub open spec fn silent(a: HubView, b: HubView) -> bool {
    &&& crate::reach::grows(a, b)
    &&& forall|k: int|
        a.effects.len() <= k < b.effects.len() ==> !(#[trigger] b.effects[k] is Packet)
}

proof fn lemma_silent(a: HubView, b: HubView, c: HubView)
    requires
        silent(a, b),
        silent(b, c),
    ensures
        silent(a, c),
{
    crate::reach::lemma_grows(a, b, c);
    assert forall|k: int| a.effects.len() <= k < c.effects.len() implies !(
    #[trigger] c.effects[k] is Packet) by {
        if k < b.effects.len() {
            assert(c.effects[k] == c.effects.take(b.effects.len() as int)[k]);
        }
    }
}

proof fn lemma_silent_push(a: HubView, b: HubView)
    requires
        b.effects == a.effects || (exists|e: EffectView|
            b.effects == #[trigger] a.effects.push(e) && !(e is Packet)),
    ensures
        silent(a, b),
{
    assert(b.effects.take(a.effects.len() as int) =~= a.effects);
}

pub proof fn lemma_discarding(h: HubView, client: Seq<char>, d: Seq<char>)
    ensures
        ({
            let r = h.discarding(client).gossiping();
            &&& forgotten(r, client)
            &&& d != client ==> untouched(h, r, d) && crate::reach::same_for(h, r, d)
            &&& r.sessions.online == h.sessions.online
            &&& silent(h, r)
            &&& r.effects.len() > h.effects.len()
            &&& removes(r.effects[h.effects.len() as int], client)
            &&& r.retained == h.retained
            &&& r.cluster == h.cluster
        }),
{
    broadcast use crate::assoc::lemma_lookup_cut, crate::assoc::lemma_lookup_put;

    lemma_discarding_local(h, client, d);
    let h1 = h.discarding_local(client);
    let h2 = h.discarding(client);
    let r = h2.gossiping();
    assert(h2.effects == h1.effects.push(h2.effects.last()));
    lemma_silent_push(h, h2);
    let said = crate::peers::gossip_frames(
        h2.cluster.peers,
        h2.local_interest(),
        h2.local_groups(),
    );
    assert(r.effects == h2.effects + said);
    crate::reach::lemma_grows_by(h2, r, said);
    assert forall|k: int| h2.effects.len() <= k < r.effects.len() implies !(
    #[trigger] r.effects[k] is Packet) by {
        lemma_gossip_is_frames(
            h2.cluster.peers,
            h2.local_interest(),
            h2.local_groups(),
            k - h2.effects.len(),
        );
    }
    lemma_silent(h, h2, r);
    assert(forgotten(r, client));
}

proof fn lemma_spilled(b: Seq<BacklogView>, now: u64, i: int)
    requires
        0 <= i < b.len(),
        b[i].offset is None,
        b[i].message.qos != QoS::AtMostOnce,
    ensures
        crate::completions::spilled(b, now).contains(
            (
                b[i].message,
                match b[i].message_expiry {
                    Some(secs) => Some(ends_at(now, secs)),
                    None => None,
                },
            ),
        ),
    decreases b.len(),
{
    let t = b.drop_last();
    let rest = crate::completions::spilled(t, now);
    let all = crate::completions::spilled(b, now);
    let goal = (
        b[i].message,
        match b[i].message_expiry {
            Some(secs) => Some(ends_at(now, secs)),
            None => None,
        },
    );
    if i < t.len() {
        assert(t[i] == b[i]);
        lemma_spilled(t, now, i);
        let k = choose|k: int| 0 <= k < rest.len() && rest[k] == goal;
        assert(all[k] == goal);
    } else {
        assert(all[rest.len() as int] == goal);
    }
}

/// What `parting` comes to, whatever was done before it.
pub proof fn lemma_parting(h: HubView, client: Seq<char>, d: Seq<char>, i: int)
    ensures
        ({
            let r = h.parting(client);
            let secs = lookup(h.sessions.session_expiry, client);
            &&& r.sessions.online == h.sessions.online
            &&& silent(h, r)
            &&& r.retained == h.retained
            &&& r.cluster == h.cluster
            &&& d != client ==> untouched(h, r, d) && crate::reach::same_for(h, r, d)
            &&& (secs is None || secs == Some(0u32)) ==> forgotten(r, client) && r.effects.len()
                > h.effects.len() && removes(r.effects[h.effects.len() as int], client)
            &&& secs is Some && secs != Some(0u32) ==> r.routing == h.routing && r.qos2 == h.qos2
                && r.sessions.session_expiry == h.sessions.session_expiry && r.inf(
                client,
            ).pending == h.inf(client).pending && r.inf(client).backlog.len() == 0
            &&& secs == Some(SESSION_EXPIRY_NEVER) ==> r.sessions.expiring == h.sessions.expiring
            &&& secs is Some && secs != Some(0u32) && secs != Some(SESSION_EXPIRY_NEVER) ==> {
                let at = ends_at(h.now, secs->Some_0);
                &&& lookup(r.sessions.expiring, d) == if d == client {
                    Some(at)
                } else {
                    lookup(h.sessions.expiring, d)
                }
                &&& r.effects.contains(
                    EffectView::SetSessionExpiry { client, deadline: Some(at) },
                )
            }
            &&& secs is Some && secs != Some(0u32) && 0 <= i < h.inf(client).backlog.len()
                && h.inf(client).backlog[i].offset is None && h.inf(client).backlog[i].message.qos
                != QoS::AtMostOnce && h.lane(client).takes_control() ==> exists|k: int|
                h.effects.len() <= k < r.effects.len() && saves(
                    #[trigger] r.effects[k],
                    client,
                    h.inf(client).backlog[i].message,
                    match h.inf(client).backlog[i].message_expiry {
                        Some(n) => Some(ends_at(h.now, n)),
                        None => None,
                    },
                )
        }),
{
    broadcast use crate::assoc::lemma_lookup_cut, crate::assoc::lemma_lookup_put;

    let r = h.parting(client);
    let secs = lookup(h.sessions.session_expiry, client);
    if secs is None || secs == Some(0u32) {
        lemma_discarding(h, client, d);
    } else {
        let h1 = h.flushed(client);
        let b = h.inf(client).backlog;
        match lookup(h.sessions.inflight, client) {
            Some(inf) => {
                if inf.backlog.len() > 0 && crate::completions::spilled(inf.backlog, h.now).len()
                    > 0 {
                    if h.lane(client).takes_control() {
                        assert(h1.effects == h.effects.push(h1.effects.last()));
                    }
                }
            },
            None => {},
        }
        lemma_silent_push(h, h1);
        lemma_silent_push(h1, r);
        lemma_silent(h, h1, r);
        assert(r.routing == h.routing);
        if secs != Some(SESSION_EXPIRY_NEVER) {
            assert(r.effects[h1.effects.len() as int] == (EffectView::SetSessionExpiry {
                client,
                deadline: Some(ends_at(h.now, secs->Some_0)),
            }));
        }
        if 0 <= i < b.len() && b[i].offset is None && b[i].message.qos != QoS::AtMostOnce
            && h.lane(client).takes_control() {
            lemma_spilled(b, h.now, i);
            let entries = crate::completions::spilled(b, h.now);
            assert(entries.len() > 0);
            let k = h.effects.len() as int;
            assert(h1.effects.len() == h.effects.len() + 1);
            assert(r.effects[k] == h1.effects[k]);
            assert(saves(
                r.effects[k],
                client,
                b[i].message,
                match b[i].message_expiry {
                    Some(n) => Some(ends_at(h.now, n)),
                    None => None,
                },
            ));
        }
        if d != client {
            assert forall|f: Seq<char>| #[trigger] same_wish(h.routing, r.routing, d, f) by {}
        }
    }
}

/// The hub with the connection of `client` cut, and its will published where it is due.
pub open spec fn disconnected(h: HubView, client: Seq<char>, o: OnlineView, graceful: bool) -> HubView {
    let h1 = h.with_online(cut(h.sessions.online, client)).doing(
        EffectView::Close { conn: o.conn_id },
    );
    match o.will {
        Some(w) => if graceful {
            h1
        } else {
            h1.willing(w)
        },
        None => h1,
    }
}

pub proof fn lemma_disconnected(
    h: HubView,
    client: Seq<char>,
    o: OnlineView,
    graceful: bool,
)
    ensures
        ({
            let r = disconnected(h, client, o, graceful);
            &&& steady(h, r)
            &&& lookup(r.sessions.online, client) is None
            &&& lookup(r.sessions.inflight, client) == lookup(h.sessions.inflight, client)
            &&& crate::reach::grows(h, r)
            &&& r.effects.len() > h.effects.len()
            &&& r.effects[h.effects.len() as int] == (EffectView::Close { conn: o.conn_id })
        }),
{
    broadcast use crate::assoc::lemma_lookup_cut;

    let e = EffectView::Close { conn: o.conn_id };
    let h1 = h.with_online(cut(h.sessions.online, client)).doing(e);
    let r = disconnected(h, client, o, graceful);
    crate::reach::lemma_grows_by(h, h1, seq![e]);
    assert(h1.effects =~= h.effects + seq![e]);
    match o.will {
        Some(w) => {
            let p = PublicationView { message_expiry: None, ..w };
            lemma_publishing_steady(h1, p, None, None);
            crate::exchange::lemma_publishing_away(h1, p, None, None, client);
            lemma_ungated(h1, p);
            crate::reach::lemma_publishing_grows(h1, p, None, None);
            let applied = h1.applying(p, None, gate_of(None)).0;
            crate::reach::lemma_delivering_all_reach(
                h1.keeping(p, gate_of(None)),
                p,
                h1.targets(p.topic, None, p.retain),
                gate_of(None),
                client,
            );
            let kept = h1.keeping(p, gate_of(None));
            assert(crate::reach::grows(h1, kept)) by {
                assert(kept.effects.take(h1.effects.len() as int) =~= h1.effects);
            }
            crate::reach::lemma_grows(h1, kept, applied);
            crate::reach::lemma_grows(h1, applied, h1.willing(w));
            crate::reach::lemma_grows(h, h1, h1.willing(w));
            if !graceful {
                let n = h.effects.len() as int;
                assert(r.effects.take(h1.effects.len() as int)[n] == h1.effects[n]);
            }
        },
        None => {},
    }
}

/// A publish of nobody who is told is never refused.
pub proof fn lemma_ungated(h: HubView, p: PublicationView)
    ensures
        !(h.publishing(p, None, None).1 is Refused),
{
    crate::guarantees::lemma_refused_only_in_brownout(h, p, None, None);
}

proof fn lemma_detach(
    h: HubView,
    client: ClientId,
    conn_id: u64,
    graceful: bool,
    o: OnlineView,
)
    requires
        lookup(h.sessions.online, client.deep_view()) == Some(o),
        o.conn_id == conn_id,
    ensures
        h.after(HubCommand::Detach { client, conn_id, graceful }) == disconnected(
            h,
            client.deep_view(),
            o,
            graceful,
        ).parting(client.deep_view()),
{
    reveal(HubView::after);
}

/// A connection that ends is closed, and its client is connected no more. Where the client wanted
/// no session, nothing is left of it, here or in the store. Where it did, its subscriptions stay
/// as they are, everything on its way stays to be sent again, and the session is kept until its
/// interval has passed, for ever where the interval says so.
pub proof fn law_connection_ends(
    h: HubView,
    client: ClientId,
    conn_id: u64,
    graceful: bool,
    o: OnlineView,
)
    requires
        lookup(h.sessions.online, client.deep_view()) == Some(o),
        o.conn_id == conn_id,
    ensures
        ({
            let c = client.deep_view();
            let r = h.after(HubCommand::Detach { client, conn_id, graceful });
            let secs = lookup(h.sessions.session_expiry, c);
            &&& lookup(r.sessions.online, c) is None
            &&& r.effects.contains(EffectView::Close { conn: conn_id })
            &&& (secs is None || secs == Some(0u32)) ==> forgotten(r, c) && exists|k: int|
                0 <= k < r.effects.len() && removes(#[trigger] r.effects[k], c)
            &&& secs is Some && secs != Some(0u32) ==> same_routing(h, r) && lookup(
                r.sessions.session_expiry,
                c,
            ) == secs && r.inf(c).pending == h.inf(c).pending
            &&& secs == Some(SESSION_EXPIRY_NEVER) ==> lookup(r.sessions.expiring, c) == lookup(
                h.sessions.expiring,
                c,
            )
            &&& secs is Some && secs != Some(0u32) && secs != Some(SESSION_EXPIRY_NEVER) ==> {
                let at = ends_at(h.now, secs->Some_0);
                &&& lookup(r.sessions.expiring, c) == Some(at)
                &&& r.effects.contains(
                    EffectView::SetSessionExpiry { client: c, deadline: Some(at) },
                )
            }
        }),
{
    let c = client.deep_view();
    let h1 = disconnected(h, c, o, graceful);
    let r = h.after(HubCommand::Detach { client, conn_id, graceful });
    lemma_detach(h, client, conn_id, graceful, o);
    lemma_disconnected(h, c, o, graceful);
    lemma_parting(h1, c, c, 0);
    let n = h.effects.len() as int;
    assert(r.effects.take(h1.effects.len() as int)[n] == r.effects[n]);
    assert(r.effects[n] == (EffectView::Close { conn: conn_id }));
}

/// What waits for a client whose connection ends is not lost: a message with a guarantee that has
/// no place in the durable queue yet is handed to the store, with the deadline that is left of its
/// interval.
pub proof fn law_waiting_messages_are_saved(
    h: HubView,
    client: ClientId,
    conn_id: u64,
    graceful: bool,
    o: OnlineView,
    i: int,
)
    requires
        lookup(h.sessions.online, client.deep_view()) == Some(o),
        o.conn_id == conn_id,
        !graceful ==> o.will is None,
        lookup(h.sessions.session_expiry, client.deep_view()) matches Some(secs) && secs > 0,
        0 <= i < h.inf(client.deep_view()).backlog.len(),
        h.inf(client.deep_view()).backlog[i].offset is None,
        h.inf(client.deep_view()).backlog[i].message.qos != QoS::AtMostOnce,
        h.lane(client.deep_view()).takes_control(),
    ensures
        ({
            let c = client.deep_view();
            let r = h.after(HubCommand::Detach { client, conn_id, graceful });
            let e = h.inf(c).backlog[i];
            exists|k: int|
                h.effects.len() <= k < r.effects.len() && saves(
                    #[trigger] r.effects[k],
                    c,
                    e.message,
                    match e.message_expiry {
                        Some(n) => Some(ends_at(h.now, n)),
                        None => None,
                    },
                )
        }),
{
    let c = client.deep_view();
    let h1 = disconnected(h, c, o, graceful);
    lemma_detach(h, client, conn_id, graceful, o);
    lemma_disconnected(h, c, o, graceful);
    assert(h1.inf(c) == h.inf(c));
    assert(h1.lane(c) == h.lane(c));
    lemma_parting(h1, c, c, i);
}

/// A goodbye cancels the will: nobody is sent anything, and nobody else's session is touched.
pub proof fn law_goodbye_cancels_will(
    h: HubView,
    client: ClientId,
    conn_id: u64,
    d: Seq<char>,
)
    requires
        d != client.deep_view(),
    ensures
        ({
            let r = h.after(HubCommand::Detach { client, conn_id, graceful: true });
            &&& silent(h, r)
            &&& r.retained == h.retained
            &&& r.cluster == h.cluster
            &&& untouched(h, r, d)
            &&& crate::reach::same_for(h, r, d)
        }),
{
    broadcast use crate::assoc::lemma_lookup_cut;

    reveal(HubView::after);
    let c = client.deep_view();
    lemma_silent_push(h, h);
    assert forall|f: Seq<char>| #[trigger] same_wish(h.routing, h.routing, d, f) by {}
    match lookup(h.sessions.online, c) {
        Some(o) => {
            if o.conn_id == conn_id {
                let h1 = disconnected(h, c, o, true);
                lemma_silent_push(h, h1);
                lemma_parting(h1, c, d, 0);
                lemma_silent(h, h1, h1.parting(c));
                let r = h1.parting(c);
                assert(untouched(h1, r, d));
                assert forall|f: Seq<char>| #[trigger] same_wish(h.routing, r.routing, d, f) by {
                    assert(same_wish(h1.routing, r.routing, d, f));
                }
                assert forall|key: KeyView| #[trigger]
                    belongs(h.routing.shared, d, key) == belongs(r.routing.shared, d, key) by {
                    assert(belongs(h1.routing.shared, d, key) == belongs(
                        r.routing.shared,
                        d,
                        key,
                    ));
                }
            }
        },
        None => {},
    }
}

/// The will of a client is sent to a subscriber at once, as any live publish is.
pub open spec fn will_is_heard(
    h: HubView,
    es: Seq<EffectView>,
    w: PublicationView,
    d: Seq<char>,
    conn: u64,
) -> bool {
    exists|i: int, retain: bool, qos: QoS|
        0 <= i < es.len() && #[trigger] crate::hearing::carries(
            es[i],
            conn,
            w.topic,
            w.payload,
            false,
            retain,
            qos,
        ) && crate::hearing::says(es[i], None, w.app) && (retain <==> w.retain
            && crate::hearing::asked_for_flag(h, d, w.topic)) && crate::hearing::fits(
            h,
            d,
            w.topic,
            w.qos,
            qos,
        )
}

/// A will is heard: the connection of `client` ends, in whatever way but a goodbye, and whoever
/// subscribes to its topic and can be reached is sent it.
pub proof fn lemma_will_is_heard(
    h: HubView,
    client: Seq<char>,
    o: OnlineView,
    w: PublicationView,
    d: Seq<char>,
    q: OnlineView,
)
    requires
        o.will == Some(w),
        d != client,
        lookup(h.sessions.online, d) == Some(q),
        crate::hearing::subscribes(h, d, w.topic),
        crate::hearing::within_reach(h, PublicationView { message_expiry: None, ..w }, d),
    ensures
        will_is_heard(h, disconnected(h, client, o, false).effects, w, d, q.conn_id),
{
    broadcast use crate::assoc::lemma_lookup_cut;

    let h1 = h.with_online(cut(h.sessions.online, client)).doing(
        EffectView::Close { conn: o.conn_id },
    );
    let p = PublicationView { message_expiry: None, ..w };
    assert(lookup(h1.sessions.online, d) == Some(q));
    assert(h1.routing == h.routing);
    assert(crate::hearing::subscribes(h1, d, w.topic)) by {
        let f = choose|f: Seq<char>|
            #[trigger] listens(h.routing, d, f) && crate::topic::matches_topic(f, w.topic);
        assert(listens(h1.routing, d, f));
    }
    assert(crate::hearing::within_reach(h1, p, d)) by {
        assert(h1.inf(d) == h.inf(d));
        assert(crate::reach::turn_of(h1, p, d) == crate::reach::turn_of(h, p, d));
        assert(bound(h1.sessions.online, d) == lookup(h1.sessions.online, d) is Some);
    }
    lemma_ungated(h1, p);
    crate::hearing::law_live_publish_keeps_its_form(h1, p, None, None, d, q);
    assert(crate::hearing::asked_for_flag(h1, d, w.topic) == crate::hearing::asked_for_flag(
        h,
        d,
        w.topic,
    ));
}

/// A connection that ends without a goodbye has the will of its client published: every
/// subscriber of its topic that can be reached is sent it.
pub proof fn law_will_is_published(
    h: HubView,
    client: ClientId,
    conn_id: u64,
    o: OnlineView,
    w: PublicationView,
    d: Seq<char>,
    q: OnlineView,
)
    requires
        lookup(h.sessions.online, client.deep_view()) == Some(o),
        o.conn_id == conn_id,
        o.will == Some(w),
        d != client.deep_view(),
        lookup(h.sessions.online, d) == Some(q),
        crate::hearing::subscribes(h, d, w.topic),
        crate::hearing::within_reach(h, PublicationView { message_expiry: None, ..w }, d),
    ensures
        will_is_heard(
            h,
            h.after(HubCommand::Detach { client, conn_id, graceful: false }).effects,
            w,
            d,
            q.conn_id,
        ),
{
    lemma_detach(h, client, conn_id, false, o);
    let c = client.deep_view();
    let h1 = disconnected(h, c, o, false);
    let r = h1.parting(c);
    lemma_will_is_heard(h, c, o, w, d, q);
    lemma_parting(h1, c, d, 0);
    lemma_still_heard(h, h1, r, w, d, q.conn_id);
}

pub proof fn lemma_still_heard(
    h: HubView,
    a: HubView,
    b: HubView,
    w: PublicationView,
    d: Seq<char>,
    conn: u64,
)
    requires
        will_is_heard(h, a.effects, w, d, conn),
        crate::reach::grows(a, b),
    ensures
        will_is_heard(h, b.effects, w, d, conn),
{
    let (i, retain, qos) = choose|i: int, retain: bool, qos: QoS|
        0 <= i < a.effects.len() && #[trigger] crate::hearing::carries(
            a.effects[i],
            conn,
            w.topic,
            w.payload,
            false,
            retain,
            qos,
        ) && crate::hearing::says(a.effects[i], None, w.app) && (retain <==> w.retain
            && crate::hearing::asked_for_flag(h, d, w.topic)) && crate::hearing::fits(
            h,
            d,
            w.topic,
            w.qos,
            qos,
        );
    assert(b.effects.take(a.effects.len() as int)[i] == b.effects[i]);
    assert(crate::hearing::carries(
        b.effects[i],
        conn,
        w.topic,
        w.payload,
        false,
        retain,
        qos,
    ));
}

} // verus!
