//! What keeps the hub in bounds: what a slow connection is not sent, what finished jobs are sent
//! for, who is thrown out, and which sessions end or are taken over.

use vstd::prelude::*;

use crate::assoc::lookup;
use crate::dispatch::HubCommand;
use crate::effects::EffectView;
use crate::endings::{forgotten, untouched};
use crate::hub::HubView;
use crate::ids::ClientId;
use crate::inflight::{BacklogView, OutState, PendingOutView, MAX_OUTBOUND_QUEUE};
use crate::lanes::{AppendJob, LaneOutcome, ThenView, WorkView};
use crate::listening::{belongs, flagged, listens, same_wish};
use crate::packet::{PacketView, ProtocolVersion};
use crate::qos::QoS;
use crate::session::OnlineView;
use crate::shared::KeyView;
use crate::sweeps::SweepPolicyView;

verus! {

/// Whether connection `o` is so far behind that a message that takes `size` bytes is not sent: too
/// many packets are not written yet, or too many bytes would not be.
pub open spec fn behind(o: OnlineView, cap: Option<usize>, size: nat) -> bool {
    o.queued >= MAX_OUTBOUND_QUEUE || (cap matches Some(n) && o.queued_bytes + size > n)
}

/// A message without a guarantee is sent to a connection that keeps up, and to no other: there it
/// is dropped, and nothing else happens.
pub proof fn law_slow_connections_are_spared(
    h: HubView,
    client: Seq<char>,
    e: BacklogView,
    o: OnlineView,
)
    requires
        lookup(h.sessions.online, client) == Some(o),
        e.message.qos == QoS::AtMostOnce,
    ensures
        ({
            let r = h.to_client(client, e);
            let size = crate::delivery::room(e.message);
            &&& behind(o, h.limits.max_outbound_bytes, size) ==> r == h
            &&& !behind(o, h.limits.max_outbound_bytes, size) ==> r.effects.len()
                == h.effects.len() + 1 && crate::hearing::carries(
                r.effects.last(),
                o.conn_id,
                e.message.topic,
                e.message.payload,
                false,
                e.retain,
                QoS::AtMostOnce,
            )
        }),
{
}

/// Every packet that is handed to a connection counts until it is written: one more packet, and as
/// many more bytes as the message takes. Once it is written it counts no more; what another
/// connection wrote does not count here.
pub proof fn law_unwritten_packets_count(
    h: HubView,
    client: ClientId,
    conn_id: u64,
    packet: PacketView,
    bytes: usize,
    o: OnlineView,
)
    requires
        lookup(h.sessions.online, client.deep_view()) == Some(o),
        o.queued < usize::MAX,
        o.queued_bytes + bytes <= usize::MAX,
    ensures
        ({
            let c = client.deep_view();
            let sent = h.sending(c, packet, bytes as nat);
            let r = sent.after(HubCommand::PacketWritten { client, conn_id, bytes });
            let grown = OnlineView {
                queued: (o.queued + 1) as usize,
                queued_bytes: (o.queued_bytes + bytes) as usize,
                ..o
            };
            &&& sent.effects == h.effects.push(EffectView::Packet { conn: o.conn_id, packet })
            &&& lookup(sent.sessions.online, c) == Some(grown)
            &&& r.effects == sent.effects
            &&& lookup(r.sessions.online, c) == if o.conn_id == conn_id {
                Some(o)
            } else {
                Some(grown)
            }
        }),
{
    broadcast use crate::assoc::lemma_lookup_put;

    reveal(HubView::after);
}

// Finished jobs.

/// A message that was recorded goes out on the connection that it was recorded for: with its
/// retain flag, for the first time, and, with the lesser guarantee, under a packet id that is kept
/// with its place in the durable queue until it is acknowledged. Nobody waits for the record.
pub proof fn law_recorded_message_goes_out(
    h: HubView,
    job: AppendJob,
    at: u64,
    o: OnlineView,
)
    requires
        job.deep_view().work is Append,
        job.deep_view().owed == ThenView::Ungated,
        lookup(h.sessions.online, job.deep_view().client) == Some(o),
        lookup(h.sessions.connecting, job.deep_view().client) is None,
        job.deep_view().planned_conn == Some(o.conn_id),
        job.deep_view().message.qos == QoS::AtLeastOnce,
        !h.inf(job.deep_view().client).must_wait(),
        h.inf(job.deep_view().client).allocated().1 is Some,
    ensures
        ({
            let j = job.deep_view();
            let c = j.client;
            let r = h.after(HubCommand::AppendDone { job, outcome: LaneOutcome::Stored(at) });
            let pkid = h.inf(c).allocated().1->Some_0;
            &&& r.effects.len() == h.effects.len() + 1
            &&& crate::hearing::carries(
                r.effects.last(),
                o.conn_id,
                j.message.topic,
                j.message.payload,
                false,
                j.retain,
                QoS::AtLeastOnce,
            )
            &&& crate::hearing::says(r.effects.last(), j.message_expiry, j.message.app)
            &&& crate::exchange::speaks_of(r.effects.last(), pkid)
            &&& lookup(r.inf(c).pending, pkid) == Some(
                PendingOutView {
                    message: j.message,
                    state: OutState::AwaitingPubAck,
                    offset: Some(at),
                },
            )
            &&& r.inf(c).outstanding.contains(at)
        }),
{
    broadcast use crate::assoc::lemma_lookup_put;

    reveal(HubView::after);
    let j = job.deep_view();
    let c = j.client;
    let h1 = h.job_finished(c).counting_write();
    let r = h.after(HubCommand::AppendDone { job, outcome: LaneOutcome::Stored(at) });
    let inf = h1.inf(c).tracking(at);
    assert(inf.allocated().1 == h.inf(c).allocated().1) by {
        lemma_allocated_alike(h.inf(c), inf);
    }
    crate::inflight::lemma_allocated_keeps_line(inf);
    let pkid = inf.allocated().1->Some_0;
    crate::listening::lemma_adjoin_contains(h.inf(c).outstanding, at, at);
    crate::assoc::lemma_lookup_ranked::<u16, PendingOutView>(
        inf.allocated().0.pending,
        pkid,
        PendingOutView {
            message: j.message,
            state: OutState::AwaitingPubAck,
            offset: Some(at),
        },
        pkid,
    );
    assert(r == h1.to_client(c, j.entry(Some(at))));
}

/// Which packet ids are handed out rests on the packet ids alone.
proof fn lemma_allocated_alike(
    a: crate::inflight::InflightView,
    b: crate::inflight::InflightView,
)
    requires
        b.next_pkid == a.next_pkid,
        b.block_remaining == a.block_remaining,
        b.banked_base == a.banked_base,
        b.pending == a.pending,
    ensures
        b.allocated().1 == a.allocated().1,
    decreases
            (if a.banked_base is Some {
                (crate::inflight::PKID_BLOCK + 1) as int
            } else {
                0
            }) + a.block_remaining,
{
    if !(a.block_remaining == 0 && a.banked_base is None) {
        let fa = if a.block_remaining == 0 {
            crate::inflight::InflightView {
                next_pkid: if a.banked_base == Some(0u16) {
                    a.next_pkid
                } else {
                    a.banked_base->Some_0
                },
                block_remaining: crate::inflight::PKID_BLOCK,
                banked_base: None,
                ..a
            }
        } else {
            a
        };
        let fb = if b.block_remaining == 0 {
            crate::inflight::InflightView {
                next_pkid: if b.banked_base == Some(0u16) {
                    b.next_pkid
                } else {
                    b.banked_base->Some_0
                },
                block_remaining: crate::inflight::PKID_BLOCK,
                banked_base: None,
                ..b
            }
        } else {
            b
        };
        let id = crate::inflight::next_id(fa.next_pkid);
        let ua = crate::inflight::InflightView {
            next_pkid: id,
            block_remaining: (fa.block_remaining - 1) as u16,
            ..fa
        };
        let ub = crate::inflight::InflightView {
            next_pkid: id,
            block_remaining: (fb.block_remaining - 1) as u16,
            ..fb
        };
        if crate::assoc::bound(ua.pending, id) {
            lemma_allocated_alike(ua, ub);
        }
    }
}

/// A job whose message is not to be sent any more sends nothing: its write failed, its client
/// attaches or is gone, or the connection is another one, whose replay covered the message. Nobody
/// waits for the record.
pub proof fn law_outdated_jobs_send_nothing(h: HubView, job: AppendJob, outcome: LaneOutcome)
    requires
        !(job.deep_view().work is RecordOutbound),
        job.deep_view().owed == ThenView::Ungated,
        ({
            let c = job.deep_view().client;
            let here = lookup(h.sessions.online, c) matches Some(o)
                && job.deep_view().planned_conn == Some(o.conn_id);
            ||| outcome == LaneOutcome::Failed
            ||| lookup(h.sessions.connecting, c) is Some
            ||| lookup(h.sessions.online, c) is None
            ||| !here && (outcome matches LaneOutcome::Stored(at) ==> lookup(
                h.sessions.session_expiry,
                c,
            ) is None || (lookup(h.sessions.inflight, c) matches Some(inf) && at
                <= inf.high_water))
        }),
    ensures
        ({
            let r = h.after(HubCommand::AppendDone { job, outcome });
            &&& r.effects == h.effects
            &&& r.sessions.online == h.sessions.online
            &&& r.sessions.inflight == h.sessions.inflight
        }),
{
    reveal(HubView::after);
}

/// A packet id that was recorded lets its message go out on the connection that it was recorded
/// for, under that id, and nothing goes out where it could not be recorded: the message waits
/// first in line.
pub proof fn law_recorded_id_goes_out(
    h: HubView,
    job: AppendJob,
    pkid: u16,
    offset: u64,
    at: u64,
    o: OnlineView,
    p: PendingOutView,
)
    requires
        job.deep_view().work == (WorkView::RecordOutbound { pkid, offset }),
        lookup(h.sessions.online, job.deep_view().client) == Some(o),
        lookup(h.sessions.connecting, job.deep_view().client) is None,
        job.deep_view().planned_conn == Some(o.conn_id),
        lookup(h.inf(job.deep_view().client).pending, pkid) == Some(p),
        p.state == OutState::AwaitingIdRecord,
        h.inf(job.deep_view().client).backlog.len() == 0,
    ensures
        ({
            let j = job.deep_view();
            let c = j.client;
            let r = h.after(HubCommand::AppendDone { job, outcome: LaneOutcome::Stored(at) });
            let f = h.after(HubCommand::AppendDone { job, outcome: LaneOutcome::Failed });
            &&& r.effects.len() == h.effects.len() + 1
            &&& r.effects.last() matches EffectView::Packet {
                conn,
                packet: PacketView::Publish { dup, qos, retain, topic, pkid: id, payload, .. },
            } && conn == o.conn_id && !dup && qos == j.message.qos && retain == j.retain && topic
                == j.message.topic && payload == j.message.payload && id == Some(pkid)
            &&& lookup(r.inf(c).pending, pkid) == Some(
                PendingOutView { state: OutState::AwaitingPubRec, ..p },
            )
            &&& f.effects == h.effects
            &&& lookup(f.inf(c).pending, pkid) is None
            &&& f.inf(c).backlog.len() == 1
            &&& f.inf(c).backlog[0].message == j.message
            &&& f.inf(c).backlog[0].offset == Some(offset)
            &&& f.inf(c).backlog[0].retain == j.retain
        }),
{
    broadcast use crate::assoc::lemma_lookup_put, crate::assoc::lemma_lookup_cut;

    reveal(HubView::after);
    let j = job.deep_view();
    let c = j.client;
    assert(lookup(h.sessions.inflight, c) is Some) by {
        if lookup(h.sessions.inflight, c) is None {
            crate::assoc::lemma_position(h.inf(c).pending, pkid);
        }
    }
}

// Whoever is thrown out, and sessions that end.

/// Who is thrown out: whoever came with a certificate that is revoked, whoever came with the
/// password of a user that is no more, and whoever may not connect any more. Nobody else.
pub proof fn law_who_is_thrown_out(f: SweepPolicyView, client: Seq<char>, o: OnlineView)
    ensures
        f.eviction(client, o) is Some <==> (o.admission.cert_serial matches Some(s)
            && f.revoked.contains(s)) || (o.admission.method == crate::policy::AuthMethod::Password
            && f.missing_users.contains(o.admission.identity.subject)) || f.refused.contains(
            client,
        ),
{
}

/// Whoever is thrown out is connected no more; a client of the newer protocol is told that it may
/// not stay before its connection is closed.
pub proof fn law_thrown_out(h: HubView, client: ClientId, o: OnlineView)
    requires
        lookup(h.sessions.online, client.deep_view()) == Some(o),
    ensures
        ({
            let r = h.after(HubCommand::Evict { client });
            let n = h.effects.len() as int;
            let said = EffectView::Packet {
                conn: o.conn_id,
                packet: PacketView::Disconnect { reason: 0x87 },
            };
            let closed = EffectView::Close { conn: o.conn_id };
            &&& lookup(r.sessions.online, client.deep_view()) is None
            &&& if o.admission.protocol == ProtocolVersion::V5 {
                r.effects.len() > n + 1 && r.effects[n] == said && r.effects[n + 1] == closed
            } else {
                r.effects.len() > n && r.effects[n] == closed
            }
        }),
{
    broadcast use crate::assoc::lemma_lookup_put;

    let c = client.deep_view();
    let h1 = if o.admission.protocol == ProtocolVersion::V5 {
        h.sending(c, PacketView::Disconnect { reason: crate::packet::NOT_AUTHORIZED }, 0)
    } else {
        h
    };
    let q = lookup(h1.sessions.online, c)->Some_0;
    lemma_evict(h, client, o);
    crate::endings::lemma_disconnected(h1, c, q, false);
    let h2 = crate::endings::disconnected(h1, c, q, false);
    crate::endings::lemma_parting(h2, c, c, 0);
    let r = h2.parting(c);
    let k = h1.effects.len() as int;
    assert(r.effects.take(h2.effects.len() as int)[k] == r.effects[k]);
    if o.admission.protocol == ProtocolVersion::V5 {
        let n = h.effects.len() as int;
        assert(h2.effects.take(k)[n] == h2.effects[n]);
        assert(r.effects.take(h2.effects.len() as int)[n] == r.effects[n]);
    }
}

proof fn lemma_evict(h: HubView, client: ClientId, o: OnlineView)
    requires
        lookup(h.sessions.online, client.deep_view()) == Some(o),
    ensures
        ({
            let c = client.deep_view();
            let h1 = if o.admission.protocol == ProtocolVersion::V5 {
                h.sending(c, PacketView::Disconnect { reason: crate::packet::NOT_AUTHORIZED }, 0)
            } else {
                h
            };
            &&& lookup(h1.sessions.online, c) matches Some(q) && q.conn_id == o.conn_id && q.will
                == o.will
            &&& h.after(HubCommand::Evict { client }) == crate::endings::disconnected(
                h1,
                c,
                lookup(h1.sessions.online, c)->Some_0,
                false,
            ).parting(c)
        }),
{
    broadcast use crate::assoc::lemma_lookup_put;

    reveal(HubView::after);
}

proof fn lemma_stays_forgotten(h: HubView, client: Seq<char>, d: Seq<char>)
    requires
        forgotten(h, client),
    ensures
        forgotten(h.discarding(d), client),
{
    crate::endings::lemma_discarding_local(h, d, client);
    let l = h.discarding_local(d);
    if d != client {
        assert(untouched(h, l, client));
        assert forall|f: Seq<char>| !#[trigger] listens(l.routing, client, f) && !flagged(
            l.routing.no_local,
            client,
            f,
        ) && !flagged(l.routing.retain_as_published, client, f) by {
            assert(same_wish(h.routing, l.routing, client, f));
            assert(!listens(h.routing, client, f));
            assert(!flagged(h.routing.no_local, client, f));
            assert(!flagged(h.routing.retain_as_published, client, f));
        }
        assert forall|f: Seq<char>| !#[trigger] flagged(l.routing.no_local, client, f) by {
            assert(!listens(l.routing, client, f));
        }
        assert forall|f: Seq<char>| !#[trigger]
            flagged(l.routing.retain_as_published, client, f) by {
            assert(!listens(l.routing, client, f));
        }
        assert forall|key: KeyView| !#[trigger] belongs(l.routing.shared, client, key) by {
            assert(!belongs(h.routing.shared, client, key));
        }
        assert forall|pkid: u16| !#[trigger] l.qos2.advance_inflight.contains((client, pkid)) by {
            assert(!h.qos2.advance_inflight.contains((client, pkid)));
        }
        assert forall|pkid: u16| !#[trigger] l.qos2.held_pubcomp.contains((client, pkid)) by {
            assert(!h.qos2.held_pubcomp.contains((client, pkid)));
        }
        crate::assoc::lemma_lookup_cut(h.routing.subs_by_client, d, client);
    }
    assert(forgotten(l, client));
    let r = h.discarding(d);
    assert(r.routing == l.routing && r.qos2 == l.qos2);
}

proof fn lemma_discarding_each(h: HubView, clients: Seq<Seq<char>>, client: Seq<char>)
    requires
        clients.contains(client),
    ensures
        forgotten(h.discarding_each(clients), client),
    decreases clients.len(),
{
    let t = clients.drop_last();
    let h1 = h.discarding_each(t);
    let i = choose|i: int| 0 <= i < clients.len() && clients[i] == client;
    if i < t.len() {
        assert(t[i] == client);
        lemma_discarding_each(h, t, client);
        lemma_stays_forgotten(h1, client, clients.last());
    } else {
        crate::endings::lemma_discarding(h1, client, client);
        let r = h1.discarding(client);
        assert(forgotten(r.gossiping(), client));
        assert(forgotten(r, client));
    }
}

/// A session whose time is up ends at the next sweep: nothing is left of it.
pub proof fn law_expired_sessions_end(h: HubView, client: Seq<char>, deadline: u64)
    requires
        lookup(h.sessions.expiring, client) == Some(deadline),
        deadline <= h.now,
    ensures
        forgotten(h.sweeping_sessions(), client),
{
    let h1 = h.reconciling();
    let gone = crate::sweeps::expired(h1.sessions.expiring, h1.now);
    crate::assoc::lemma_position(h.sessions.expiring, client);
    let n = crate::assoc::position(h.sessions.expiring, client);
    assert(h1.sessions.expiring == h.sessions.expiring && h1.now == h.now);
    assert(h1.sessions.expiring[n].0 == client && h1.sessions.expiring[n].1 <= h1.now);
    crate::sweeps::law_sessions_last_until_their_deadline(
        h1.sessions.expiring,
        h1.now,
        client,
    );
    assert(gone.len() > 0);
    lemma_discarding_each(h1, gone, client);
    let r = h1.discarding_each(gone);
    assert(forgotten(r, client));
    assert(forgotten(r.gossiping(), client));
}

proof fn lemma_evicting_away(h: HubView, d: Seq<char>, c: Seq<char>)
    requires
        d == c || lookup(h.sessions.online, c) is None,
    ensures
        lookup(h.evicting(d).sessions.online, c) is None,
{
    broadcast use crate::assoc::lemma_lookup_put, crate::assoc::lemma_lookup_cut;

    match lookup(h.sessions.online, d) {
        Some(o) => {
            let h1 = if o.admission.protocol == ProtocolVersion::V5 {
                h.sending(d, PacketView::Disconnect { reason: crate::packet::NOT_AUTHORIZED }, 0)
            } else {
                h
            };
            let q = lookup(h1.sessions.online, d)->Some_0;
            let cutoff = h1.with_online(crate::assoc::cut(h1.sessions.online, d)).doing(
                EffectView::Close { conn: q.conn_id },
            );
            let h2 = crate::endings::disconnected(h1, d, q, false);
            assert(lookup(cutoff.sessions.online, c) is None);
            match q.will {
                Some(w) => {
                    crate::exchange::lemma_publishing_away(
                        cutoff,
                        crate::message::PublicationView { message_expiry: None, ..w },
                        None,
                        None,
                        c,
                    );
                },
                None => {},
            }
            assert(lookup(h2.sessions.online, c) is None);
            crate::endings::lemma_parting(h2, d, c, 0);
            assert(h.evicting(d) == h2.parting(d));
        },
        None => {},
    }
}

proof fn lemma_evicting_each(
    h: HubView,
    victims: Seq<(Seq<char>, crate::sweeps::Eviction)>,
    c: Seq<char>,
)
    requires
        lookup(h.sessions.online, c) is None || exists|i: int|
            0 <= i < victims.len() && (#[trigger] victims[i]).0 == c,
    ensures
        lookup(h.evicting_each(victims).sessions.online, c) is None,
    decreases victims.len(),
{
    if victims.len() > 0 {
        let t = victims.drop_last();
        let last = victims.last();
        assert(victims[victims.len() - 1] == last);
        if last.0 != c {
            if lookup(h.sessions.online, c) is Some {
                let i = choose|i: int| 0 <= i < victims.len() && (#[trigger] victims[i]).0 == c;
                assert(t[i].0 == c);
            }
            lemma_evicting_each(h, t, c);
        }
        lemma_evicting_away(h.evicting_each(t), last.0, c);
    }
}

proof fn lemma_unsubscribing_each_online(
    h: HubView,
    losers: Seq<(Seq<char>, Seq<Seq<char>>)>,
)
    ensures
        h.unsubscribing_each(losers).sessions == h.sessions,
    decreases losers.len(),
{
    if losers.len() > 0 {
        lemma_unsubscribing_each_online(h, losers.drop_last());
    }
}

proof fn lemma_unlinking_each_online(h: HubView, nodes: Seq<Seq<char>>)
    ensures
        h.unlinking_each(nodes).sessions == h.sessions,
    decreases nodes.len(),
{
    if nodes.len() > 0 {
        lemma_unlinking_each_online(h, nodes.drop_last());
    }
}

/// A new policy throws out whoever it shuts out: a client whose certificate is revoked, whose user
/// is no more, or that may not connect any more is connected no more once the policy is applied.
pub proof fn law_policy_is_enforced(
    h: HubView,
    policy: crate::sweeps::SweepPolicy,
    client: Seq<char>,
    o: OnlineView,
)
    requires
        lookup(h.sessions.online, client) == Some(o),
        ({
            let f = policy.deep_view();
            (o.admission.cert_serial matches Some(s) && f.revoked.contains(s)) || (
            o.admission.method == crate::policy::AuthMethod::Password && f.missing_users.contains(
                o.admission.identity.subject,
            )) || f.refused.contains(client)
        }),
    ensures
        lookup(h.after(HubCommand::SweepIdentities(policy)).sessions.online, client) is None,
{
    reveal(HubView::after);
    let f = policy.deep_view();
    let victims = f.victims(h.sessions.online);
    law_who_is_thrown_out(f, client, o);
    let e = f.eviction(client, o)->Some_0;
    crate::assoc::lemma_position(h.sessions.online, client);
    let n = crate::assoc::position(h.sessions.online, client);
    assert(h.sessions.online[n] == (client, o));
    crate::sweeps::law_only_victims(f, h.sessions.online, client, e);
    let i = choose|i: int| 0 <= i < victims.len() && victims[i] == (client, e);
    assert(victims[i].0 == client);
    lemma_evicting_each(h, victims, client);
    let h1 = h.evicting_each(victims);
    let losers = f.losers(h1.sessions.online, h1.routing.subs_by_client);
    lemma_unsubscribing_each_online(h1, losers);
    let h2 = h1.unsubscribing_each(losers);
    lemma_unlinking_each_online(h2, f.lost_peers(h2.cluster.peers));
}

} // verus!
