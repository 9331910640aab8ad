//! Attaching and detaching clients.
//!
//! A session is fetched from the store, or removed there, before its client is let in. The
//! client that connected last wins.

use vstd::prelude::*;

use crate::assoc::{bound, cut, keys, lookup, put, push_item, Table};
use crate::delivery::{first_state, room};
use crate::effects::{Effect, EffectView};
use crate::hub::{held, Hub, HubView, SessionsView};
use crate::ids::{later, ClientId};
use crate::inflight::{BacklogView, Inflight, InflightView, OutState, PendingOutView};
use crate::lanes::{LaneJob, LaneJobView};
use crate::message::{message_bytes, Publication, PublicationView};
use crate::packet::{publish_of, publish_packet, Packet, PacketView, ProtocolVersion,
    NOT_AUTHORIZED};
use crate::qos::QoS;
use crate::session::{AttachOutcome, AttachView, Online, OnlineView, PendingAttach, QueuedMessage,
    QueuedView, RecoveryView, SessionRecovery, REPLAY_LIMIT, SESSION_EXPIRY_NEVER};
use crate::subscriptions::{Grants, Subscription};
use crate::topic::{admitting_filter, matches_topic, parse_shared, topic_matches};

verus! {

/// How many clients are connected whose session is not kept.
pub open spec fn unkept(
    online: Seq<(Seq<char>, OnlineView)>,
    kept: Seq<(Seq<char>, u32)>,
) -> nat
    decreases online.len(),
{
    if online.len() == 0 {
        0
    } else {
        unkept(online.drop_last(), kept) + (if bound(kept, online.last().0) {
            0nat
        } else {
            1
        })
    }
}

/// Tells the subscriptions whose filter is not among `denied`.
pub open spec fn not_denied(denied: Seq<Seq<char>>) -> spec_fn((Seq<char>, QoS)) -> bool {
    |s: (Seq<char>, QoS)| !denied.contains(s.0)
}

/// The filters of `subs` that are among `denied`.
pub open spec fn revoked(subs: Grants, denied: Seq<Seq<char>>) -> Seq<Seq<char>>
    decreases subs.len(),
{
    if subs.len() == 0 {
        Seq::empty()
    } else {
        let rest = revoked(subs.drop_last(), denied);
        if denied.contains(subs.last().0) {
            rest.push(subs.last().0)
        } else {
            rest
        }
    }
}

/// Whether one of `filters` admits `topic`.
pub open spec fn some_admit(filters: Seq<Seq<char>>, topic: Seq<char>) -> bool {
    exists|i: int|
        0 <= i < filters.len() && matches_topic(admitting_filter(#[trigger] filters[i]), topic)
}

/// The interval that is left of a deadline.
pub open spec fn remaining(now: u64, deadline: u64) -> u32 {
    if deadline - now > u32::MAX {
        u32::MAX
    } else {
        (deadline - now) as u32
    }
}

/// The last offset of `queue`, or 0.
pub open spec fn last_offset(queue: Seq<QueuedView>) -> u64 {
    if queue.len() == 0 {
        0
    } else {
        queue.last().offset
    }
}

/// What of a queue is replayed at once.
pub open spec fn first_of(queue: Seq<QueuedView>) -> Seq<QueuedView> {
    if queue.len() > REPLAY_LIMIT {
        queue.take(REPLAY_LIMIT as int)
    } else {
        queue
    }
}

impl InflightView {
    /// Whether the message at `offset` is on the wire, or waits to be.
    pub open spec fn in_hand(self, offset: u64) -> bool {
        (exists|i: int|
            0 <= i < self.pending.len() && (#[trigger] self.pending[i]).1.offset == Some(offset)
                && self.pending[i].1.state != OutState::AwaitingIdRecord) || (exists|i: int|
            0 <= i < self.backlog.len() && (#[trigger] self.backlog[i]).offset == Some(offset))
    }

    /// With everything up to `last` handed to the client.
    pub open spec fn replayed_through(self, last: u64) -> InflightView {
        InflightView {
            high_water: if self.high_water < last {
                last
            } else {
                self.high_water
            },
            tracked_through: if self.tracked_through < last {
                last
            } else {
                self.tracked_through
            },
            ..self
        }
    }
}

impl HubView {
    /// With other sessions.
    pub open spec fn with_sessions(self, sessions: SessionsView) -> HubView {
        HubView { sessions, ..self }
    }

    /// How many sessions there are.
    pub open spec fn session_count(self) -> nat {
        unkept(self.sessions.online, self.sessions.session_expiry)
            + self.sessions.session_expiry.len()
    }

    /// Whether a client is turned away because its session would be a new one too many. A
    /// session that is resumed, or whose client is known here, is none.
    pub open spec fn refuses_session(self, client: Seq<char>, present: bool) -> bool {
        !present && !self.is_online(client) && !self.persistent(client) && (self.brownout || (
        self.quotas.max_sessions matches Some(cap) && self.session_count() >= cap))
    }

    /// With the session of `client` gone from memory.
    pub open spec fn discarding_local(self, client: Seq<char>) -> HubView {
        self.with_routing(self.routing.forgetting(client)).with_sessions(
            SessionsView {
                inflight: cut(self.sessions.inflight, client),
                session_expiry: cut(self.sessions.session_expiry, client),
                expiring: cut(self.sessions.expiring, client),
                ..self.sessions
            },
        ).forgetting(client)
    }

    /// With the session of `client` gone, here and in the store.
    pub open spec fn discarding(self, client: Seq<char>) -> HubView {
        let h = self.discarding_local(client);
        if h.lane(client).takes_control() {
            h.controlling(client, LaneJobView::Remove { client }).0
        } else {
            h.doing(EffectView::RemoveSession { client })
        }
    }

    /// With the will `w` published.
    pub open spec fn willing(self, w: PublicationView) -> HubView {
        self.publishing(PublicationView { message_expiry: None, ..w }, None, None).0
    }

    /// With an attach begun: its session is fetched, or removed where the client starts anew.
    pub open spec fn attaching(self, p: AttachView, clean_start: bool) -> HubView {
        let h = self.with_sessions(
            SessionsView {
                expiring: cut(self.sessions.expiring, p.client),
                ..self.sessions
            },
        );
        let h2 = if clean_start {
            h.discarding_local(p.client)
        } else {
            h
        };
        let h3 = h2.with_sessions(
            SessionsView {
                connecting: put(h2.sessions.connecting, p.client, p.conn_id),
                ..h2.sessions
            },
        );
        if !clean_start {
            h3.doing(EffectView::Recover { pending: p })
        } else if h3.lane(p.client).takes_control() {
            h3.controlling(p.client, LaneJobView::Discard(p)).0
        } else {
            h3.doing(EffectView::Discard { pending: p })
        }
    }

    /// With the connection that `client` had closed, and its will published.
    pub open spec fn replacing(self, client: Seq<char>) -> HubView {
        match lookup(self.sessions.online, client) {
            Some(old) => {
                let h = self.with_online(cut(self.sessions.online, client)).doing(
                    EffectView::Close { conn: old.conn_id },
                );
                match old.will {
                    Some(w) => h.willing(w),
                    None => h,
                }
            },
            None => self,
        }
    }

    /// With the session expiry interval of `client`; 0 keeps no session.
    pub open spec fn keeping_session(self, client: Seq<char>, secs: u32) -> HubView {
        if secs == 0 {
            self.with_sessions(
                SessionsView {
                    session_expiry: cut(self.sessions.session_expiry, client),
                    ..self.sessions
                },
            )
        } else {
            self.with_sessions(
                SessionsView {
                    session_expiry: put(self.sessions.session_expiry, client, secs),
                    ..self.sessions
                },
            ).doing(EffectView::SetSessionExpiry { client, deadline: None })
        }
    }

    /// With the exchange with `client` taken up where it stood: what was not acknowledged is sent
    /// again.
    pub open spec fn resending(self, client: Seq<char>, pending: Seq<(u16, PendingOutView)>) -> HubView
        decreases pending.len(),
    {
        if pending.len() == 0 {
            self
        } else {
            let h = self.resending(client, pending.drop_last());
            let (pkid, p) = pending.last();
            match p.state {
                OutState::AwaitingPubAck => h.sending(
                    client,
                    publish_of(p.message, Some(pkid), true, false, None),
                    room(p.message),
                ),
                OutState::AwaitingPubRec => h.sending(
                    client,
                    publish_of(p.message, Some(pkid), true, false, None),
                    room(p.message),
                ),
                OutState::AwaitingPubComp => h.sending(client, PacketView::PubRel(pkid), 0),
                _ => h,
            }
        }
    }

    /// Whether only a subscription that was revoked admits `topic`.
    pub open spec fn only_revoked(
        self,
        client: Seq<char>,
        revoked: Seq<Seq<char>>,
        topic: Seq<char>,
    ) -> bool {
        some_admit(revoked, topic) && !some_admit(keys(self.routing.grants(client)), topic)
    }

    /// With one message of the queue of `client` replayed, unless it is on its way already, has
    /// expired, or is not for the client any more.
    pub open spec fn replaying_one(
        self,
        client: Seq<char>,
        revoked: Seq<Seq<char>>,
        q: QueuedView,
    ) -> HubView {
        if self.only_revoked(client, revoked, q.message.topic) || self.inf(client).in_hand(
            q.offset,
        ) || (q.expiry_at matches Some(d) && d <= self.now) {
            self
        } else {
            self.to_client(
                client,
                BacklogView {
                    message: q.message,
                    retain: false,
                    message_expiry: match q.expiry_at {
                        Some(d) => Some(remaining(self.now, d)),
                        None => None,
                    },
                    offset: Some(q.offset),
                },
            )
        }
    }

    /// With the queue of `client` replayed.
    pub open spec fn replaying_each(
        self,
        client: Seq<char>,
        revoked: Seq<Seq<char>>,
        queue: Seq<QueuedView>,
    ) -> HubView
        decreases queue.len(),
    {
        if queue.len() == 0 {
            self
        } else {
            self.replaying_each(client, revoked, queue.drop_last()).replaying_one(
                client,
                revoked,
                queue.last(),
            )
        }
    }

    /// With the queue of `client` replayed, and truncated as far as nothing is owed.
    pub open spec fn replaying_queue(
        self,
        client: Seq<char>,
        revoked: Seq<Seq<char>>,
        queue: Seq<QueuedView>,
    ) -> HubView {
        let h = self.replaying_each(client, revoked, queue);
        if last_offset(queue) > 0 {
            h.with_inf(client, h.inf(client).replayed_through(last_offset(queue))).truncating(client)
        } else {
            h
        }
    }

    /// With the subscriptions that were stored for `client`, but for those that are revoked. What
    /// is left of them is stored, where the session is, or is `lasting`, so that they stay revoked.
    pub open spec fn resubscribing(
        self,
        client: Seq<char>,
        subs: Grants,
        denied: Seq<Seq<char>>,
        lasting: bool,
    ) -> HubView {
        let kept = subs.filter(not_denied(denied));
        let h = self.with_routing(self.routing.entering_each(client, kept));
        let h2 = if kept.len() > 0 {
            h.gossiping()
        } else {
            h
        };
        if revoked(subs, denied).len() > 0 {
            h2.pruning(client, revoked(subs, denied), lasting)
        } else {
            h2
        }
    }

    /// With the client of `p` connected.
    pub open spec fn connecting_as(self, p: AttachView, present: bool) -> HubView {
        self.with_online(
            put(
                self.sessions.online,
                p.client,
                OnlineView {
                    conn_id: p.conn_id,
                    will: p.will,
                    admission: p.admission,
                    attached_at: self.instant,
                    queued: 0,
                    queued_bytes: 0,
                },
            ),
        ).doing(EffectView::Attached { token: p.reply, result: AttachOutcome::Present(present) })
    }

    /// With the client of `p` let in: its session is taken up where it stood, the client is told,
    /// and what is on its way to it is sent again.
    pub open spec fn letting_in(
        self,
        p: AttachView,
        present: bool,
        subs: Grants,
        denied: Seq<Seq<char>>,
    ) -> HubView {
        let h1 = self.resubscribing(
            p.client,
            subs,
            denied,
            p.session_expiry > 0,
        ).keeping_session(p.client, p.session_expiry);
        let h2 = h1.with_inf(
            p.client,
            InflightView { receive_maximum: p.receive_maximum, ..h1.inf(p.client) },
        ).replacing(p.client).connecting_as(p, present);
        h2.resending(p.client, h2.inf(p.client).pending)
    }

    /// With an attach finished: the client is let in, and what it is owed is sent. `queue` is what
    /// the store holds for it, where that is to be replayed.
    pub open spec fn finishing(
        self,
        p: AttachView,
        present: bool,
        subs: Grants,
        queue: Option<Seq<QueuedView>>,
        denied: Seq<Seq<char>>,
    ) -> HubView {
        if self.refuses_session(p.client, present) {
            self.doing(EffectView::Reap { client: p.client, token: p.reply })
        } else {
            let h = self.letting_in(p, present, subs, denied);
            match queue {
                Some(q) => h.replaying_queue(p.client, revoked(subs, denied), first_of(q)),
                None => h,
            }
        }
    }

    /// With the session of `client` fetched: the client attaches no more.
    pub open spec fn fetched(self, client: Seq<char>) -> HubView {
        self.with_sessions(
            SessionsView { connecting: cut(self.sessions.connecting, client), ..self.sessions },
        )
    }

    /// With what the store said of the session of an attach, and of its queue. An attach that a
    /// later one overtook is closed.
    pub open spec fn recovering(
        self,
        p: AttachView,
        recovery: RecoveryView,
        queue: Option<Seq<QueuedView>>,
        denied: Seq<Seq<char>>,
    ) -> HubView {
        if lookup(self.sessions.connecting, p.client) != Some(p.conn_id) {
            self.doing(EffectView::Close { conn: p.conn_id })
        } else {
            let h = self.fetched(p.client);
            match recovery {
                RecoveryView::Ready { present, subscriptions } => h.finishing(
                    p,
                    present,
                    subscriptions,
                    queue,
                    denied,
                ),
                RecoveryView::Cleaned => h.finishing(p, false, Seq::empty(), None, denied),
                RecoveryView::Unavailable => h.doing(
                    EffectView::Attached { token: p.reply, result: AttachOutcome::Unavailable },
                ),
                RecoveryView::Denied { owner } => h.doing(
                    EffectView::Attached { token: p.reply, result: AttachOutcome::OwnerMismatch },
                ),
            }
        }
    }

    /// With `client`, whose connection is gone, retained for as long as its session is kept.
    pub open spec fn parting(self, client: Seq<char>) -> HubView {
        match lookup(self.sessions.session_expiry, client) {
            None => self.discarding(client).gossiping(),
            Some(secs) => if secs == 0 {
                self.discarding(client).gossiping()
            } else if secs == SESSION_EXPIRY_NEVER {
                self.flushed(client)
            } else {
                let h = self.flushed(client);
                let deadline = later(h.now, secs);
                h.doing(
                    EffectView::SetSessionExpiry { client, deadline: Some(deadline) },
                ).with_sessions(
                    SessionsView {
                        expiring: put(h.sessions.expiring, client, deadline),
                        ..h.sessions
                    },
                )
            },
        }
    }

    /// With connection `conn_id` of `client` ended; one that was replaced already changes
    /// nothing. Without a goodbye the will is published.
    pub open spec fn detaching(self, client: Seq<char>, conn_id: u64, graceful: bool) -> HubView {
        match lookup(self.sessions.online, client) {
            Some(o) => if o.conn_id == conn_id {
                let h = self.with_online(cut(self.sessions.online, client)).doing(
                    EffectView::Close { conn: conn_id },
                );
                let h2 = match o.will {
                    Some(w) => if graceful {
                        h
                    } else {
                        h.willing(w)
                    },
                    None => h,
                };
                h2.parting(client)
            } else {
                self
            },
            None => self,
        }
    }

    /// With `client` thrown out.
    pub open spec fn evicting(self, client: Seq<char>) -> HubView {
        match lookup(self.sessions.online, client) {
            Some(o) => {
                let h = if o.admission.protocol == ProtocolVersion::V5 {
                    self.sending(client, PacketView::Disconnect { reason: NOT_AUTHORIZED }, 0)
                } else {
                    self
                };
                h.detaching(client, o.conn_id, false)
            },
            None => self,
        }
    }
}

fn filter_admits(filter: &String, topic: &str) -> (r: bool)
    ensures
        r == matches_topic(admitting_filter(filter@), topic@),
{
    match parse_shared(filter.as_str()) {
        Some((_, inner)) => topic_matches(inner.as_str(), topic),
        None => topic_matches(filter.as_str(), topic),
    }
}

fn any_admits(filters: &Vec<String>, topic: &str) -> (r: bool)
    ensures
        r == some_admit(filters.deep_view(), topic@),
{
    let ghost fs = filters.deep_view();
    let mut i: usize = 0;
    while i < filters.len()
        invariant
            i <= filters@.len(),
            fs == filters.deep_view(),
            forall|j: int|
                0 <= j < i ==> !matches_topic(admitting_filter(#[trigger] fs[j]), topic@),
        decreases filters@.len() - i,
    {
        assert(fs[i as int] == filters@[i as int]@);
        if filter_admits(&filters[i], topic) {
            return true;
        }
        i += 1;
    }
    false
}

fn any_key_admits(grants: &Table<String, QoS>, topic: &str) -> (r: bool)
    ensures
        r == some_admit(keys(grants.deep_view()), topic@),
{
    let names = grants.keys();
    any_admits(&names, topic)
}

fn split_denied(subs: Vec<Subscription>, denied: &Vec<String>) -> (r: (
    Vec<Subscription>,
    Vec<String>,
))
    ensures
        r.0.deep_view() == subs.deep_view().filter(not_denied(denied.deep_view())),
        r.1.deep_view() == revoked(subs.deep_view(), denied.deep_view()),
{
    let ghost ss = subs.deep_view();
    let ghost d = denied.deep_view();
    let ghost keep = not_denied(d);
    let mut kept: Vec<Subscription> = Vec::new();
    let mut gone: Vec<String> = Vec::new();
    let ghost mut i: int = 0;
    assert(ss.take(0) =~= Seq::empty());
    assert(kept.deep_view() =~= ss.take(0).filter(keep)) by {
        reveal(Seq::filter);
    }
    assert(gone.deep_view() =~= Seq::empty());
    for s in it: subs
        invariant
            it.seq() == subs@,
            ss == subs.deep_view(),
            d == denied.deep_view(),
            keep == not_denied(d),
            i == it.index(),
            kept.deep_view() == ss.take(i).filter(keep),
            gone.deep_view() == revoked(ss.take(i), d),
    {
        proof {
            reveal(Seq::filter);
            assert(ss.take(i + 1).drop_last() =~= ss.take(i));
            assert(ss.take(i + 1).last() == ss[i]);
            assert(ss[i] == s.deep_view());
        }
        if crate::assoc::contains_key(denied, &s.filter) {
            push_item(&mut gone, s.filter);
        } else {
            push_item(&mut kept, s);
        }
        proof {
            i = i + 1;
        }
    }
    assert(ss.take(i) =~= ss);
    (kept, gone)
}

impl Inflight {
    /// See [`InflightView::in_hand`].
    fn in_hand(&self, offset: u64) -> (r: bool)
        ensures
            r == self.deep_view().in_hand(offset),
    {
        let ghost ps = self.deep_view().pending;
        let ghost bs = self.deep_view().backlog;
        let mut i: usize = 0;
        while i < self.pending.len()
            invariant
                i <= ps.len(),
                ps == self.deep_view().pending,
                forall|j: int|
                    0 <= j < i ==> !((#[trigger] ps[j]).1.offset == Some(offset) && ps[j].1.state
                        != OutState::AwaitingIdRecord),
            decreases ps.len() - i,
        {
            let p = self.pending.value_at(i);
            if p.state != OutState::AwaitingIdRecord {
                if let Some(o) = p.offset {
                    if o == offset {
                        assert(ps[i as int].1.offset == Some(offset));
                        return true;
                    }
                }
            }
            i += 1;
        }
        let mut k: usize = 0;
        while k < self.backlog.len()
            invariant
                k <= bs.len(),
                bs == self.deep_view().backlog,
                self.backlog@.len() == bs.len(),
                forall|j: int| 0 <= j < k ==> (#[trigger] bs[j]).offset != Some(offset),
            decreases bs.len() - k,
        {
            assert(bs[k as int] == self.backlog@[k as int].deep_view());
            if let Some(o) = self.backlog[k].offset {
                if o == offset {
                    assert(bs[k as int].offset == Some(offset));
                    return true;
                }
            }
            k += 1;
        }
        false
    }
}

impl Hub {
    /// See [`HubView::session_count`]; held at the largest `usize`.
    pub fn session_count(&self) -> (r: usize)
        ensures
            r == (if self.deep_view().session_count() > usize::MAX {
                usize::MAX as nat
            } else {
                self.deep_view().session_count()
            }),
    {
        let ghost on = self.deep_view().sessions.online;
        let ghost kept = self.deep_view().sessions.session_expiry;
        let mut n: usize = 0;
        let mut i: usize = 0;
        assert(on.take(0) =~= Seq::empty());
        while i < self.sessions.online.len()
            invariant
                i <= on.len(),
                on == self.deep_view().sessions.online,
                kept == self.deep_view().sessions.session_expiry,
                n == unkept(on.take(i as int), kept),
                n <= i,
            decreases on.len() - i,
        {
            proof {
                assert(on.take(i as int + 1).drop_last() =~= on.take(i as int));
                assert(on.take(i as int + 1).last() == on[i as int]);
            }
            if !self.sessions.session_expiry.contains_key(self.sessions.online.key_at(i)) {
                n = n + 1;
            }
            i += 1;
        }
        assert(on.take(i as int) =~= on);
        n.saturating_add(self.sessions.session_expiry.len())
    }

    /// See [`HubView::refuses_session`].
    fn refuses_session(&self, client: &ClientId, present: bool) -> (r: bool)
        ensures
            r == self.deep_view().refuses_session(client.deep_view(), present),
    {
        if present || self.is_online(client) || self.is_persistent(client) {
            return false;
        }
        self.brownout || match self.quotas.max_sessions {
            Some(cap) => self.session_count() >= cap,
            None => false,
        }
    }

    /// See [`HubView::discarding_local`].
    pub fn discard_session_local(&mut self, client: &ClientId)
        ensures
            final(self).deep_view() == old(self).deep_view().discarding_local(client.deep_view()),
    {
        self.routing.drop_subscriptions(client);
        let _inflight = self.sessions.inflight.remove(client);
        let _interval = self.sessions.session_expiry.remove(client);
        let _deadline = self.sessions.expiring.remove(client);
        self.forget_qos2_isolation(client);
    }

    /// Whether the lane of `client` takes a job at all.
    fn lane_has_headroom(&self, client: &ClientId) -> (r: bool)
        ensures
            r == self.deep_view().lane(client.deep_view()).takes_control(),
    {
        match self.sessions.lanes.get(client) {
            Some(l) => l.has_headroom(),
            None => true,
        }
    }

    /// See [`HubView::discarding`].
    pub fn discard_session(&mut self, client: &ClientId)
        ensures
            final(self).deep_view() == old(self).deep_view().discarding(client.deep_view()),
    {
        self.discard_session_local(client);
        if self.lane_has_headroom(client) {
            let _taken = self.submit_control_job(
                client,
                LaneJob::Remove { client: client.clone() },
            );
        } else {
            self.emit(Effect::RemoveSession { client: client.clone() });
        }
    }

    /// See [`HubView::willing`].
    pub fn publish_will(&mut self, w: &Publication)
        ensures
            final(self).deep_view() == old(self).deep_view().willing(w.deep_view()),
    {
        let mut p = w.clone();
        p.message_expiry = None;
        let _outcome = self.publish(&p, None, None);
    }

    /// See [`HubView::attaching`].
    pub fn attach(&mut self, pending: PendingAttach, clean_start: bool)
        ensures
            final(self).deep_view() == old(self).deep_view().attaching(
                pending.deep_view(),
                clean_start,
            ),
    {
        let _deadline = self.sessions.expiring.remove(&pending.client);
        if clean_start {
            self.discard_session_local(&pending.client);
        }
        self.sessions.connecting.insert(pending.client.clone(), pending.conn_id);
        if !clean_start {
            self.emit(Effect::Recover { pending });
            return;
        }
        if self.lane_has_headroom(&pending.client) {
            let client = pending.client.clone();
            let _taken = self.submit_control_job(&client, LaneJob::Discard(Box::new(pending)));
        } else {
            self.emit(Effect::Discard { pending });
        }
    }

    /// See [`HubView::replacing`].
    fn replace_connection(&mut self, client: &ClientId)
        ensures
            final(self).deep_view() == old(self).deep_view().replacing(client.deep_view()),
    {
        let ghost h = self.deep_view();
        proof {
            if !bound(h.sessions.online, client.deep_view()) {
                lemma_cut_unbound(h.sessions.online, client.deep_view());
            }
        }
        match self.sessions.online.remove(client) {
            Some(old_one) => {
                self.emit(Effect::Close { conn: old_one.conn_id });
                if let Some(w) = &old_one.will {
                    self.publish_will(w);
                }
            },
            None => {},
        }
    }

    /// See [`HubView::keeping_session`].
    fn keep_session(&mut self, client: &ClientId, secs: u32)
        ensures
            final(self).deep_view() == old(self).deep_view().keeping_session(
                client.deep_view(),
                secs,
            ),
    {
        if secs == 0 {
            let _gone = self.sessions.session_expiry.remove(client);
        } else {
            self.sessions.session_expiry.insert(client.clone(), secs);
            self.emit(Effect::SetSessionExpiry { client: client.clone(), deadline: None });
        }
    }

    /// See [`HubView::resending`].
    fn resend_pending(&mut self, client: &ClientId)
        ensures
            final(self).deep_view() == old(self).deep_view().resending(
                client.deep_view(),
                old(self).deep_view().inf(client.deep_view()).pending,
            ),
    {
        let ghost base = self.deep_view();
        let ghost c = client.deep_view();
        let ghost ps = base.inf(c).pending;
        let mut packets: Vec<(Packet, usize)> = Vec::new();
        assert(packets.deep_view() =~= Seq::empty());
        match self.sessions.inflight.get(client) {
            None => {},
            Some(inf) => {
                let mut i: usize = 0;
                assert(packets.deep_view() =~= resent(ps.take(0)));
                while i < inf.pending.len()
                    invariant
                        i <= ps.len(),
                        ps == inf.deep_view().pending,
                        packets.deep_view() == resent(ps.take(i as int)),
                    decreases ps.len() - i,
                {
                    proof {
                        assert(ps.take(i as int + 1).drop_last() =~= ps.take(i as int));
                        assert(ps.take(i as int + 1).last() == ps[i as int]);
                    }
                    let pkid: u16 = *inf.pending.key_at(i);
                    let p = inf.pending.value_at(i);
                    match p.state {
                        OutState::AwaitingPubAck | OutState::AwaitingPubRec => {
                            let packet = publish_packet(&p.message, Some(pkid), true, false, None);
                            push_item(&mut packets, (packet, message_bytes(&p.message)));
                        },
                        OutState::AwaitingPubComp => {
                            push_item(&mut packets, (Packet::PubRel(pkid), 0));
                        },
                        _ => {},
                    }
                    i += 1;
                }
                assert(ps.take(i as int) =~= ps);
            },
        }
        assert(packets.deep_view() == resent(ps));
        let ghost pk = packets.deep_view();
        let ghost mut k: int = 0;
        assert(pk.take(0) =~= Seq::empty());
        for entry in it: packets
            invariant
                it.seq() == packets@,
                pk == packets.deep_view(),
                c == client.deep_view(),
                k == it.index(),
                self.deep_view() == base.sending_each(c, pk.take(k)),
        {
            proof {
                assert(pk.take(k + 1).drop_last() =~= pk.take(k));
                assert(pk.take(k + 1).last() == pk[k]);
                assert(pk[k] == entry.deep_view());
            }
            let (packet, size) = entry;
            self.send_packet(client, packet, size);
            proof {
                k = k + 1;
            }
        }
        assert(pk.take(k) =~= pk);
        proof {
            lemma_resent(base, c, ps);
        }
    }

    /// See [`HubView::only_revoked`].
    fn only_revoked(&self, client: &ClientId, revoked: &Vec<String>, topic: &str) -> (r: bool)
        ensures
            r == self.deep_view().only_revoked(client.deep_view(), revoked.deep_view(), topic@),
    {
        if !any_admits(revoked, topic) {
            return false;
        }
        match self.routing.subs_by_client.get(client) {
            Some(g) => !any_key_admits(g, topic),
            None => {
                let nothing: Table<String, QoS> = Table::new();
                !any_key_admits(&nothing, topic)
            },
        }
    }

    /// See [`HubView::replaying_one`].
    fn replay_one(&mut self, client: &ClientId, revoked: &Vec<String>, q: &QueuedMessage)
        ensures
            final(self).deep_view() == old(self).deep_view().replaying_one(
                client.deep_view(),
                revoked.deep_view(),
                q.deep_view(),
            ),
    {
        if self.only_revoked(client, revoked, q.message.topic.as_str()) {
            return;
        }
        let in_hand = match self.sessions.inflight.get(client) {
            Some(inf) => inf.in_hand(q.offset),
            None => false,
        };
        if in_hand {
            return;
        }
        let left: Option<u32> = match q.expiry_at {
            Some(d) => {
                if d <= self.now {
                    return;
                }
                let rest: u64 = d - self.now;
                if rest > 0xffff_ffff {
                    Some(u32::MAX)
                } else {
                    Some(rest as u32)
                }
            },
            None => None,
        };
        self.send_to_client(client, &q.message, false, left, Some(q.offset));
    }

    /// See [`HubView::replaying_queue`], for what [`first_of`] leaves of `queue`.
    fn replay_queue(&mut self, client: &ClientId, revoked: &Vec<String>, queue: &Vec<QueuedMessage>)
        ensures
            final(self).deep_view() == old(self).deep_view().replaying_queue(
                client.deep_view(),
                revoked.deep_view(),
                first_of(queue.deep_view()),
            ),
    {
        let ghost base = self.deep_view();
        let ghost c = client.deep_view();
        let ghost gone = revoked.deep_view();
        let ghost all = queue.deep_view();
        let ghost q = first_of(all);
        let n: usize = if queue.len() > REPLAY_LIMIT {
            REPLAY_LIMIT
        } else {
            queue.len()
        };
        let mut last: u64 = 0;
        let mut i: usize = 0;
        assert(q.take(0) =~= Seq::empty());
        while i < n
            invariant
                i <= n,
                n <= queue@.len(),
                n == q.len(),
                all == queue.deep_view(),
                q == first_of(all),
                c == client.deep_view(),
                gone == revoked.deep_view(),
                last == last_offset(q.take(i as int)),
                self.deep_view() == base.replaying_each(c, gone, q.take(i as int)),
            decreases n - i,
        {
            proof {
                assert(q.take(i as int + 1).drop_last() =~= q.take(i as int));
                assert(q.take(i as int + 1).last() == q[i as int]);
                assert(q[i as int] == all[i as int]);
            }
            last = queue[i].offset;
            self.replay_one(client, revoked, &queue[i]);
            i += 1;
        }
        assert(q.take(i as int) =~= q);
        if last > 0 {
            let inf = self.sessions.inflight.entry_or(client, Inflight::new());
            if inf.high_water < last {
                inf.high_water = last;
            }
            if inf.tracked_through < last {
                inf.tracked_through = last;
            }
            self.truncate_acked(client);
        }
    }

    /// See [`HubView::resubscribing`]; returns the filters that were revoked.
    fn resubscribe(
        &mut self,
        client: &ClientId,
        subs: Vec<Subscription>,
        denied: &Vec<String>,
        lasting: bool,
    ) -> (r: Vec<String>)
        ensures
            final(self).deep_view() == old(self).deep_view().resubscribing(
                client.deep_view(),
                subs.deep_view(),
                denied.deep_view(),
                lasting,
            ),
            r.deep_view() == revoked(subs.deep_view(), denied.deep_view()),
    {
        let (kept, gone) = split_denied(subs, denied);
        self.routing.enter_each(client, &kept);
        if kept.len() > 0 {
            self.gossip_interest();
        }
        if gone.len() > 0 {
            self.prune(client, &gone, lasting);
        }
        gone
    }

    /// See [`HubView::finishing`].
    #[verifier::spinoff_prover]
    #[verifier::rlimit(60)]
    pub fn finish_attach(
        &mut self,
        pending: PendingAttach,
        session_present: bool,
        subscriptions: Vec<Subscription>,
        queue: &Option<Vec<QueuedMessage>>,
        denied: &Vec<String>,
    )
        ensures
            final(self).deep_view() == old(self).deep_view().finishing(
                pending.deep_view(),
                session_present,
                subscriptions.deep_view(),
                queue.deep_view(),
                denied.deep_view(),
            ),
    {
        let PendingAttach {
            client,
            admission,
            conn_id,
            session_expiry,
            receive_maximum,
            will,
            reply,
        } = pending;
        if self.refuses_session(&client, session_present) {
            self.emit(Effect::Reap { client, token: reply });
            return;
        }
        let gone = self.resubscribe(&client, subscriptions, denied, session_expiry > 0);
        self.keep_session(&client, session_expiry);
        let inf = self.sessions.inflight.entry_or(&client, Inflight::new());
        inf.receive_maximum = receive_maximum;
        self.replace_connection(&client);
        let attached_at = self.instant;
        self.sessions.online.insert(
            client.clone(),
            Online { conn_id, will, admission, attached_at, queued: 0, queued_bytes: 0 },
        );
        self.emit(
            Effect::Attached { token: reply, result: AttachOutcome::Present(session_present) },
        );
        self.resend_pending(&client);
        if let Some(q) = queue {
            self.replay_queue(&client, &gone, q);
        }
    }

    /// Goes on with an attach once its session was fetched. `queue` is the queue of the session, as
    /// far as it could be read, from its head on. It must be read when what was fetched is taken
    /// up, with no other command taken up in between: what is recorded while a client attaches is
    /// not sent when its job is done, and is the replay's to send. `denied` are the filters that
    /// the present policy does not let the client have. See [`HubView::recovering`].
    pub fn session_recovered(
        &mut self,
        pending: PendingAttach,
        recovery: SessionRecovery,
        queue: &Option<Vec<QueuedMessage>>,
        denied: &Vec<String>,
    )
        ensures
            final(self).deep_view() == old(self).deep_view().recovering(
                pending.deep_view(),
                recovery.deep_view(),
                queue.deep_view(),
                denied.deep_view(),
            ),
    {
        let current = match self.sessions.connecting.get(&pending.client) {
            Some(conn) => *conn == pending.conn_id,
            None => false,
        };
        if !current {
            self.emit(Effect::Close { conn: pending.conn_id });
            return;
        }
        let _conn = self.sessions.connecting.remove(&pending.client);
        match recovery {
            SessionRecovery::Ready { present, subscriptions } => {
                self.finish_attach(pending, present, subscriptions, queue, denied);
            },
            SessionRecovery::Cleaned => {
                let nothing: Vec<Subscription> = Vec::new();
                assert(nothing.deep_view() =~= Seq::empty());
                self.finish_attach(pending, false, nothing, &None, denied);
            },
            SessionRecovery::Unavailable => {
                self.emit(
                    Effect::Attached { token: pending.reply, result: AttachOutcome::Unavailable },
                );
            },
            SessionRecovery::Denied { owner: _ } => {
                self.emit(
                    Effect::Attached {
                        token: pending.reply,
                        result: AttachOutcome::OwnerMismatch,
                    },
                );
            },
        }
    }

    /// See [`HubView::parting`].
    fn part(&mut self, client: &ClientId)
        ensures
            final(self).deep_view() == old(self).deep_view().parting(client.deep_view()),
    {
        let secs: u32 = match self.sessions.session_expiry.get(client) {
            Some(s) => *s,
            None => 0,
        };
        if secs == 0 {
            self.discard_session(client);
            self.gossip_interest();
        } else {
            self.flush_backlog_to_store(client);
            if secs != SESSION_EXPIRY_NEVER {
                let deadline: u64 = self.now.saturating_add(secs as u64);
                self.emit(
                    Effect::SetSessionExpiry { client: client.clone(), deadline: Some(deadline) },
                );
                self.sessions.expiring.insert(client.clone(), deadline);
            }
        }
    }

    /// See [`HubView::detaching`].
    pub fn detach(&mut self, client: &ClientId, conn_id: u64, graceful: bool)
        ensures
            final(self).deep_view() == old(self).deep_view().detaching(
                client.deep_view(),
                conn_id,
                graceful,
            ),
    {
        let current = match self.sessions.online.get(client) {
            Some(o) => o.conn_id == conn_id,
            None => false,
        };
        if !current {
            return;
        }
        let departed = self.sessions.online.remove(client);
        self.emit(Effect::Close { conn: conn_id });
        if !graceful {
            if let Some(o) = &departed {
                if let Some(w) = &o.will {
                    self.publish_will(w);
                }
            }
        }
        self.part(client);
    }

    /// See [`HubView::evicting`].
    pub fn evict(&mut self, client: &ClientId)
        ensures
            final(self).deep_view() == old(self).deep_view().evicting(client.deep_view()),
    {
        let (conn_id, told) = match self.sessions.online.get(client) {
            Some(o) => (o.conn_id, o.admission.protocol == ProtocolVersion::V5),
            None => {
                return;
            },
        };
        if told {
            self.send_packet(client, Packet::Disconnect { reason: NOT_AUTHORIZED }, 0);
        }
        self.detach(client, conn_id, false);
    }
}

/// The packets that take the exchange about `pending` up, each with the room it takes.
pub open spec fn resent(pending: Seq<(u16, PendingOutView)>) -> Seq<(PacketView, usize)>
    decreases pending.len(),
{
    if pending.len() == 0 {
        Seq::empty()
    } else {
        let rest = resent(pending.drop_last());
        let (pkid, p) = pending.last();
        match p.state {
            OutState::AwaitingPubAck => rest.push(
                (publish_of(p.message, Some(pkid), true, false, None), room(p.message) as usize),
            ),
            OutState::AwaitingPubRec => rest.push(
                (publish_of(p.message, Some(pkid), true, false, None), room(p.message) as usize),
            ),
            OutState::AwaitingPubComp => rest.push((PacketView::PubRel(pkid), 0)),
            _ => rest,
        }
    }
}

impl HubView {
    /// With each of `packets` handed to the connection of `client`.
    pub open spec fn sending_each(self, client: Seq<char>, packets: Seq<(PacketView, usize)>) -> HubView
        decreases packets.len(),
    {
        if packets.len() == 0 {
            self
        } else {
            self.sending_each(client, packets.drop_last()).sending(
                client,
                packets.last().0,
                packets.last().1 as nat,
            )
        }
    }
}

proof fn lemma_resent(h: HubView, client: Seq<char>, pending: Seq<(u16, PendingOutView)>)
    ensures
        h.sending_each(client, resent(pending)) == h.resending(client, pending),
    decreases pending.len(),
{
    if pending.len() > 0 {
        let t = pending.drop_last();
        lemma_resent(h, client, t);
        let all = resent(pending);
        if all.len() > resent(t).len() {
            assert(all.drop_last() =~= resent(t));
        }
    }
}

/// Dropping a key that is not bound changes nothing.
pub proof fn lemma_cut_unbound<K, V>(s: Seq<(K, V)>, k: K)
    requires
        !bound(s, k),
    ensures
        cut(s, k) == s,
{
    crate::assoc::lemma_position(s, k);
    crate::assoc::lemma_filter_all(s, crate::assoc::not_key::<K, V>(k));
}

/// The end of a connection that was replaced changes nothing.
pub proof fn law_stale_detach(h: HubView, client: Seq<char>, conn_id: u64, graceful: bool)
    requires
        h.conn_of(client) != Some(conn_id),
    ensures
        h.detaching(client, conn_id, graceful) == h,
{
}

/// Of two attaches of the same client under way, the one that began last is let in: what the
/// store says of the other one only closes it.
pub proof fn law_last_attach_wins(
    h: HubView,
    a: AttachView,
    b: AttachView,
    clean_a: bool,
    clean_b: bool,
    recovery: RecoveryView,
    queue: Option<Seq<QueuedView>>,
    denied: Seq<Seq<char>>,
)
    requires
        a.client == b.client,
        a.conn_id != b.conn_id,
    ensures
        h.attaching(a, clean_a).attaching(b, clean_b).recovering(a, recovery, queue, denied)
            == h.attaching(a, clean_a).attaching(b, clean_b).doing(
            EffectView::Close { conn: a.conn_id },
        ),
{
    broadcast use crate::assoc::lemma_lookup_put;

}

/// A session that cannot be read is never taken for one that is not there: the client is told to
/// try again, and nothing it is owed is touched.
pub proof fn law_unavailable_is_not_absent(
    h: HubView,
    p: AttachView,
    queue: Option<Seq<QueuedView>>,
    denied: Seq<Seq<char>>,
)
    requires
        lookup(h.sessions.connecting, p.client) == Some(p.conn_id),
    ensures
        ({
            let r = h.recovering(p, RecoveryView::Unavailable, queue, denied);
            &&& r.effects == h.effects.push(
                EffectView::Attached { token: p.reply, result: AttachOutcome::Unavailable },
            )
            &&& r.routing == h.routing
            &&& r.sessions.online == h.sessions.online
            &&& r.sessions.inflight == h.sessions.inflight
            &&& r.sessions.session_expiry == h.sessions.session_expiry
        }),
{
}

/// A session that is resumed, or whose client is connected or known here, is never turned away.
pub proof fn law_only_strangers_are_refused(h: HubView, client: Seq<char>, present: bool)
    requires
        present || h.is_online(client) || h.persistent(client),
    ensures
        !h.refuses_session(client, present),
{
}

/// Whoever claims a session of somebody else gets nothing of it, and its holder loses nothing.
pub proof fn law_sessions_have_one_owner(
    h: HubView,
    p: AttachView,
    owner: Seq<char>,
    queue: Option<Seq<QueuedView>>,
    denied: Seq<Seq<char>>,
)
    requires
        lookup(h.sessions.connecting, p.client) == Some(p.conn_id),
    ensures
        ({
            let r = h.recovering(p, RecoveryView::Denied { owner }, queue, denied);
            &&& r.effects == h.effects.push(
                EffectView::Attached { token: p.reply, result: AttachOutcome::OwnerMismatch },
            )
            &&& r.routing == h.routing
            &&& r.sessions.online == h.sessions.online
            &&& r.sessions.inflight == h.sessions.inflight
            &&& r.sessions.session_expiry == h.sessions.session_expiry
        }),
{
}

/// A client that comes back stops the clock of its session.
pub proof fn law_attach_cancels_expiry(h: HubView, p: AttachView, clean_start: bool)
    ensures
        !bound(h.attaching(p, clean_start).sessions.expiring, p.client),
{
    crate::assoc::lemma_lookup_cut(h.sessions.expiring, p.client, p.client);
    crate::assoc::lemma_lookup_cut(cut(h.sessions.expiring, p.client), p.client, p.client);
}

/// Whether `q` is due to be sent to `client` on resume: it has not expired, is not in hand, and a
/// subscription that was not revoked admits it.
pub open spec fn due(h: HubView, client: Seq<char>, revoked: Seq<Seq<char>>, q: QueuedView) -> bool {
    &&& !h.only_revoked(client, revoked, q.message.topic)
    &&& !h.inf(client).in_hand(q.offset)
    &&& !(q.expiry_at matches Some(d) && d <= h.now)
}

/// What `q` is as it is replayed: the message, with what is left of its interval.
pub open spec fn replay_entry(now: u64, q: QueuedView) -> BacklogView {
    BacklogView {
        message: q.message,
        retain: false,
        message_expiry: match q.expiry_at {
            Some(d) => Some(remaining(now, d)),
            None => None,
        },
        offset: Some(q.offset),
    }
}

/// The packet that carries `q` to the client under `pkid`.
pub open spec fn replay_packet(h: HubView, q: QueuedView, pkid: Option<u16>) -> PacketView {
    let e = replay_entry(h.now, q);
    publish_of(e.message, pkid, false, e.retain, e.message_expiry)
}

/// The exchange once every message of `queue` was handed out, and the packet id of each: none
/// where the message has no guarantee, or no packet id was left.
pub open spec fn handed_out(inf: InflightView, queue: Seq<QueuedView>) -> (
    InflightView,
    Seq<Option<u16>>,
)
    decreases queue.len(),
{
    if queue.len() == 0 {
        (inf, Seq::empty())
    } else {
        let (before, ids) = handed_out(inf, queue.drop_last());
        let q = queue.last();
        if q.message.qos == QoS::AtMostOnce {
            (before, ids.push(None))
        } else {
            let (next, id) = before.tracking(q.offset).allocated();
            match id {
                Some(pkid) => (
                    next.holding(
                        pkid,
                        PendingOutView {
                            message: q.message,
                            state: first_state(q.message.qos),
                            offset: Some(q.offset),
                        },
                    ),
                    ids.push(id),
                ),
                None => (next, ids.push(None)),
            }
        }
    }
}

/// Whether the offsets of `queue` rise.
pub open spec fn offsets_rise(queue: Seq<QueuedView>) -> bool {
    forall|i: int, j: int|
        0 <= i < j < queue.len() ==> (#[trigger] queue[i]).offset < (#[trigger] queue[j]).offset
}

/// Whether `queue` may be handed out at once to `client`, connected as `o`: every message is due,
/// none has to have its packet id recorded first, the client may hold them all, there is a packet
/// id for each that needs one, and the connection has room.
pub open spec fn all_go_out(
    h: HubView,
    client: Seq<char>,
    o: OnlineView,
    revoked: Seq<Seq<char>>,
    queue: Seq<QueuedView>,
) -> bool {
    &&& lookup(h.sessions.online, client) == Some(o)
    &&& h.limits.max_outbound_bytes is None
    &&& o.queued + queue.len() <= crate::inflight::MAX_OUTBOUND_QUEUE
    &&& offsets_rise(queue)
    &&& h.inf(client).backlog.len() == 0
    &&& h.inf(client).records_pending == 0
    &&& h.inf(client).pending.len() + queue.len() <= h.inf(client).receive_maximum
    &&& forall|i: int|
        0 <= i < queue.len() ==> (#[trigger] queue[i]).message.qos != QoS::ExactlyOnce && due(
            h,
            client,
            revoked,
            queue[i],
        )
    &&& forall|i: int|
        0 <= i < queue.len() ==> (#[trigger] queue[i]).message.qos == QoS::AtMostOnce
            || handed_out(h.inf(client), queue).1[i] is Some
}

/// The queue is read back as it was written: on resume the messages that wait in it, and are due,
/// are sent in their order, each with what is left of its interval, and those with a guarantee
/// under packet ids of their own; as far as the client may hold them, and none of them is to be
/// sent exactly once.
pub proof fn law_queue_is_replayed_in_order(
    h: HubView,
    client: Seq<char>,
    o: OnlineView,
    revoked: Seq<Seq<char>>,
    queue: Seq<QueuedView>,
)
    requires
        all_go_out(h, client, o, revoked, queue),
    ensures
        h.replaying_each(client, revoked, queue).effects == h.effects + Seq::new(
            queue.len(),
            |i: int|
                EffectView::Packet {
                    conn: o.conn_id,
                    packet: replay_packet(h, queue[i], handed_out(h.inf(client), queue).1[i]),
                },
        ),
        h.replaying_each(client, revoked, queue).inf(client) == handed_out(
            h.inf(client),
            queue,
        ).0,
{
    lemma_replayed(h, client, o, revoked, queue);
}

/// What was handed out is what the exchange holds, and nothing else has changed.
proof fn lemma_handed_out(inf: InflightView, queue: Seq<QueuedView>, offset: u64)
    ensures
        ({
            let (r, ids) = handed_out(inf, queue);
            &&& ids.len() == queue.len()
            &&& r.backlog == inf.backlog
            &&& r.records_pending == inf.records_pending
            &&& r.receive_maximum == inf.receive_maximum
            &&& r.pending.len() <= inf.pending.len() + queue.len()
            &&& r.in_hand(offset) ==> inf.in_hand(offset) || exists|i: int|
                0 <= i < queue.len() && (#[trigger] queue[i]).offset == offset
        }),
    decreases queue.len(),
{
    if queue.len() > 0 {
        let t = queue.drop_last();
        lemma_handed_out(inf, t, offset);
        let (before, ids) = handed_out(inf, t);
        let q = queue.last();
        assert(queue[queue.len() - 1] == q);
        let (r, _) = handed_out(inf, queue);
        if before.in_hand(offset) && !inf.in_hand(offset) {
            let i = choose|i: int| 0 <= i < t.len() && (#[trigger] t[i]).offset == offset;
            assert(queue[i].offset == offset);
        }
        if q.message.qos != QoS::AtMostOnce {
            crate::inflight::lemma_allocated_keeps_line(before.tracking(q.offset));
            let (next, id) = before.tracking(q.offset).allocated();
            match id {
                Some(pkid) => {
                    let p = PendingOutView {
                        message: q.message,
                        state: first_state(q.message.qos),
                        offset: Some(q.offset),
                    };
                    crate::assoc::lemma_put_ranked_len::<u16, PendingOutView>(
                        next.pending,
                        pkid,
                        p,
                    );
                    crate::assoc::lemma_rank_bound::<u16, PendingOutView>(next.pending, pkid);
                    if r.in_hand(offset) && offset != q.offset {
                        if exists|i: int|
                            0 <= i < r.pending.len() && (#[trigger] r.pending[i]).1.offset == Some(
                                offset,
                            ) && r.pending[i].1.state != OutState::AwaitingIdRecord {
                            let i = choose|i: int|
                                0 <= i < r.pending.len() && (#[trigger] r.pending[i]).1.offset
                                    == Some(offset) && r.pending[i].1.state
                                    != OutState::AwaitingIdRecord;
                            let n = crate::assoc::rank::<u16, PendingOutView>(next.pending, pkid);
                            let j = if i < n {
                                i
                            } else {
                                i - 1
                            };
                            assert(next.pending[j] == r.pending[i]);
                            assert(before.pending[j].1.offset == Some(offset));
                        } else {
                            let i = choose|i: int|
                                0 <= i < r.backlog.len() && (#[trigger] r.backlog[i]).offset
                                    == Some(offset);
                            assert(before.backlog[i].offset == Some(offset));
                        }
                        assert(before.in_hand(offset));
                    }
                },
                None => {
                    assert(r.in_hand(offset) ==> before.in_hand(offset));
                },
            }
        }
    }
}

proof fn lemma_replayed(
    h: HubView,
    client: Seq<char>,
    o: OnlineView,
    revoked: Seq<Seq<char>>,
    queue: Seq<QueuedView>,
)
    requires
        all_go_out(h, client, o, revoked, queue),
    ensures
        ({
            let r = h.replaying_each(client, revoked, queue);
            &&& r.effects == h.effects + Seq::new(
                queue.len(),
                |i: int|
                    EffectView::Packet {
                        conn: o.conn_id,
                        packet: replay_packet(h, queue[i], handed_out(h.inf(client), queue).1[i]),
                    },
            )
            &&& r.inf(client) == handed_out(h.inf(client), queue).0
            &&& r.routing == h.routing
            &&& r.now == h.now
            &&& r.limits == h.limits
            &&& lookup(r.sessions.online, client) matches Some(p) && p.conn_id == o.conn_id
                && p.queued == o.queued + queue.len()
        }),
    decreases queue.len(),
{
    broadcast use crate::assoc::lemma_lookup_put;

    let ids = handed_out(h.inf(client), queue).1;
    let sent = |i: int|
        EffectView::Packet {
            conn: o.conn_id,
            packet: replay_packet(h, queue[i], ids[i]),
        };
    if queue.len() == 0 {
        assert(h.effects + Seq::new(queue.len(), sent) =~= h.effects);
    } else {
        let t = queue.drop_last();
        let q = queue.last();
        let last = queue.len() - 1;
        assert(queue[last] == q);
        lemma_handed_out(h.inf(client), queue, q.offset);
        lemma_handed_out(h.inf(client), t, q.offset);
        let (before, ids_t) = handed_out(h.inf(client), t);
        assert forall|i: int| 0 <= i < t.len() implies ids[i] == #[trigger] ids_t[i] by {
            assert(ids == ids_t.push(ids[last]));
        }
        assert(all_go_out(h, client, o, revoked, t)) by {
            assert forall|i: int, j: int| 0 <= i < j < t.len() implies (#[trigger] t[i]).offset < (
            #[trigger] t[j]).offset by {
                assert(t[i] == queue[i] && t[j] == queue[j]);
            }
            assert forall|i: int| 0 <= i < t.len() implies (#[trigger] t[i]).message.qos
                != QoS::ExactlyOnce && due(h, client, revoked, t[i]) by {
                assert(t[i] == queue[i]);
            }
            assert forall|i: int| 0 <= i < t.len() implies (#[trigger] t[i]).message.qos
                == QoS::AtMostOnce || ids_t[i] is Some by {
                assert(t[i] == queue[i]);
                assert(ids[i] == ids_t[i]);
            }
        }
        lemma_replayed(h, client, o, revoked, t);
        let h1 = h.replaying_each(client, revoked, t);
        let p = lookup(h1.sessions.online, client)->Some_0;
        assert(due(h, client, revoked, q));
        assert(!before.in_hand(q.offset)) by {
            if exists|i: int| 0 <= i < t.len() && (#[trigger] t[i]).offset == q.offset {
                let i = choose|i: int| 0 <= i < t.len() && (#[trigger] t[i]).offset == q.offset;
                assert(queue[i].offset < queue[last].offset);
            }
        }
        assert(due(h1, client, revoked, q));
        let e = replay_entry(h.now, q);
        let h2 = h.replaying_each(client, revoked, queue);
        assert(h2 == h1.to_client(client, e));
        if q.message.qos != QoS::AtMostOnce {
            crate::inflight::lemma_allocated_keeps_line(before.tracking(q.offset));
            let tracked_h = h1.with_inf(client, before.tracking(q.offset));
            assert(tracked_h.inf(client) == before.tracking(q.offset));
            assert(!tracked_h.inf(client).must_wait());
            assert(ids[last] is Some);
        }
        assert(h2.effects == h1.effects.push(sent(last)));
        assert(h2.effects =~= h.effects + Seq::new(queue.len(), sent)) by {
            let sent_t = |i: int|
                EffectView::Packet {
                    conn: o.conn_id,
                    packet: replay_packet(h, t[i], ids_t[i]),
                };
            assert(h1.effects == h.effects + Seq::new(t.len(), sent_t));
            assert forall|i: int| 0 <= i < t.len() implies sent(i) == #[trigger] sent_t(i) by {
                assert(ids[i] == ids_t[i]);
            }
        }
    }
}

/// A message that is to be sent exactly once is not sent before its packet id is recorded, and
/// those behind it wait for that in their order: on resume a queue that starts with one has its
/// packet id recorded, and the rest of the queue, where every message has a guarantee and is due,
/// stands in line. The lane takes the job, and the line has room.
pub proof fn law_queue_waits_for_record(
    h: HubView,
    client: Seq<char>,
    revoked: Seq<Seq<char>>,
    queue: Seq<QueuedView>,
    pkid: u16,
)
    requires
        waits_behind_first(h, client, revoked, queue, pkid),
    ensures
        ({
            let r = h.replaying_each(client, revoked, queue);
            let first = replay_entry(h.now, queue[0]);
            &&& r.effects == h.effects.push(
                EffectView::Lane {
                    client,
                    job: LaneJobView::Deliver(
                        h.record_job(client, first, pkid, queue[0].offset),
                    ),
                },
            )
            &&& r.inf(client).backlog == Seq::new(
                (queue.len() - 1) as nat,
                |i: int| replay_entry(h.now, queue[i + 1]),
            )
        }),
{
    lemma_waits_behind_first(h, client, revoked, queue, pkid);
}

/// Whether `queue` starts with a message that is to be sent exactly once, for which `pkid` is at
/// hand and the lane takes a job, and goes on with messages that have a guarantee and are due, for
/// which there is room in line.
pub open spec fn waits_behind_first(
    h: HubView,
    client: Seq<char>,
    revoked: Seq<Seq<char>>,
    queue: Seq<QueuedView>,
    pkid: u16,
) -> bool {
    &&& 0 < queue.len() <= crate::inflight::MAX_BACKLOG
    &&& queue[0].message.qos == QoS::ExactlyOnce
    &&& h.limits.max_backlog_bytes is None
    &&& h.lane(client).takes_delivery()
    &&& !h.inf(client).must_wait()
    &&& h.inf(client).tracking(queue[0].offset).allocated().1 == Some(pkid)
    &&& offsets_rise(queue)
    &&& forall|i: int|
        0 <= i < queue.len() ==> (#[trigger] queue[i]).message.qos != QoS::AtMostOnce && due(
            h,
            client,
            revoked,
            queue[i],
        )
}

proof fn lemma_waits_behind_first(
    h: HubView,
    client: Seq<char>,
    revoked: Seq<Seq<char>>,
    queue: Seq<QueuedView>,
    pkid: u16,
)
    requires
        waits_behind_first(h, client, revoked, queue, pkid),
    ensures
        ({
            let r = h.replaying_each(client, revoked, queue);
            let first = replay_entry(h.now, queue[0]);
            let line = Seq::new(
                (queue.len() - 1) as nat,
                |i: int| replay_entry(h.now, queue[i + 1]),
            );
            &&& r.effects == h.effects.push(
                EffectView::Lane {
                    client,
                    job: LaneJobView::Deliver(
                        h.record_job(client, first, pkid, queue[0].offset),
                    ),
                },
            )
            &&& r.inf(client).backlog == line
            &&& r.inf(client).records_pending > 0
            &&& forall|offset: u64| #[trigger]
                r.inf(client).in_hand(offset) ==> h.inf(client).in_hand(offset) || exists|i: int|
                    0 <= i < queue.len() && (#[trigger] queue[i]).offset == offset
            &&& r.routing == h.routing
            &&& r.now == h.now
            &&& r.limits == h.limits
        }),
    decreases queue.len(),
{
    broadcast use crate::assoc::lemma_lookup_put;

    let t = queue.drop_last();
    let q = queue.last();
    let last = queue.len() - 1;
    assert(queue[last] == q);
    let e = replay_entry(h.now, q);
    let line = Seq::new((queue.len() - 1) as nat, |i: int| replay_entry(h.now, queue[i + 1]));
    if t.len() == 0 {
        assert(h.replaying_each(client, revoked, t) == h);
        let inf = h.inf(client).tracking(q.offset);
        crate::inflight::lemma_allocated_keeps_line(inf);
        let next = inf.allocated().0;
        let p = PendingOutView {
            message: q.message,
            state: OutState::AwaitingIdRecord,
            offset: Some(q.offset),
        };
        let r = h.replaying_each(client, revoked, queue);
        assert(due(h, client, revoked, q));
        assert(r == h.to_client(client, e));
        let parked = next.holding(pkid, p);
        assert(r.inf(client) == InflightView {
            records_pending: crate::hub::held(next.records_pending, 1),
            ..parked
        });
        assert(line =~= Seq::empty());
        assert(r.inf(client).backlog =~= line);
        crate::assoc::lemma_rank_bound::<u16, PendingOutView>(next.pending, pkid);
        assert forall|offset: u64| #[trigger] r.inf(client).in_hand(offset) implies h.inf(
            client,
        ).in_hand(offset) || exists|i: int|
            0 <= i < queue.len() && (#[trigger] queue[i]).offset == offset by {
            let s = r.inf(client).pending;
            if exists|i: int|
                0 <= i < s.len() && (#[trigger] s[i]).1.offset == Some(offset) && s[i].1.state
                    != OutState::AwaitingIdRecord {
                let i = choose|i: int|
                    0 <= i < s.len() && (#[trigger] s[i]).1.offset == Some(offset) && s[i].1.state
                        != OutState::AwaitingIdRecord;
                let n = crate::assoc::rank::<u16, PendingOutView>(next.pending, pkid);
                let j = if i < n {
                    i
                } else {
                    i - 1
                };
                assert(next.pending[j] == s[i]);
                assert(h.inf(client).pending[j].1.offset == Some(offset));
            }
        }
    } else {
        assert(waits_behind_first(h, client, revoked, t, pkid)) by {
            assert(t[0] == queue[0]);
            assert forall|i: int, j: int| 0 <= i < j < t.len() implies (#[trigger] t[i]).offset < (
            #[trigger] t[j]).offset by {
                assert(t[i] == queue[i] && t[j] == queue[j]);
            }
            assert forall|i: int| 0 <= i < t.len() implies (#[trigger] t[i]).message.qos
                != QoS::AtMostOnce && due(h, client, revoked, t[i]) by {
                assert(t[i] == queue[i]);
            }
        }
        lemma_waits_behind_first(h, client, revoked, t, pkid);
        let h1 = h.replaying_each(client, revoked, t);
        let line_t = Seq::new((t.len() - 1) as nat, |i: int| replay_entry(h.now, t[i + 1]));
        assert(due(h, client, revoked, q));
        assert(!h1.inf(client).in_hand(q.offset)) by {
            if h1.inf(client).in_hand(q.offset) {
                let i = choose|i: int| 0 <= i < t.len() && (#[trigger] t[i]).offset == q.offset;
                assert(queue[i].offset < queue[last].offset);
            }
        }
        assert(due(h1, client, revoked, q));
        let r = h.replaying_each(client, revoked, queue);
        assert(r == h1.to_client(client, e));
        let tracking = h1.with_inf(client, h1.inf(client).tracking(q.offset));
        let inf = tracking.inf(client);
        assert(inf == h1.inf(client).tracking(q.offset));
        assert(crate::inflight::has_place(inf.backlog, e, h.limits));
        assert(crate::inflight::make_place(inf.backlog, e, h.limits) == inf.backlog);
        let gone = inf.evicted(e, h.limits);
        assert(gone =~= Seq::empty());
        let queued = tracking.queueing(client, e);
        assert(queued.inf(client) == inf.waiting(e, h.limits));
        assert(queued.drained(client) == queued);
        assert(line_t.push(e) =~= line) by {
            assert forall|i: int| 0 <= i < line.len() implies line_t.push(e)[i]
                == #[trigger] line[i] by {
                if i < line_t.len() {
                    assert(t[i + 1] == queue[i + 1]);
                }
            }
        }
        assert(r.inf(client).backlog == line);
        assert forall|offset: u64| #[trigger] r.inf(client).in_hand(offset) implies h.inf(
            client,
        ).in_hand(offset) || exists|i: int|
            0 <= i < queue.len() && (#[trigger] queue[i]).offset == offset by {
            if offset == q.offset {
                assert(queue[last].offset == offset);
            } else {
                let b = r.inf(client).backlog;
                if exists|i: int|
                    0 <= i < b.len() && (#[trigger] b[i]).offset == Some(offset) {
                    let i = choose|i: int|
                        0 <= i < b.len() && (#[trigger] b[i]).offset == Some(offset);
                    assert(queue[i + 1].offset == offset);
                } else {
                    let s = h1.inf(client).pending;
                    assert(r.inf(client).pending == s);
                    assert(h1.inf(client).in_hand(offset));
                    if !h.inf(client).in_hand(offset) {
                        let i = choose|i: int|
                            0 <= i < t.len() && (#[trigger] t[i]).offset == offset;
                        assert(queue[i].offset == offset);
                    }
                }
            }
        }
    }
}

/// A queue is replayed part by part: what comes later in it starts from what the part before it
/// has left behind, whatever the messages of the two parts promise.
pub proof fn law_queue_is_replayed_part_by_part(
    h: HubView,
    client: Seq<char>,
    revoked: Seq<Seq<char>>,
    first: Seq<QueuedView>,
    rest: Seq<QueuedView>,
)
    ensures
        h.replaying_each(client, revoked, first + rest) == h.replaying_each(
            client,
            revoked,
            first,
        ).replaying_each(client, revoked, rest),
    decreases rest.len(),
{
    if rest.len() == 0 {
        assert(first + rest =~= first);
    } else {
        law_queue_is_replayed_part_by_part(h, client, revoked, first, rest.drop_last());
        assert((first + rest).drop_last() =~= first + rest.drop_last());
    }
}

} // verus!
