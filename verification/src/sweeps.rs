//! What is looked after from time to time: expired sessions, sessions that died elsewhere, and
//! whoever a new policy shuts out.

use vstd::prelude::*;

use crate::assoc::{bound, lookup, put, push_item, Table};
use crate::cluster::{ClusterView, PeerView};
use crate::effects::{Effect, EffectView};
use crate::hub::{Hub, HubView, SessionsView};
use crate::ids::{ClientId, NodeId};
use crate::policy::AuthMethod;
use crate::qos::QoS;
use crate::retained::same_bytes;
use crate::session::{Online, OnlineView};
use crate::subscriptions::{Grants, Subscription};

verus! {

/// How many sweeps lie between two looks at the stored sessions.
pub const EXPIRY_RECONCILE_EVERY: u32 = 30;

/// Why a connected client is thrown out.
#[derive(Debug, Clone, Copy, PartialEq, Eq, Structural)]
pub enum Eviction {
    /// Its certificate was revoked.
    CertRevoked,
    /// Its user is no more.
    UserRemoved,
    /// It may not connect any more.
    ConnectDenied,
}

impl DeepView for Eviction {
    type V = Eviction;

    open spec fn deep_view(&self) -> Eviction {
        *self
    }
}

impl Eviction {
    /// The name under which it is recorded.
    pub fn as_str(self) -> (r: &'static str)
        ensures
            r@ == (match self {
                Eviction::CertRevoked => "cert-revoked"@,
                Eviction::UserRemoved => "user-removed"@,
                Eviction::ConnectDenied => "connect-denied"@,
            }),
    {
        match self {
            Eviction::CertRevoked => "cert-revoked",
            Eviction::UserRemoved => "user-removed",
            Eviction::ConnectDenied => "connect-denied",
        }
    }
}

/// What a new policy says of those who are connected.
#[derive(Debug)]
pub struct SweepPolicy {
    /// The serial numbers of revoked client certificates.
    pub revoked: Vec<Vec<u8>>,
    /// The serial numbers of revoked node certificates.
    pub peer_revoked: Vec<Vec<u8>>,
    /// The users that are no more.
    pub missing_users: Vec<String>,
    /// The clients that may not connect.
    pub refused: Vec<ClientId>,
    /// The filters that clients may not subscribe to.
    pub denied: Vec<(ClientId, String)>,
}

/// Model of [`SweepPolicy`].
#[verifier::ext_equal]
pub struct SweepPolicyView {
    pub revoked: Seq<Seq<u8>>,
    pub peer_revoked: Seq<Seq<u8>>,
    pub missing_users: Seq<Seq<char>>,
    pub refused: Seq<Seq<char>>,
    pub denied: Seq<(Seq<char>, Seq<char>)>,
}

impl DeepView for SweepPolicy {
    type V = SweepPolicyView;

    open spec fn deep_view(&self) -> SweepPolicyView {
        SweepPolicyView {
            revoked: self.revoked.deep_view(),
            peer_revoked: self.peer_revoked.deep_view(),
            missing_users: self.missing_users.deep_view(),
            refused: self.refused.deep_view(),
            denied: self.denied.deep_view(),
        }
    }
}

impl SweepPolicyView {
    /// Why `client` is thrown out; the first reason that holds.
    pub open spec fn eviction(self, client: Seq<char>, o: OnlineView) -> Option<Eviction> {
        if o.admission.cert_serial matches Some(serial) && self.revoked.contains(serial) {
            Some(Eviction::CertRevoked)
        } else if o.admission.method == AuthMethod::Password && self.missing_users.contains(
            o.admission.identity.subject,
        ) {
            Some(Eviction::UserRemoved)
        } else if self.refused.contains(client) {
            Some(Eviction::ConnectDenied)
        } else {
            None
        }
    }

    /// Those of `online` that are thrown out.
    pub open spec fn victims(self, online: Seq<(Seq<char>, OnlineView)>) -> Seq<
        (Seq<char>, Eviction),
    >
        decreases online.len(),
    {
        if online.len() == 0 {
            Seq::empty()
        } else {
            let rest = self.victims(online.drop_last());
            match self.eviction(online.last().0, online.last().1) {
                Some(e) => rest.push((online.last().0, e)),
                None => rest,
            }
        }
    }

    /// The filters of `grants` that `client` may not subscribe to any more.
    pub open spec fn lost_grants(self, client: Seq<char>, grants: Grants) -> Seq<Seq<char>>
        decreases grants.len(),
    {
        if grants.len() == 0 {
            Seq::empty()
        } else {
            let rest = self.lost_grants(client, grants.drop_last());
            if self.denied.contains((client, grants.last().0)) {
                rest.push(grants.last().0)
            } else {
                rest
            }
        }
    }

    /// Those of `online` that lose subscriptions, and which.
    pub open spec fn losers(
        self,
        online: Seq<(Seq<char>, OnlineView)>,
        subs: Seq<(Seq<char>, Grants)>,
    ) -> Seq<(Seq<char>, Seq<Seq<char>>)>
        decreases online.len(),
    {
        if online.len() == 0 {
            Seq::empty()
        } else {
            let rest = self.losers(online.drop_last(), subs);
            let c = online.last().0;
            let lost = match lookup(subs, c) {
                Some(g) => self.lost_grants(c, g),
                None => Seq::empty(),
            };
            if lost.len() > 0 {
                rest.push((c, lost))
            } else {
                rest
            }
        }
    }

    /// The linked nodes whose certificate was revoked.
    pub open spec fn lost_peers(self, peers: Seq<(Seq<char>, PeerView)>) -> Seq<Seq<char>>
        decreases peers.len(),
    {
        if peers.len() == 0 {
            Seq::empty()
        } else {
            let rest = self.lost_peers(peers.drop_last());
            if peers.last().1.cert_serial matches Some(serial) && self.peer_revoked.contains(
                serial,
            ) {
                rest.push(peers.last().0)
            } else {
                rest
            }
        }
    }
}

/// The clients whose sessions have expired at `now`.
pub open spec fn expired(expiring: Seq<(Seq<char>, u64)>, now: u64) -> Seq<Seq<char>>
    decreases expiring.len(),
{
    if expiring.len() == 0 {
        Seq::empty()
    } else {
        let rest = expired(expiring.drop_last(), now);
        if expiring.last().1 <= now {
            rest.push(expiring.last().0)
        } else {
            rest
        }
    }
}

/// A stored session: its client, its subscriptions, and when it expires.
pub type StoredSession = (ClientId, Vec<Subscription>, Option<u64>);

/// Model of [`StoredSession`].
pub type StoredView = (Seq<char>, Grants, Option<u64>);

impl HubView {
    /// With the stored sessions being read, if they are not already.
    pub open spec fn scanning(self) -> HubView {
        if self.cluster.scan_inflight {
            self
        } else {
            self.with_cluster(ClusterView { scan_inflight: true, ..self.cluster }).doing(
                EffectView::ScanSessions,
            )
        }
    }

    /// With the sessions of each of `clients` gone.
    pub open spec fn discarding_each(self, clients: Seq<Seq<char>>) -> HubView
        decreases clients.len(),
    {
        if clients.len() == 0 {
            self
        } else {
            self.discarding_each(clients.drop_last()).discarding(clients.last())
        }
    }

    /// With one more sweep counted, and the stored sessions read if it is time: at every sweep
    /// while sessions may turn up that died elsewhere, else once in a while.
    pub open spec fn reconciling(self) -> HubView {
        let tick = if self.sessions.reconcile_tick == u32::MAX {
            0u32
        } else {
            (self.sessions.reconcile_tick + 1) as u32
        };
        let h = self.with_sessions(SessionsView { reconcile_tick: tick, ..self.sessions });
        if h.cluster.takeover_ticks > 0 {
            h.with_cluster(
                ClusterView {
                    takeover_ticks: (h.cluster.takeover_ticks - 1) as u8,
                    ..h.cluster
                },
            ).scanning()
        } else if tick % EXPIRY_RECONCILE_EVERY == 0 {
            h.scanning()
        } else {
            h
        }
    }

    /// With the sessions swept.
    pub open spec fn sweeping_sessions(self) -> HubView {
        let h = self.reconciling();
        let gone = expired(h.sessions.expiring, h.now);
        if gone.len() > 0 {
            h.discarding_each(gone).gossiping()
        } else {
            h
        }
    }

    /// Whether a stored session is none of this node's business: its client is here, or attaches,
    /// or is somebody else's.
    pub open spec fn ignores(self, client: Seq<char>) -> bool {
        self.is_online(client) || bound(self.sessions.connecting, client) || !self.cluster.owns(
            client,
            self.node_id,
        )
    }

    /// With a stored session taken over: its deadline is watched, and its subscriptions count
    /// from now on, where this node knew none.
    pub open spec fn inheriting_one(self, s: StoredView) -> HubView {
        let (client, subs, deadline) = s;
        if self.ignores(client) {
            self
        } else {
            let h = match deadline {
                Some(d) => if bound(self.sessions.expiring, client) {
                    self
                } else {
                    self.with_sessions(
                        SessionsView {
                            expiring: put(self.sessions.expiring, client, d),
                            ..self.sessions
                        },
                    )
                },
                None => self,
            };
            if !self.materializes(s) {
                h
            } else {
                h.with_routing(h.routing.entering_each(client, subs)).with_sessions(
                    SessionsView {
                        session_expiry: if bound(h.sessions.session_expiry, client) {
                            h.sessions.session_expiry
                        } else {
                            put(h.sessions.session_expiry, client, u32::MAX)
                        },
                        ..h.sessions
                    },
                )
            }
        }
    }

    /// Whether the subscriptions of a stored session count from now on.
    pub open spec fn materializes(self, s: StoredView) -> bool {
        !self.ignores(s.0) && s.1.len() > 0 && !bound(self.routing.subs_by_client, s.0)
    }

    /// With each of `sessions` taken over; and whether subscriptions were.
    pub open spec fn inheriting_each(self, sessions: Seq<StoredView>) -> (HubView, bool)
        decreases sessions.len(),
    {
        if sessions.len() == 0 {
            (self, false)
        } else {
            let (h, any) = self.inheriting_each(sessions.drop_last());
            (h.inheriting_one(sessions.last()), any || h.materializes(sessions.last()))
        }
    }

    /// With the stored sessions, which were read, taken over; publishes that waited for them are
    /// delivered.
    pub open spec fn inheriting(self, sessions: Seq<StoredView>) -> HubView {
        let (h, any) = self.with_cluster(
            ClusterView { scan_inflight: false, ..self.cluster },
        ).inheriting_each(sessions);
        (if any {
            h.gossiping()
        } else {
            h
        }).settling()
    }

    /// With each of `victims` thrown out.
    pub open spec fn evicting_each(self, victims: Seq<(Seq<char>, Eviction)>) -> HubView
        decreases victims.len(),
    {
        if victims.len() == 0 {
            self
        } else {
            self.evicting_each(victims.drop_last()).evicting(victims.last().0)
        }
    }

    /// With each of `losers` unsubscribed.
    pub open spec fn unsubscribing_each(self, losers: Seq<(Seq<char>, Seq<Seq<char>>)>) -> HubView
        decreases losers.len(),
    {
        if losers.len() == 0 {
            self
        } else {
            self.unsubscribing_each(losers.drop_last()).unsubscribing(
                losers.last().0,
                losers.last().1,
            )
        }
    }

    /// Without the links to each of `nodes`.
    pub open spec fn unlinking_each(self, nodes: Seq<Seq<char>>) -> HubView
        decreases nodes.len(),
    {
        if nodes.len() == 0 {
            self
        } else {
            self.unlinking_each(nodes.drop_last()).unlinking(nodes.last())
        }
    }

    /// With a handoff that is unanswered sent again, or waiting again.
    pub open spec fn retrying(self) -> HubView {
        self.with_retained(self.retained.retried(self.cluster)).doing_all(
            self.retained.retry_effects(self.cluster),
        )
    }

    /// With everything swept.
    pub open spec fn ticking(self) -> HubView {
        let h = self.remeshed().sweeping_sessions().retrying().kicking().sweeping();
        h.retiring_each(h.qos2.cleanup)
    }
}

fn holds_serial(list: &Vec<Vec<u8>>, serial: &Option<Vec<u8>>) -> (r: bool)
    ensures
        r == (serial.deep_view() matches Some(s) && list.deep_view().contains(s)),
{
    match serial {
        None => false,
        Some(s) => {
            let ghost l = list.deep_view();
            assert(s.deep_view() =~= s@);
            let mut i: usize = 0;
            while i < list.len()
                invariant
                    i <= list@.len(),
                    l == list.deep_view(),
                    s.deep_view() == s@,
                    serial.deep_view() == Some(s.deep_view()),
                    forall|j: int| 0 <= j < i ==> #[trigger] l[j] != s@,
                decreases list@.len() - i,
            {
                assert(l[i as int] =~= list@[i as int]@);
                if same_bytes(&list[i], s) {
                    assert(l[i as int] == s@);
                    return true;
                }
                i += 1;
            }
            false
        },
    }
}

impl SweepPolicy {
    /// See [`SweepPolicyView::eviction`].
    fn eviction(&self, client: &ClientId, o: &Online) -> (r: Option<Eviction>)
        ensures
            r == self.deep_view().eviction(client.deep_view(), o.deep_view()),
    {
        if holds_serial(&self.revoked, &o.admission.cert_serial) {
            return Some(Eviction::CertRevoked);
        }
        if o.admission.method == AuthMethod::Password && crate::assoc::contains_key(
            &self.missing_users,
            &o.admission.identity.subject,
        ) {
            return Some(Eviction::UserRemoved);
        }
        if crate::assoc::contains_key(&self.refused, client) {
            return Some(Eviction::ConnectDenied);
        }
        None
    }

    /// See [`SweepPolicyView::victims`].
    pub fn victims(&self, online: &Table<ClientId, Online>) -> (r: Vec<(ClientId, Eviction)>)
        ensures
            r.deep_view() == self.deep_view().victims(online.deep_view()),
    {
        let ghost on = online.deep_view();
        let mut r: Vec<(ClientId, Eviction)> = Vec::new();
        let mut i: usize = 0;
        assert(r.deep_view() =~= self.deep_view().victims(on.take(0)));
        while i < online.len()
            invariant
                i <= on.len(),
                on == online.deep_view(),
                r.deep_view() == self.deep_view().victims(on.take(i as int)),
            decreases on.len() - i,
        {
            proof {
                assert(on.take(i as int + 1).drop_last() =~= on.take(i as int));
                assert(on.take(i as int + 1).last() == on[i as int]);
            }
            let client = online.key_at(i);
            if let Some(e) = self.eviction(client, online.value_at(i)) {
                push_item(&mut r, (client.clone(), e));
            }
            i += 1;
        }
        assert(on.take(i as int) =~= on);
        r
    }

    /// See [`SweepPolicyView::lost_grants`].
    fn lost_grants(&self, client: &ClientId, grants: &Table<String, QoS>) -> (r: Vec<String>)
        ensures
            r.deep_view() == self.deep_view().lost_grants(
                client.deep_view(),
                grants.deep_view(),
            ),
    {
        let ghost g = grants.deep_view();
        let ghost c = client.deep_view();
        let mut r: Vec<String> = Vec::new();
        let mut i: usize = 0;
        assert(r.deep_view() =~= self.deep_view().lost_grants(c, g.take(0)));
        while i < grants.len()
            invariant
                i <= g.len(),
                g == grants.deep_view(),
                c == client.deep_view(),
                r.deep_view() == self.deep_view().lost_grants(c, g.take(i as int)),
            decreases g.len() - i,
        {
            proof {
                assert(g.take(i as int + 1).drop_last() =~= g.take(i as int));
                assert(g.take(i as int + 1).last() == g[i as int]);
            }
            let pair = (client.clone(), grants.key_at(i).clone());
            if crate::assoc::contains_key(&self.denied, &pair) {
                push_item(&mut r, pair.1);
            }
            i += 1;
        }
        assert(g.take(i as int) =~= g);
        r
    }

    /// See [`SweepPolicyView::losers`].
    pub fn losers(
        &self,
        online: &Table<ClientId, Online>,
        subs: &Table<ClientId, Table<String, QoS>>,
    ) -> (r: Vec<(ClientId, Vec<String>)>)
        ensures
            r.deep_view() == self.deep_view().losers(online.deep_view(), subs.deep_view()),
    {
        let ghost on = online.deep_view();
        let ghost ss = subs.deep_view();
        let mut r: Vec<(ClientId, Vec<String>)> = Vec::new();
        let mut i: usize = 0;
        assert(r.deep_view() =~= self.deep_view().losers(on.take(0), ss));
        while i < online.len()
            invariant
                i <= on.len(),
                on == online.deep_view(),
                ss == subs.deep_view(),
                r.deep_view() == self.deep_view().losers(on.take(i as int), ss),
            decreases on.len() - i,
        {
            proof {
                assert(on.take(i as int + 1).drop_last() =~= on.take(i as int));
                assert(on.take(i as int + 1).last() == on[i as int]);
            }
            let client = online.key_at(i);
            if let Some(g) = subs.get(client) {
                let lost = self.lost_grants(client, g);
                assert(lost.deep_view().len() == lost@.len());
                if lost.len() > 0 {
                    push_item(&mut r, (client.clone(), lost));
                }
            }
            i += 1;
        }
        assert(on.take(i as int) =~= on);
        r
    }
}

impl Hub {
    /// See [`HubView::scanning`].
    pub fn spawn_inherited_session_scan(&mut self)
        ensures
            final(self).deep_view() == old(self).deep_view().scanning(),
    {
        if self.cluster.scan_inflight {
            return;
        }
        self.cluster.scan_inflight = true;
        self.emit(Effect::ScanSessions);
    }

    /// See [`HubView::reconciling`].
    fn reconcile(&mut self)
        ensures
            final(self).deep_view() == old(self).deep_view().reconciling(),
    {
        let tick: u32 = if self.sessions.reconcile_tick == u32::MAX {
            0
        } else {
            self.sessions.reconcile_tick + 1
        };
        self.sessions.reconcile_tick = tick;
        if self.cluster.takeover_ticks > 0 {
            self.cluster.takeover_ticks = self.cluster.takeover_ticks - 1;
            self.spawn_inherited_session_scan();
        } else if tick % EXPIRY_RECONCILE_EVERY == 0 {
            self.spawn_inherited_session_scan();
        }
    }

    /// See [`expired`].
    fn expired_sessions(&self) -> (r: Vec<ClientId>)
        ensures
            r.deep_view() == expired(self.deep_view().sessions.expiring, self.now),
    {
        let ghost e = self.deep_view().sessions.expiring;
        let mut r: Vec<ClientId> = Vec::new();
        let mut i: usize = 0;
        assert(r.deep_view() =~= expired(e.take(0), self.now));
        while i < self.sessions.expiring.len()
            invariant
                i <= e.len(),
                e == self.deep_view().sessions.expiring,
                r.deep_view() == expired(e.take(i as int), self.now),
            decreases e.len() - i,
        {
            proof {
                assert(e.take(i as int + 1).drop_last() =~= e.take(i as int));
                assert(e.take(i as int + 1).last() == e[i as int]);
            }
            if *self.sessions.expiring.value_at(i) <= self.now {
                push_item(&mut r, self.sessions.expiring.key_at(i).clone());
            }
            i += 1;
        }
        assert(e.take(i as int) =~= e);
        r
    }

    /// See [`HubView::sweeping_sessions`].
    pub fn sweep_expired_sessions(&mut self)
        ensures
            final(self).deep_view() == old(self).deep_view().sweeping_sessions(),
    {
        self.reconcile();
        let gone = self.expired_sessions();
        assert(gone.deep_view().len() == gone@.len());
        if gone.len() == 0 {
            return;
        }
        let ghost base = self.deep_view();
        let ghost g = gone.deep_view();
        let mut i: usize = 0;
        assert(g.take(0) =~= Seq::empty());
        while i < gone.len()
            invariant
                i <= gone@.len(),
                g == gone.deep_view(),
                self.deep_view() == base.discarding_each(g.take(i as int)),
            decreases gone@.len() - i,
        {
            proof {
                assert(g.take(i as int + 1).drop_last() =~= g.take(i as int));
                assert(g.take(i as int + 1).last() == g[i as int]);
            }
            self.discard_session(&gone[i]);
            i += 1;
        }
        assert(g.take(i as int) =~= g);
        self.gossip_interest();
    }

    /// See [`HubView::inheriting_one`]; says whether subscriptions were taken over.
    fn inherit_one(&mut self, s: &StoredSession) -> (r: bool)
        ensures
            r == old(self).deep_view().materializes(s.deep_view()),
            final(self).deep_view() == old(self).deep_view().inheriting_one(s.deep_view()),
    {
        let (client, subs, deadline) = s;
        if self.is_online(client) || self.sessions.connecting.contains_key(client)
            || !self.cluster.owns_session(client, &self.node_id) {
            return false;
        }
        if let Some(d) = deadline {
            if !self.sessions.expiring.contains_key(client) {
                self.sessions.expiring.insert(client.clone(), *d);
            }
        }
        if subs.len() == 0 || self.routing.subs_by_client.contains_key(client) {
            return false;
        }
        self.routing.enter_each(client, subs);
        if !self.sessions.session_expiry.contains_key(client) {
            self.sessions.session_expiry.insert(client.clone(), u32::MAX);
        }
        true
    }

    /// See [`HubView::inheriting`].
    pub fn inherit_sessions(&mut self, sessions: &Vec<StoredSession>)
        ensures
            final(self).deep_view() == old(self).deep_view().inheriting(sessions.deep_view()),
    {
        self.cluster.scan_inflight = false;
        let ghost base = self.deep_view();
        let ghost ss = sessions.deep_view();
        let mut any = false;
        let mut i: usize = 0;
        assert(ss.take(0) =~= Seq::empty());
        while i < sessions.len()
            invariant
                i <= sessions@.len(),
                ss == sessions.deep_view(),
                (self.deep_view(), any) == base.inheriting_each(ss.take(i as int)),
            decreases sessions@.len() - i,
        {
            proof {
                assert(ss.take(i as int + 1).drop_last() =~= ss.take(i as int));
                assert(ss.take(i as int + 1).last() == ss[i as int]);
            }
            if self.inherit_one(&sessions[i]) {
                any = true;
            }
            i += 1;
        }
        assert(ss.take(i as int) =~= ss);
        if any {
            self.gossip_interest();
        }
        self.settle_pending_publishes();
    }

    /// Throws out whoever is shut out by a new policy, and says who and why.
    pub fn sweep_identities(&mut self, policy: &SweepPolicy) -> (r: Vec<(ClientId, Eviction)>)
        ensures
            r.deep_view() == policy.deep_view().victims(old(self).deep_view().sessions.online),
            final(self).deep_view() == old(self).deep_view().evicting_each(r.deep_view()),
    {
        let victims = policy.victims(&self.sessions.online);
        let ghost base = self.deep_view();
        let ghost vs = victims.deep_view();
        let mut i: usize = 0;
        assert(vs.take(0) =~= Seq::empty());
        while i < victims.len()
            invariant
                i <= victims@.len(),
                vs == victims.deep_view(),
                self.deep_view() == base.evicting_each(vs.take(i as int)),
            decreases victims@.len() - i,
        {
            proof {
                assert(vs.take(i as int + 1).drop_last() =~= vs.take(i as int));
                assert(vs.take(i as int + 1).last() == vs[i as int]);
            }
            self.evict(&victims[i].0);
            i += 1;
        }
        assert(vs.take(i as int) =~= vs);
        victims
    }

    /// Ends the subscriptions that a new policy does not grant, and says which.
    pub fn sweep_grants(&mut self, policy: &SweepPolicy) -> (r: Vec<(ClientId, Vec<String>)>)
        ensures
            r.deep_view() == policy.deep_view().losers(
                old(self).deep_view().sessions.online,
                old(self).deep_view().routing.subs_by_client,
            ),
            final(self).deep_view() == old(self).deep_view().unsubscribing_each(r.deep_view()),
    {
        let losers = policy.losers(&self.sessions.online, &self.routing.subs_by_client);
        let ghost base = self.deep_view();
        let ghost ls = losers.deep_view();
        let mut i: usize = 0;
        assert(ls.take(0) =~= Seq::empty());
        while i < losers.len()
            invariant
                i <= losers@.len(),
                ls == losers.deep_view(),
                self.deep_view() == base.unsubscribing_each(ls.take(i as int)),
            decreases losers@.len() - i,
        {
            proof {
                assert(ls.take(i as int + 1).drop_last() =~= ls.take(i as int));
                assert(ls.take(i as int + 1).last() == ls[i as int]);
            }
            self.unsubscribe(&losers[i].0, &losers[i].1);
            i += 1;
        }
        assert(ls.take(i as int) =~= ls);
        losers
    }

    /// See [`SweepPolicyView::lost_peers`].
    fn lost_peers(&self, policy: &SweepPolicy) -> (r: Vec<NodeId>)
        ensures
            r.deep_view() == policy.deep_view().lost_peers(self.deep_view().cluster.peers),
    {
        let ghost ps = self.deep_view().cluster.peers;
        let mut r: Vec<NodeId> = Vec::new();
        let mut i: usize = 0;
        assert(r.deep_view() =~= policy.deep_view().lost_peers(ps.take(0)));
        while i < self.cluster.peers.len()
            invariant
                i <= ps.len(),
                ps == self.deep_view().cluster.peers,
                r.deep_view() == policy.deep_view().lost_peers(ps.take(i as int)),
            decreases ps.len() - i,
        {
            proof {
                assert(ps.take(i as int + 1).drop_last() =~= ps.take(i as int));
                assert(ps.take(i as int + 1).last() == ps[i as int]);
            }
            if holds_serial(&policy.peer_revoked, &self.cluster.peers.value_at(i).cert_serial) {
                push_item(&mut r, self.cluster.peers.key_at(i).clone());
            }
            i += 1;
        }
        assert(ps.take(i as int) =~= ps);
        r
    }

    /// Ends the links to the nodes whose certificate was revoked, and says which.
    pub fn sweep_peers(&mut self, policy: &SweepPolicy) -> (r: Vec<NodeId>)
        ensures
            r.deep_view() == policy.deep_view().lost_peers(old(self).deep_view().cluster.peers),
            final(self).deep_view() == old(self).deep_view().unlinking_each(r.deep_view()),
    {
        let victims = self.lost_peers(policy);
        let ghost base = self.deep_view();
        let ghost vs = victims.deep_view();
        let mut i: usize = 0;
        assert(vs.take(0) =~= Seq::empty());
        while i < victims.len()
            invariant
                i <= victims@.len(),
                vs == victims.deep_view(),
                self.deep_view() == base.unlinking_each(vs.take(i as int)),
            decreases victims@.len() - i,
        {
            proof {
                assert(vs.take(i as int + 1).drop_last() =~= vs.take(i as int));
                assert(vs.take(i as int + 1).last() == vs[i as int]);
            }
            self.unlink(&victims[i]);
            i += 1;
        }
        assert(vs.take(i as int) =~= vs);
        victims
    }

    /// See [`HubView::retrying`].
    pub fn retry_retained_handoff(&mut self)
        ensures
            final(self).deep_view() == old(self).deep_view().retrying(),
    {
        self.retained.retry_retained_handoff(&self.cluster, &mut self.effects);
    }

    /// Sweeps everything. See [`HubView::ticking`].
    pub fn tick(&mut self)
        ensures
            final(self).deep_view() == old(self).deep_view().ticking(),
    {
        self.refresh_mesh();
        self.sweep_expired_sessions();
        self.retry_retained_handoff();
        self.kick_retained_queue();
        self.sweep_pending_forwards();
        self.submit_pending_qos2_cleanup();
    }
}

/// Whoever a new policy has nothing against keeps its place: only clients that it shuts out are
/// thrown out.
pub proof fn law_only_victims(
    f: SweepPolicyView,
    online: Seq<(Seq<char>, OnlineView)>,
    client: Seq<char>,
    e: Eviction,
)
    ensures
        f.victims(online).contains((client, e)) <==> exists|i: int|
            0 <= i < online.len() && (#[trigger] online[i]).0 == client && f.eviction(
                client,
                online[i].1,
            ) == Some(e),
    decreases online.len(),
{
    if online.len() > 0 {
        let t = online.drop_last();
        law_only_victims(f, t, client, e);
        let all = f.victims(online);
        let rest = f.victims(t);
        if all.contains((client, e)) {
            let j = choose|j: int| 0 <= j < all.len() && all[j] == (client, e);
            if j < rest.len() {
                assert(rest[j] == (client, e));
                let i = choose|i: int|
                    0 <= i < t.len() && (#[trigger] t[i]).0 == client && f.eviction(client, t[i].1)
                        == Some(e);
                assert(online[i] == t[i]);
            } else {
                assert(online[online.len() - 1].0 == client);
            }
        }
        if exists|i: int|
            0 <= i < online.len() && (#[trigger] online[i]).0 == client && f.eviction(
                client,
                online[i].1,
            ) == Some(e) {
            let i = choose|i: int|
                0 <= i < online.len() && (#[trigger] online[i]).0 == client && f.eviction(
                    client,
                    online[i].1,
                ) == Some(e);
            if i < t.len() {
                assert(t[i] == online[i]);
                let j = choose|j: int| 0 <= j < rest.len() && rest[j] == (client, e);
                assert(all[j] == (client, e));
            } else {
                assert(all[all.len() - 1] == (client, e));
            }
        }
    }
}

/// A session is discarded when its time is up, and not before.
pub proof fn law_sessions_last_until_their_deadline(
    expiring: Seq<(Seq<char>, u64)>,
    now: u64,
    client: Seq<char>,
)
    ensures
        expired(expiring, now).contains(client) <==> exists|i: int|
            0 <= i < expiring.len() && (#[trigger] expiring[i]).0 == client && expiring[i].1 <= now,
    decreases expiring.len(),
{
    if expiring.len() > 0 {
        let t = expiring.drop_last();
        law_sessions_last_until_their_deadline(t, now, client);
        let rest = expired(t, now);
        let all = expired(expiring, now);
        let last = expiring[expiring.len() - 1];
        if all.contains(client) {
            let j = choose|j: int| 0 <= j < all.len() && all[j] == client;
            if j < rest.len() {
                assert(rest[j] == client);
                let i = choose|i: int|
                    0 <= i < t.len() && (#[trigger] t[i]).0 == client && t[i].1 <= now;
                assert(expiring[i] == t[i]);
            } else {
                assert(last.0 == client && last.1 <= now);
            }
        }
        if exists|i: int|
            0 <= i < expiring.len() && (#[trigger] expiring[i]).0 == client && expiring[i].1
                <= now {
            let i = choose|i: int|
                0 <= i < expiring.len() && (#[trigger] expiring[i]).0 == client && expiring[i].1
                    <= now;
            if i < t.len() {
                assert(t[i] == expiring[i]);
                let j = choose|j: int| 0 <= j < rest.len() && rest[j] == client;
                assert(all[j] == client);
            } else {
                assert(all[all.len() - 1] == client);
            }
        }
    }
}

} // verus!
