//! The numbers that tell how full a broker is.

use vstd::prelude::*;

use crate::assoc::Table;
use crate::hub::{held, Hub, HubView};
use crate::ids::ClientId;
use crate::inflight::{Inflight, InflightView};
use crate::qos::QoS;
use crate::subscriptions::Grants;

verus! {

/// How full a broker is.
#[derive(Debug, Clone, Copy, PartialEq, Eq, Structural)]
pub struct Gauges {
    /// The sessions, connected or kept.
    pub sessions: usize,
    /// The subscriptions of all clients.
    pub subscriptions: usize,
    /// The messages that hold a packet id.
    pub inflight_messages: usize,
    /// The retained messages.
    pub retained_messages: usize,
    /// The linked nodes.
    pub peer_links: usize,
    /// The nodes of the cluster; none for a broker on its own.
    pub cluster_members: Option<usize>,
}

/// `n`, held at the largest `usize`.
pub open spec fn clipped(n: nat) -> usize {
    held(0, n)
}

/// How many subscriptions there are in all.
pub open spec fn all_grants(subs: Seq<(Seq<char>, Grants)>) -> nat
    decreases subs.len(),
{
    if subs.len() == 0 {
        0
    } else {
        all_grants(subs.drop_last()) + subs.last().1.len()
    }
}

/// How many messages hold a packet id in all.
pub open spec fn all_pending(inflight: Seq<(Seq<char>, InflightView)>) -> nat
    decreases inflight.len(),
{
    if inflight.len() == 0 {
        0
    } else {
        all_pending(inflight.drop_last()) + inflight.last().1.pending.len()
    }
}

impl HubView {
    /// How full the broker is.
    pub open spec fn gauges(self) -> Gauges {
        Gauges {
            sessions: clipped(self.session_count()),
            subscriptions: clipped(all_grants(self.routing.subs_by_client)),
            inflight_messages: clipped(all_pending(self.sessions.inflight)),
            retained_messages: clipped(self.retained.cache.len()),
            peer_links: clipped(self.cluster.peers.len()),
            cluster_members: match self.cluster.ring {
                Some(ring) => Some(clipped(ring.members.len())),
                None => None,
            },
        }
    }
}

fn count_grants(subs: &Table<ClientId, Table<String, QoS>>) -> (r: usize)
    ensures
        r == clipped(all_grants(subs.deep_view())),
{
    let ghost s = subs.deep_view();
    let mut n: usize = 0;
    let mut i: usize = 0;
    assert(s.take(0) =~= Seq::empty());
    while i < subs.len()
        invariant
            i <= s.len(),
            s == subs.deep_view(),
            n == clipped(all_grants(s.take(i as int))),
        decreases s.len() - i,
    {
        proof {
            assert(s.take(i as int + 1).drop_last() =~= s.take(i as int));
            assert(s.take(i as int + 1).last() == s[i as int]);
        }
        n = n.saturating_add(subs.value_at(i).len());
        i += 1;
    }
    assert(s.take(i as int) =~= s);
    n
}

fn count_pending(inflight: &Table<ClientId, Inflight>) -> (r: usize)
    ensures
        r == clipped(all_pending(inflight.deep_view())),
{
    let ghost s = inflight.deep_view();
    let mut n: usize = 0;
    let mut i: usize = 0;
    assert(s.take(0) =~= Seq::empty());
    while i < inflight.len()
        invariant
            i <= s.len(),
            s == inflight.deep_view(),
            n == clipped(all_pending(s.take(i as int))),
        decreases s.len() - i,
    {
        proof {
            assert(s.take(i as int + 1).drop_last() =~= s.take(i as int));
            assert(s.take(i as int + 1).last() == s[i as int]);
        }
        n = n.saturating_add(inflight.value_at(i).pending.len());
        i += 1;
    }
    assert(s.take(i as int) =~= s);
    n
}

impl Hub {
    /// See [`HubView::gauges`].
    pub fn gauges(&self) -> (r: Gauges)
        ensures
            r == self.deep_view().gauges(),
    {
        let cluster_members = match &self.cluster.ring {
            Some(ring) => Some(ring.members.len()),
            None => None,
        };
        Gauges {
            sessions: self.session_count(),
            subscriptions: count_grants(&self.routing.subs_by_client),
            inflight_messages: count_pending(&self.sessions.inflight),
            retained_messages: self.retained.cache.len(),
            peer_links: self.cluster.peers.len(),
            cluster_members,
        }
    }
}

} // verus!
