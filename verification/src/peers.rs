//! The links to the other nodes.

use vstd::prelude::*;

use crate::assoc::{cut, lookup, put, put_ranked};
use crate::cluster::{ClusterView, Peer, PeerView, Ring, TAKEOVER_TICKS};
use crate::effects::{Effect, EffectView};
use crate::hub::{Hub, HubView};
use crate::ids::NodeId;
use crate::shared::{shared_snapshot, snapshot, RemoteGroupView, RemoteSharedGroup};
use crate::subscriptions::filters_of;
use crate::wire::{FrameView, PeerMessage, SharedGroupWire, SharedGroupWireView};

verus! {

/// For how many sweeps a new link keeps publishes under watch that wait.
pub const RELINK_TICKS: u8 = 2;

/// What this node wants, for one node.
pub open spec fn interest_frames(
    node: Seq<char>,
    filters: Seq<Seq<char>>,
    groups: Seq<SharedGroupWireView>,
) -> Seq<EffectView> {
    seq![
        EffectView::Frame { node, frame: FrameView::Interest { filters } },
        EffectView::Frame { node, frame: FrameView::SharedInterest { groups } },
    ]
}

/// What this node wants, for every linked node.
pub open spec fn gossip_frames(
    peers: Seq<(Seq<char>, PeerView)>,
    filters: Seq<Seq<char>>,
    groups: Seq<SharedGroupWireView>,
) -> Seq<EffectView>
    decreases peers.len(),
{
    if peers.len() == 0 {
        Seq::empty()
    } else {
        gossip_frames(peers.drop_last(), filters, groups) + interest_frames(
            peers.last().0,
            filters,
            groups,
        )
    }
}

impl HubView {
    /// With another view of the cluster.
    pub open spec fn with_cluster(self, cluster: ClusterView) -> HubView {
        HubView { cluster, ..self }
    }

    /// The filters that somebody on this node subscribes to.
    pub open spec fn local_interest(self) -> Seq<Seq<char>> {
        filters_of(self.routing.table)
    }

    /// The shared groups of this node.
    pub open spec fn local_groups(self) -> Seq<SharedGroupWireView> {
        snapshot(self.routing.shared, self.sessions.online)
    }

    /// With every linked node told what this node wants.
    pub open spec fn gossiping(self) -> HubView {
        self.doing_all(
            gossip_frames(self.cluster.peers, self.local_interest(), self.local_groups()),
        )
    }

    /// With what is known about the links computed anew.
    pub open spec fn remeshed(self) -> HubView {
        self.with_cluster(self.cluster.refreshed(self.node_id))
    }

    /// With `node` linked by `peer`: it is told what this node wants, and publishes that wait
    /// are looked at again soon.
    pub open spec fn linking(self, node: Seq<char>, peer: PeerView) -> HubView {
        self.doing_all(
            interest_frames(node, self.local_interest(), self.local_groups()),
        ).with_cluster(
            ClusterView {
                peers: put(self.cluster.peers, node, peer),
                takeover_ticks: if self.ledger.entries.len() > 0 && self.cluster.takeover_ticks
                    < RELINK_TICKS {
                    RELINK_TICKS
                } else {
                    self.cluster.takeover_ticks
                },
                ..self.cluster
            },
        ).remeshed()
    }

    /// Without the link to `node`. What it wants is still known, its shared groups are not.
    pub open spec fn unlinking(self, node: Seq<char>) -> HubView {
        HubView {
            cluster: ClusterView {
                peers: cut(self.cluster.peers, node),
                remote_shared: cut(self.cluster.remote_shared, node),
                ..self.cluster
            },
            retained: self.retained.without_handoffs(node),
            ..self
        }.doing(EffectView::CloseLink { node }).remeshed()
    }

    /// With the end of link `conn_id` to `node`; one that was replaced already changes nothing.
    pub open spec fn link_lost(self, node: Seq<char>, conn_id: u64) -> HubView {
        match lookup(self.cluster.peers, node) {
            Some(p) => if p.conn_id == conn_id {
                self.unlinking(node)
            } else {
                self
            },
            None => self,
        }
    }

    /// With `node` dead: nothing is expected of it any more, and its sessions may turn up
    /// elsewhere for a while.
    pub open spec fn losing(self, node: Seq<char>) -> HubView {
        let h = HubView {
            cluster: ClusterView {
                peers: cut(self.cluster.peers, node),
                interest: self.cluster.interest.remove(node),
                remote_shared: cut(self.cluster.remote_shared, node),
                takeover_ticks: TAKEOVER_TICKS,
                ..self.cluster
            },
            ledger: self.ledger.bereft_of(node),
            retained: self.retained.without_handoffs(node),
            ..self
        };
        (if self.cluster.linked(node) {
            h.doing(EffectView::CloseLink { node })
        } else {
            h
        }).remeshed()
    }

    /// With what `node` wants.
    pub open spec fn hearing(self, node: Seq<char>, filters: Seq<Seq<char>>) -> HubView {
        self.with_cluster(
            ClusterView {
                interest: self.cluster.interest.replace(node, filters),
                ..self.cluster
            },
        ).remeshed()
    }

    /// With the shared groups of `node`.
    pub open spec fn hearing_shared(
        self,
        node: Seq<char>,
        groups: Seq<RemoteGroupView>,
    ) -> HubView {
        self.with_cluster(
            ClusterView {
                remote_shared: put_ranked::<NodeId, Seq<RemoteGroupView>>(
                    self.cluster.remote_shared,
                    node,
                    groups,
                ),
                ..self.cluster
            },
        )
    }
}

impl Hub {
    /// See [`HubView::local_interest`].
    pub fn local_interest(&self) -> (r: Vec<String>)
        ensures
            r.deep_view() == self.deep_view().local_interest(),
    {
        self.routing.table.filters()
    }

    /// See [`HubView::local_groups`].
    pub fn shared_snapshot(&self) -> (r: Vec<SharedGroupWire>)
        ensures
            r.deep_view() == self.deep_view().local_groups(),
    {
        shared_snapshot(&self.routing.shared, &self.sessions.online)
    }

    /// Tells `node` what this node wants.
    fn tell_interest(&mut self, node: &NodeId)
        ensures
            final(self).deep_view() == old(self).deep_view().doing_all(
                interest_frames(
                    node.deep_view(),
                    old(self).deep_view().local_interest(),
                    old(self).deep_view().local_groups(),
                ),
            ),
    {
        let ghost e = self.effects.deep_view();
        let ghost frames = interest_frames(
            node.deep_view(),
            self.deep_view().local_interest(),
            self.deep_view().local_groups(),
        );
        let filters = self.local_interest();
        let groups = self.shared_snapshot();
        self.emit(Effect::Frame { node: node.clone(), frame: PeerMessage::Interest { filters } });
        self.emit(
            Effect::Frame { node: node.clone(), frame: PeerMessage::SharedInterest { groups } },
        );
        assert(self.effects.deep_view() =~= e + frames);
    }

    /// See [`HubView::gossiping`].
    pub fn gossip_interest(&mut self)
        ensures
            final(self).deep_view() == old(self).deep_view().gossiping(),
    {
        let ghost h = self.deep_view();
        let ghost peers = h.cluster.peers;
        let mut i: usize = 0;
        assert(h.effects + gossip_frames(peers.take(0), h.local_interest(), h.local_groups())
            =~= h.effects);
        while i < self.cluster.peers.len()
            invariant
                i <= peers.len(),
                peers == self.cluster.peers.deep_view(),
                self.deep_view() == h.doing_all(
                    gossip_frames(peers.take(i as int), h.local_interest(), h.local_groups()),
                ),
            decreases peers.len() - i,
        {
            proof {
                assert(peers.take(i as int + 1).drop_last() =~= peers.take(i as int));
                assert(peers.take(i as int + 1).last() == peers[i as int]);
            }
            let node = self.cluster.peers.key_at(i).clone();
            self.tell_interest(&node);
            i += 1;
            assert(self.effects.deep_view() =~= h.effects + gossip_frames(
                peers.take(i as int),
                h.local_interest(),
                h.local_groups(),
            ));
        }
        assert(peers.take(i as int) =~= peers);
    }

    /// Computes anew what is known about the links.
    pub fn refresh_mesh(&mut self)
        ensures
            final(self).deep_view() == old(self).deep_view().remeshed(),
    {
        self.cluster.refresh_mesh(&self.node_id);
    }

    /// See [`HubView::linking`].
    pub fn peer_connected(&mut self, node: NodeId, peer: Peer)
        ensures
            final(self).deep_view() == old(self).deep_view().linking(
                node.deep_view(),
                peer.deep_view(),
            ),
    {
        self.tell_interest(&node);
        self.cluster.peers.insert(node, peer);
        if !self.ledger.entries.is_empty() && self.cluster.takeover_ticks < RELINK_TICKS {
            self.cluster.takeover_ticks = RELINK_TICKS;
        }
        self.refresh_mesh();
    }

    /// See [`HubView::unlinking`].
    pub fn unlink(&mut self, node: &NodeId)
        ensures
            final(self).deep_view() == old(self).deep_view().unlinking(node.deep_view()),
    {
        let _peer = self.cluster.peers.remove(node);
        let _groups = self.cluster.remote_shared.remove(node);
        self.retained.drop_retained_handoff_state(node);
        self.emit(Effect::CloseLink { node: node.clone() });
        self.refresh_mesh();
    }

    /// See [`HubView::link_lost`].
    pub fn peer_disconnected(&mut self, node: &NodeId, conn_id: u64)
        ensures
            final(self).deep_view() == old(self).deep_view().link_lost(node.deep_view(), conn_id),
    {
        let current = match self.cluster.peers.get(node) {
            Some(p) => p.conn_id == conn_id,
            None => false,
        };
        if current {
            self.unlink(node);
        }
    }

    /// See [`HubView::losing`].
    pub fn peer_dead(&mut self, node: &NodeId)
        ensures
            final(self).deep_view() == old(self).deep_view().losing(node.deep_view()),
    {
        let linked = self.cluster.peers.contains_key(node);
        let _peer = self.cluster.peers.remove(node);
        let _interest = self.cluster.interest.remove(node);
        let _groups = self.cluster.remote_shared.remove(node);
        self.cluster.takeover_ticks = TAKEOVER_TICKS;
        self.ledger.lose_node(node);
        self.retained.drop_retained_handoff_state(node);
        if linked {
            self.emit(Effect::CloseLink { node: node.clone() });
        }
        self.refresh_mesh();
    }

    /// See [`HubView::hearing`].
    pub fn remote_interest(&mut self, node: NodeId, filters: Vec<String>)
        ensures
            final(self).deep_view() == old(self).deep_view().hearing(
                node.deep_view(),
                filters.deep_view(),
            ),
    {
        self.cluster.interest.replace(node, filters);
        self.refresh_mesh();
    }

    /// See [`HubView::hearing_shared`].
    pub fn remote_shared_interest(&mut self, node: NodeId, groups: Vec<RemoteSharedGroup>)
        ensures
            final(self).deep_view() == old(self).deep_view().hearing_shared(
                node.deep_view(),
                groups.deep_view(),
            ),
    {
        self.cluster.remote_shared.insert_ranked(node, groups);
    }

    /// Takes over another membership. What is known about the links stands until it is computed
    /// anew, and is not believed of the new membership before that.
    pub fn set_ring(&mut self, ring: Option<Ring>)
        ensures
            final(self).deep_view() == old(self).deep_view().with_cluster(
                (ClusterView { ring: ring.deep_view(), ..old(self).deep_view().cluster }),
            ),
    {
        self.cluster.ring = ring;
    }
}

/// The end of a link that was replaced changes nothing; a dead node is neither linked nor
/// thought to want anything, and owes no answer.
pub proof fn law_links(h: HubView, node: Seq<char>, conn_id: u64)
    ensures
        lookup(h.cluster.peers, node) is None || lookup(h.cluster.peers, node)->Some_0.conn_id
            != conn_id ==> h.link_lost(node, conn_id) == h,
        !h.losing(node).cluster.linked(node),
        forall|topic: Seq<char>| !(#[trigger] h.losing(node).cluster.interest.wanting(topic)).contains(node),
{
    crate::assoc::lemma_lookup_cut(h.cluster.peers, node, node);
    assert forall|topic: Seq<char>| !(#[trigger] h.losing(node).cluster.interest.wanting(
        topic,
    )).contains(node) by {
        crate::interest::law_remove(h.cluster.interest, node, topic, node);
    }
}

} // verus!
