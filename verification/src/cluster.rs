//! The other nodes of the cluster: their links, what they want, and who owns what.

use vstd::prelude::*;

use crate::assoc::{bound, lookup, push_item, Key, Table};
use crate::effects::{Effect, EffectView};
use crate::ids::{ClientId, NodeId};
use crate::interest::{InterestIndex, InterestView};
use crate::mesh::{MeshCache, MeshFingerprint};
use crate::shared::{RemoteGroupView, RemoteSharedGroup};
use crate::wire::{FrameView, PeerMessage, PROTO_MIN};

verus! {

/// For how many sweeps routing counts as unsettled after a start or a death.
pub const TAKEOVER_TICKS: u8 = 8;

/// The link to a node.
#[derive(Debug)]
pub struct Peer {
    /// The link.
    pub conn_id: u64,
    /// The serial number of the certificate that the node showed.
    pub cert_serial: Option<Vec<u8>>,
    /// The protocol that the link speaks.
    pub proto: u32,
}

/// Model of [`Peer`].
#[verifier::ext_equal]
pub struct PeerView {
    pub conn_id: u64,
    pub cert_serial: Option<Seq<u8>>,
    pub proto: u32,
}

impl DeepView for Peer {
    type V = PeerView;

    open spec fn deep_view(&self) -> PeerView {
        PeerView {
            conn_id: self.conn_id,
            cert_serial: self.cert_serial.deep_view(),
            proto: self.proto,
        }
    }
}

/// The membership of the cluster, and who owns which key.
#[derive(Debug)]
pub struct Ring {
    /// The nodes.
    pub members: Vec<NodeId>,
    /// The epoch of the ownership.
    pub epoch: u64,
    /// The owner of every key that was asked for.
    pub owners: Table<String, NodeId>,
}

/// Model of [`Ring`].
#[verifier::ext_equal]
pub struct RingView {
    pub members: Seq<Seq<char>>,
    pub epoch: u64,
    pub owners: Seq<(Seq<char>, Seq<char>)>,
}

impl DeepView for Ring {
    type V = RingView;

    open spec fn deep_view(&self) -> RingView {
        RingView {
            members: self.members.deep_view(),
            epoch: self.epoch,
            owners: self.owners.deep_view(),
        }
    }
}

/// What a node knows of the others.
#[derive(Debug)]
pub struct Cluster {
    /// The linked nodes.
    pub peers: Table<NodeId, Peer>,
    /// What the nodes want.
    pub interest: InterestIndex,
    /// Room for the nodes that want the topic at hand.
    pub interest_scratch: Vec<ClientId>,
    /// The shared groups of the nodes, by node.
    pub remote_shared: Table<NodeId, Vec<RemoteSharedGroup>>,
    /// The membership; none for a broker on its own.
    pub ring: Option<Ring>,
    /// Whether the broker is meant to be part of a cluster.
    pub cluster_configured: bool,
    /// What was last computed about the links.
    pub mesh: MeshCache,
    /// For how many more sweeps sessions may turn up that died elsewhere.
    pub takeover_ticks: u8,
    /// Whether the stored sessions are being read.
    pub scan_inflight: bool,
    /// How many links the last fan-out looked at.
    pub fanout_visits: usize,
}

/// Model of [`Cluster`].
#[verifier::ext_equal]
pub struct ClusterView {
    pub peers: Seq<(Seq<char>, PeerView)>,
    pub interest: InterestView,
    pub interest_scratch: Seq<Seq<char>>,
    pub remote_shared: Seq<(Seq<char>, Seq<RemoteGroupView>)>,
    pub ring: Option<RingView>,
    pub cluster_configured: bool,
    pub mesh: MeshCache,
    pub takeover_ticks: u8,
    pub scan_inflight: bool,
    pub fanout_visits: usize,
}

impl DeepView for Cluster {
    type V = ClusterView;

    open spec fn deep_view(&self) -> ClusterView {
        ClusterView {
            peers: self.peers.deep_view(),
            interest: self.interest.deep_view(),
            interest_scratch: self.interest_scratch.deep_view(),
            remote_shared: self.remote_shared.deep_view(),
            ring: self.ring.deep_view(),
            cluster_configured: self.cluster_configured,
            mesh: self.mesh,
            takeover_ticks: self.takeover_ticks,
            scan_inflight: self.scan_inflight,
            fanout_visits: self.fanout_visits,
        }
    }
}

impl ClusterView {
    /// A node that knows of no other.
    pub open spec fn alone() -> ClusterView {
        ClusterView {
            peers: Seq::empty(),
            interest: InterestView { pairs: Seq::empty(), nodes: Seq::empty() },
            interest_scratch: Seq::empty(),
            remote_shared: Seq::empty(),
            ring: None,
            cluster_configured: false,
            mesh: MeshCache { whole: false, settled: false, stamped: None },
            takeover_ticks: TAKEOVER_TICKS,
            scan_inflight: false,
            fanout_visits: 0,
        }
    }

    /// Whether there is a link to `node`.
    pub open spec fn linked(self, node: Seq<char>) -> bool {
        bound(self.peers, node)
    }

    /// The protocol that the link to `node` speaks; the oldest without a link.
    pub open spec fn proto(self, node: Seq<char>) -> u32 {
        match lookup(self.peers, node) {
            Some(p) => p.proto,
            None => PROTO_MIN,
        }
    }

    /// `frame`, for `node` if it is linked.
    pub open spec fn framed(self, node: Seq<char>, frame: FrameView) -> Seq<EffectView> {
        if self.linked(node) {
            seq![EffectView::Frame { node, frame }]
        } else {
            Seq::empty()
        }
    }

    /// What the membership is recognised by.
    pub open spec fn fingerprint(self) -> MeshFingerprint {
        match self.ring {
            Some(ring) => Some((ring.members.len() as usize, ring.epoch)),
            None => None,
        }
    }

    /// Whether every member but `me` is linked.
    pub open spec fn all_linked(self, me: Seq<char>) -> bool {
        self.ring matches Some(ring) ==> forall|i: int|
            0 <= i < ring.members.len() ==> (#[trigger] ring.members[i] == me || self.linked(
                ring.members[i],
            ))
    }

    /// Whether every member but `me` is linked and has told what it wants.
    pub open spec fn all_told(self, me: Seq<char>) -> bool {
        self.ring matches Some(ring) ==> forall|i: int|
            0 <= i < ring.members.len() ==> (#[trigger] ring.members[i] == me || (self.linked(
                ring.members[i],
            ) && self.interest.nodes.contains(ring.members[i])))
    }

    /// Whether this node is part of a cluster.
    pub open spec fn clustered(self) -> bool {
        self.cluster_configured || (self.ring matches Some(ring) && ring.members.len() > 1)
    }

    /// Whether every node is known to be linked.
    pub open spec fn whole(self) -> bool {
        self.mesh.says_whole(self.fingerprint())
    }

    /// Whether somebody may turn up that the routing does not know yet.
    pub open spec fn unsettled(self) -> bool {
        self.clustered() && (self.takeover_ticks > 0 || self.scan_inflight
            || !self.mesh.says_settled(self.fingerprint()))
    }

    /// With what is known about the links computed anew.
    pub open spec fn refreshed(self, me: Seq<char>) -> ClusterView {
        ClusterView {
            mesh: MeshCache {
                whole: self.all_linked(me),
                settled: self.all_told(me),
                stamped: self.fingerprint(),
            },
            ..self
        }
    }

    /// The node that owns `key`, as seen from `me`; none while that is not known.
    pub open spec fn owner(self, key: Seq<char>, me: Seq<char>) -> Option<Seq<char>> {
        match self.ring {
            Some(ring) => lookup(ring.owners, key),
            None => Some(me),
        }
    }

    /// Whether `me` owns the session `key`.
    pub open spec fn owns(self, key: Seq<char>, me: Seq<char>) -> bool {
        match self.ring {
            Some(ring) => ring.members.len() <= 1 || lookup(ring.owners, key) == Some(me),
            None => true,
        }
    }
}

impl Cluster {
    /// See [`ClusterView::alone`].
    pub fn new() -> (r: Self)
        ensures
            r.deep_view() == ClusterView::alone(),
    {
        let r = Cluster {
            peers: Table::new(),
            interest: InterestIndex::new(),
            interest_scratch: Vec::new(),
            remote_shared: Table::new(),
            ring: None,
            cluster_configured: false,
            mesh: MeshCache::new(),
            takeover_ticks: TAKEOVER_TICKS,
            scan_inflight: false,
            fanout_visits: 0,
        };
        assert(r.interest_scratch.deep_view() =~= Seq::empty());
        r
    }

    /// See [`ClusterView::proto`].
    pub fn peer_proto(&self, node: &NodeId) -> (r: u32)
        ensures
            r == self.deep_view().proto(node.deep_view()),
    {
        match self.peers.get(node) {
            Some(p) => p.proto,
            None => PROTO_MIN,
        }
    }

    /// Sends `frame` to `node` if it is linked.
    pub fn send_frame(&self, node: &NodeId, frame: PeerMessage, out: &mut Vec<Effect>)
        ensures
            final(out).deep_view() == old(out).deep_view() + self.deep_view().framed(
                node.deep_view(),
                frame.deep_view(),
            ),
    {
        if self.peers.contains_key(node) {
            push_item(out, Effect::Frame { node: node.clone(), frame });
        }
        assert(out.deep_view() =~= old(out).deep_view() + self.deep_view().framed(
            node.deep_view(),
            frame.deep_view(),
        ));
    }

    /// See [`ClusterView::fingerprint`].
    pub fn mesh_fingerprint(&self) -> (r: MeshFingerprint)
        ensures
            r == self.deep_view().fingerprint(),
    {
        match &self.ring {
            Some(ring) => Some((ring.members.len(), ring.epoch)),
            None => None,
        }
    }

    /// See [`ClusterView::all_linked`] and [`ClusterView::all_told`].
    fn peers_all(&self, me: &NodeId, told: bool) -> (r: bool)
        ensures
            r == (if told {
                self.deep_view().all_told(me.deep_view())
            } else {
                self.deep_view().all_linked(me.deep_view())
            }),
    {
        match &self.ring {
            Some(ring) => {
                let ghost ms = ring.members.deep_view();
                let mut i: usize = 0;
                while i < ring.members.len()
                    invariant
                        i <= ring.members@.len(),
                        ms == ring.members.deep_view(),
                        self.deep_view().ring == Some(ring.deep_view()),
                        forall|j: int|
                            0 <= j < i ==> (#[trigger] ms[j] == me.deep_view() || (
                            self.deep_view().linked(ms[j]) && (told
                                ==> self.deep_view().interest.nodes.contains(ms[j])))),
                    decreases ring.members@.len() - i,
                {
                    let m = &ring.members[i];
                    assert(ms[i as int] == m.deep_view());
                    if !m.same(me) {
                        if !self.peers.contains_key(m) || (told && !self.interest.has_node(m)) {
                            assert(self.deep_view().ring->Some_0.members[i as int]
                                == m.deep_view());
                            return false;
                        }
                    }
                    i += 1;
                }
                true
            },
            None => true,
        }
    }

    /// See [`ClusterView::refreshed`].
    pub fn refresh_mesh(&mut self, me: &NodeId)
        ensures
            final(self).deep_view() == old(self).deep_view().refreshed(me.deep_view()),
    {
        let whole = self.peers_all(me, false);
        let settled = self.peers_all(me, true);
        let fp = self.mesh_fingerprint();
        self.mesh.store(fp, whole, settled);
    }

    /// See [`ClusterView::clustered`].
    pub fn clustered(&self) -> (r: bool)
        ensures
            r == self.deep_view().clustered(),
    {
        if self.cluster_configured {
            return true;
        }
        match &self.ring {
            Some(ring) => ring.members.len() > 1,
            None => false,
        }
    }

    /// See [`ClusterView::whole`].
    pub fn mesh_whole(&self) -> (r: bool)
        ensures
            r == self.deep_view().whole(),
    {
        self.mesh.whole(self.mesh_fingerprint())
    }

    /// See [`ClusterView::unsettled`].
    pub fn routing_unsettled(&self) -> (r: bool)
        ensures
            r == self.deep_view().unsettled(),
    {
        self.clustered() && (self.takeover_ticks > 0 || self.scan_inflight || !self.mesh.settled(
            self.mesh_fingerprint(),
        ))
    }

    /// See [`ClusterView::owner`].
    pub fn owner(&self, key: &String, me: &NodeId) -> (r: Option<NodeId>)
        ensures
            r.deep_view() == self.deep_view().owner(key@, me.deep_view()),
    {
        match &self.ring {
            Some(ring) => match ring.owners.get(key) {
                Some(n) => Some(n.clone()),
                None => None,
            },
            None => Some(me.clone()),
        }
    }

    /// See [`ClusterView::owns`].
    pub fn owns_session(&self, client: &ClientId, me: &NodeId) -> (r: bool)
        ensures
            r == self.deep_view().owns(client.deep_view(), me.deep_view()),
    {
        match &self.ring {
            Some(ring) => {
                if ring.members.len() <= 1 {
                    return true;
                }
                let key = client.as_str().to_owned();
                match ring.owners.get(&key) {
                    Some(n) => n.same(me),
                    None => false,
                }
            },
            None => true,
        }
    }
}

/// A broker on its own is never unsettled; and a membership that moved on since the links were
/// looked at leaves a cluster unsettled.
pub proof fn law_settled(c: ClusterView)
    ensures
        !c.clustered() ==> !c.unsettled(),
        c.ring is Some && c.mesh.stamped != c.fingerprint() && c.clustered() ==> c.unsettled()
            && !c.whole(),
{
}

} // verus!
