//! Publishing: the fan-out to this node, to shared groups and to the other nodes, and the
//! answers that come back.

use vstd::prelude::*;

use crate::assoc::{keys, lookup, push_item, Key, Table};
use crate::cluster::{ClusterView, PeerView};
use crate::effects::{Effect, EffectView};
use crate::hub::{Hub, HubView, RoutingView};
use crate::ids::{number_above, ClientId, NodeId};
use crate::interest::InterestIndex;
use crate::lanes::{AppendGate, GateView};
use crate::delivery::Targets;
use crate::ledger::{ForwardKind, ForwardObligation, KindView, ObligationView, PendingView};
use crate::message::{Publication, PublicationView};
use crate::outcome::{DurableOutcome, ForwardVerdict, PublishRefusal};
use crate::qos::{level, min_qos, qos_num, weaker, QoS};
use crate::retained::{MutationView, RetainedMutation};
use crate::shared::{all_matches, candidates_of, moved, peek_shared, picked, select_shared,
    shared_candidates, CandidateView, KeyView, Matches, SharedCandidate, SharedKey};
use crate::subscriptions::matching;
use crate::wire::{on_wire, to_wire, FrameView, PeerMessage, PROTO_FORWARD_ANSWERS};

verus! {

/// Who is told what becomes of a delivery on behalf of publish `gate`.
pub open spec fn gate_of(gate: Option<u64>) -> GateView {
    match gate {
        Some(id) => GateView::Pending(id),
        None => GateView::Nobody,
    }
}

/// A member that was tried, and where it lives.
pub type Tried = Seq<(Option<Seq<char>>, Seq<char>)>;

/// Tells the candidates that were not tried.
pub open spec fn not_tried(tried: Tried) -> spec_fn(CandidateView) -> bool {
    |c: CandidateView| !tried.contains((c.node, c.client))
}

/// The candidates that were not tried.
pub open spec fn untried(all: Seq<CandidateView>, tried: Tried) -> Seq<CandidateView> {
    all.filter(not_tried(tried))
}

/// The frames of a fan-out without answers: `frame` for every linked node that wants it, or for
/// every one where it is for all; but not for those that were sent it to be answered.
pub open spec fn fan_frames(
    peers: Seq<(Seq<char>, PeerView)>,
    wanting: Seq<Seq<char>>,
    gated: bool,
    to_all: bool,
    frame: FrameView,
) -> Seq<EffectView>
    decreases peers.len(),
{
    if peers.len() == 0 {
        Seq::empty()
    } else {
        let rest = fan_frames(peers.drop_last(), wanting, gated, to_all, frame);
        let node = peers.last().0;
        let wants = wanting.contains(node);
        if (gated && wants) || !(to_all || wants) {
            rest
        } else {
            rest.push(EffectView::Frame { node, frame })
        }
    }
}

/// The linked nodes that want a publish and neither have it nor owe an answer about it.
pub open spec fn reroutable(
    peers: Seq<(Seq<char>, PeerView)>,
    p: PendingView,
    wanting: Seq<Seq<char>>,
) -> Seq<Seq<char>>
    decreases peers.len(),
{
    if peers.len() == 0 {
        Seq::empty()
    } else {
        let rest = reroutable(peers.drop_last(), p, wanting);
        let node = peers.last().0;
        if !p.acked_nodes.contains(node) && !owes(p.awaiting, node) && wanting.contains(node) {
            rest.push(node)
        } else {
            rest
        }
    }
}

/// Whether `node` owes an answer.
pub open spec fn owes(awaiting: Seq<(u64, ObligationView)>, node: Seq<char>) -> bool {
    exists|i: int| 0 <= i < awaiting.len() && (#[trigger] awaiting[i]).1.node == node
}

/// The numbers of the publishes that routing may still miss somebody for.
pub open spec fn unsettled_ids(s: Seq<(u64, PendingView)>) -> Seq<u64>
    decreases s.len(),
{
    if s.len() == 0 {
        Seq::empty()
    } else {
        let rest = unsettled_ids(s.drop_last());
        if s.last().1.awaiting_settle || s.last().1.reroute_grace is Some {
            rest.push(s.last().0)
        } else {
            rest
        }
    }
}

/// The frames that remind the nodes of what they owe.
pub open spec fn reminders(
    c: ClusterView,
    p: PendingView,
    awaiting: Seq<(u64, ObligationView)>,
) -> Seq<EffectView>
    decreases awaiting.len(),
{
    if awaiting.len() == 0 {
        Seq::empty()
    } else {
        reminders(c, p, awaiting.drop_last()) + c.framed(
            awaiting.last().1.node,
            p.frame(awaiting.last().0, awaiting.last().1),
        )
    }
}

impl HubView {
    /// With a forward of publish `id` recorded and sent.
    pub open spec fn forwarding(self, id: u64, o: ObligationView) -> HubView {
        self.with_ledger(self.ledger.forwarded(id, o)).doing_all(
            match lookup(self.ledger.entries, id) {
                Some(p) => self.cluster.framed(
                    o.node,
                    p.frame(number_above(self.ledger.forward_seq), o),
                ),
                None => Seq::empty(),
            },
        )
    }

    /// With publish `id` forwarded to each of `nodes`.
    pub open spec fn forwarding_each(self, id: u64, nodes: Seq<Seq<char>>) -> HubView
        decreases nodes.len(),
    {
        if nodes.len() == 0 {
            self
        } else {
            self.forwarding_each(id, nodes.drop_last()).forwarding(
                id,
                ObligationView { node: nodes.last(), kind: KindView::Ordinary },
            )
        }
    }

    /// The shared groups that `topic` reaches, with their candidates.
    pub open spec fn shared_matches(self, topic: Seq<char>) -> Matches {
        all_matches(
            self.routing.shared,
            self.cluster.remote_shared,
            self.sessions.online,
            topic,
        )
    }

    /// The member of a group that the next message goes to.
    pub open spec fn pick(self, key: KeyView, candidates: Seq<CandidateView>) -> Option<
        CandidateView,
    > {
        picked(self.routing.shared_cursor, key, candidates, self.sessions.session_expiry)
    }

    /// With the turn of a group of `n` candidates moved on.
    pub open spec fn turning(self, key: KeyView, n: nat) -> HubView {
        HubView {
            routing: RoutingView {
                shared_cursor: moved(self.routing.shared_cursor, key, n),
                ..self.routing
            },
            ..self
        }
    }

    /// Whether a member of another node is sent a message that it answers.
    pub open spec fn answered_by(self, gate: Option<u64>, node: Seq<char>, qos: QoS) -> bool {
        gate is Some && level(qos) >= 1 && self.cluster.proto(node) >= PROTO_FORWARD_ANSWERS
    }

    /// With `p` sent to a member of a group that lives on another node.
    pub open spec fn placing(
        self,
        p: PublicationView,
        gate: Option<u64>,
        key: KeyView,
        node: Seq<char>,
        client: Seq<char>,
        qos: QoS,
        tried: Tried,
    ) -> HubView {
        if self.answered_by(gate, node, qos) {
            self.forwarding(
                gate->Some_0,
                ObligationView { node, kind: KindView::Shared { key, client, qos, tried } },
            )
        } else {
            self.doing_all(
                self.cluster.framed(
                    node,
                    FrameView::SharedDeliver { client, publication: on_wire(p, qos, false) },
                ),
            )
        }
    }

    /// With `p` delivered to one member of a group.
    pub open spec fn sharing(
        self,
        p: PublicationView,
        gate: Option<u64>,
        key: KeyView,
        candidates: Seq<CandidateView>,
    ) -> (HubView, DurableOutcome) {
        let h = self.turning(key, candidates.len());
        match self.pick(key, candidates) {
            None => (h, DurableOutcome::Met),
            Some(c) => match c.node {
                None => h.delivering(c.client, p, weaker(p.qos, c.qos), false, gate_of(gate)),
                Some(node) => (
                    h.placing(
                        p,
                        gate,
                        key,
                        node,
                        c.client,
                        weaker(p.qos, c.qos),
                        seq![(Some(node), c.client)],
                    ),
                    DurableOutcome::Met,
                ),
            },
        }
    }

    /// With `p` delivered to one member of each group; and whether any group had one.
    pub open spec fn sharing_all(
        self,
        p: PublicationView,
        gate: Option<u64>,
        m: Matches,
    ) -> (HubView, DurableOutcome, bool)
        decreases m.len(),
    {
        if m.len() == 0 {
            (self, DurableOutcome::Met, false)
        } else {
            let (h, worst, placed) = self.sharing_all(p, gate, m.drop_last());
            let (h2, out) = h.sharing(p, gate, m.last().0, m.last().1);
            (h2, worst.worse(out), placed || h.pick(m.last().0, m.last().1) is Some)
        }
    }

    /// Whether a message of `topic` would go to a group member of this node for whom it has to
    /// be recorded.
    pub open spec fn shared_plan_owes(self, topic: Seq<char>, qos: QoS) -> bool {
        exists|i: int|
            0 <= i < self.shared_matches(topic).len() && self.owes_in_group(
                #[trigger] self.shared_matches(topic)[i],
                qos,
            )
    }

    /// Whether the member that is picked lives here and has to have its message recorded.
    pub open spec fn owes_in_group(self, m: (KeyView, Seq<CandidateView>), qos: QoS) -> bool {
        match self.pick(m.0, m.1) {
            Some(c) => c.node is None && self.owes_durable(c.client, weaker(qos, c.qos)),
            None => false,
        }
    }

    /// With `p` sent to the other nodes.
    pub open spec fn fanning_out(self, p: PublicationView, gate: Option<u64>) -> HubView {
        let wanting = self.cluster.interest.wanting(p.topic);
        let to_all = p.retain && !self.retained.durable;
        let gated = gate is Some && level(p.qos) >= 1;
        let h = if gated {
            self.forwarding_each(gate->Some_0, wanting)
        } else {
            self
        };
        if !to_all && (gated || wanting.len() == 0) {
            HubView {
                cluster: ClusterView { interest_scratch: wanting, fanout_visits: 0, ..h.cluster },
                ..h
            }
        } else {
            HubView {
                cluster: ClusterView {
                    interest_scratch: wanting,
                    fanout_visits: h.cluster.peers.len() as usize,
                    ..h.cluster
                },
                effects: h.effects + fan_frames(
                    h.cluster.peers,
                    wanting,
                    gated,
                    to_all,
                    FrameView::Publish(on_wire(p, p.qos, p.retain)),
                ),
                ..h
            }
        }
    }

    /// With the commit of a retained message on its way, where owners commit them.
    pub open spec fn committing(self, p: PublicationView, gate: Option<u64>) -> HubView {
        if !self.retained.durable {
            self
        } else {
            let h = match gate {
                Some(id) => match lookup(self.ledger.entries, id) {
                    Some(e) => self.with_ledger(
                        self.ledger.with(id, PendingView { awaiting_retained: true, ..e }),
                    ),
                    None => self,
                },
                None => self,
            };
            h.enqueueing(
                MutationView {
                    topic: p.topic,
                    payload: p.payload,
                    qos: level(p.qos),
                    app: p.app,
                    reply: None,
                    publish: gate,
                },
            ).kicking()
        }
    }

    /// With `m` waiting for its commit. A change that is given up for it is told, and its publish
    /// is dropped.
    pub open spec fn enqueueing(self, m: MutationView) -> HubView {
        let h = HubView { retained: self.retained.enqueued(m), ..self };
        match self.retained.given_up() {
            Some(oldest) => {
                let told = h.doing(EffectView::RetainedGivenUp { topic: oldest.topic });
                match oldest.publish {
                    Some(id) => told.dropping(id),
                    None => told,
                }
            },
            None => h,
        }
    }

    /// With the acknowledgement of publish `id` no longer waiting for routing to settle.
    pub open spec fn reached(self, id: u64) -> HubView {
        match lookup(self.ledger.entries, id) {
            Some(p) => self.with_ledger(
                self.ledger.with(id, PendingView { ack_awaits_settle: false, ..p }),
            ),
            None => self,
        }
    }

    /// With `p` published: applied here, delivered to shared groups, forwarded, and committed
    /// if it is retained. Where the publisher is told, a refusal comes before anything is
    /// done.
    pub open spec fn publishing(
        self,
        p: PublicationView,
        publisher: Option<Seq<char>>,
        gate: Option<u64>,
    ) -> (HubView, DurableOutcome) {
        if gate is Some && self.shared_plan_owes(p.topic, p.qos) && self.brownout {
            (self, DurableOutcome::Refused(PublishRefusal::Brownout))
        } else {
            let (h1, out1) = self.applying(p, publisher, gate_of(gate));
            if out1 is Refused {
                (h1, out1)
            } else {
                let (h2, out2, placed) = h1.sharing_all(p, gate, h1.shared_matches(p.topic));
                let h3 = h2.fanning_out(p, gate);
                let h4 = if p.retain {
                    h3.committing(p, gate)
                } else {
                    h3
                };
                let found = self.targets(p.topic, publisher, p.retain).len() > 0 || placed;
                let h5 = if gate is Some && found {
                    h4.reached(gate->Some_0)
                } else {
                    h4
                };
                (h5, out1.worse(out2))
            }
        }
    }

    /// Those of `clients` that may have missed a publish of time `since`: whoever is not
    /// connected, or connected later.
    pub open spec fn late_targets(self, clients: Seq<Seq<char>>, topic: Seq<char>, since: u64) -> Targets
        decreases clients.len(),
    {
        if clients.len() == 0 {
            Seq::empty()
        } else {
            let rest = self.late_targets(clients.drop_last(), topic, since);
            let c = clients.last();
            let late = match lookup(self.sessions.online, c) {
                Some(o) => o.attached_at > since,
                None => true,
            };
            if late {
                rest.push((c, self.granted(c, topic), false))
            } else {
                rest
            }
        }
    }

    /// With publish `id` delivered again to whoever may have missed it.
    pub open spec fn redelivering(self, id: u64) -> (HubView, DurableOutcome) {
        match lookup(self.ledger.entries, id) {
            Some(p) => self.delivering_all(
                p.publication,
                self.late_targets(
                    matching(self.routing.table, p.publication.topic),
                    p.publication.topic,
                    p.created_at,
                ),
                GateView::Pending(id),
            ),
            None => (self, DurableOutcome::Met),
        }
    }

    /// The nodes that publish `id` could be forwarded to.
    pub open spec fn reroutes(self, id: u64) -> Seq<Seq<char>> {
        match lookup(self.ledger.entries, id) {
            Some(p) => reroutable(
                self.cluster.peers,
                p,
                self.cluster.interest.wanting(p.publication.topic),
            ),
            None => Seq::empty(),
        }
    }

    /// With publish `id` free of what it waited for while routing settled.
    pub open spec fn window_closed(self, id: u64) -> HubView {
        match lookup(self.ledger.entries, id) {
            Some(p) => self.with_ledger(
                self.ledger.with(
                    id,
                    PendingView { awaiting_settle: false, ack_awaits_settle: false, ..p },
                ),
            ),
            None => self,
        }
    }

    /// With publish `id` delivered and forwarded again to whoever may have missed it.
    pub open spec fn settling_one(self, id: u64, over: bool) -> HubView {
        let (h, out) = self.redelivering(id);
        match out {
            DurableOutcome::Failed => h.dropping(id),
            DurableOutcome::Refused(r) => h.refusing(id, r),
            DurableOutcome::Met => {
                let h2 = h.forwarding_each(id, h.reroutes(id));
                let h3 = if over {
                    h2.window_closed(id)
                } else {
                    h2
                };
                h3.completing(id)
            },
        }
    }

    /// The same for each of `ids`.
    pub open spec fn settling_each(self, ids: Seq<u64>, over: bool) -> HubView
        decreases ids.len(),
    {
        if ids.len() == 0 {
            self
        } else {
            self.settling_each(ids.drop_last(), over).settling_one(ids.last(), over)
        }
    }

    /// With every publish that routing may have missed somebody for seen to.
    pub open spec fn settling(self) -> HubView {
        self.settling_each(unsettled_ids(self.ledger.entries), !self.cluster.unsettled())
    }

    /// With the grace of publish `id` set.
    pub open spec fn with_grace(self, id: u64, grace: Option<u8>) -> HubView {
        match lookup(self.ledger.entries, id) {
            Some(p) => self.with_ledger(
                self.ledger.with(id, PendingView { reroute_grace: grace, ..p }),
            ),
            None => self,
        }
    }

    /// With publish `id` seen to by a sweep: the nodes are reminded of what they owe; a
    /// publish whose target died is forwarded to another, or, when its grace is over,
    /// delivered here once more.
    pub open spec fn sweeping_one(self, id: u64) -> HubView {
        match lookup(self.ledger.entries, id) {
            None => self,
            Some(p) => {
                let h = self.doing_all(reminders(self.cluster, p, p.awaiting));
                match p.reroute_grace {
                    None => h,
                    Some(grace) => if h.reroutes(id).len() > 0 {
                        h.with_grace(id, None).forwarding_each(id, h.reroutes(id))
                    } else if p.awaiting.len() > 0 {
                        h.completing(id)
                    } else if grace > 1 {
                        h.with_grace(id, Some((grace - 1) as u8)).completing(id)
                    } else if !h.cluster.whole() {
                        h
                    } else {
                        let (h2, out) = h.redelivering(id);
                        match out {
                            DurableOutcome::Failed => h2.dropping(id),
                            DurableOutcome::Refused(r) => h2.refusing(id, r),
                            DurableOutcome::Met => h2.with_grace(id, None).completing(id),
                        }
                    },
                }
            },
        }
    }

    /// The same for each of `ids`.
    pub open spec fn sweeping_each(self, ids: Seq<u64>) -> HubView
        decreases ids.len(),
    {
        if ids.len() == 0 {
            self
        } else {
            self.sweeping_each(ids.drop_last()).sweeping_one(ids.last())
        }
    }

    /// With every publish seen to by a sweep.
    pub open spec fn sweeping(self) -> HubView {
        self.sweeping_each(keys(self.ledger.entries))
    }

    /// With `node` told what became of what it forwarded under `seq`.
    pub open spec fn answering(self, node: Seq<char>, seq: u64, verdict: ForwardVerdict) -> HubView {
        self.doing_all(
            self.cluster.framed(
                node,
                if self.cluster.proto(node) >= PROTO_FORWARD_ANSWERS {
                    FrameView::PublishVerdict { seq, verdict }
                } else {
                    FrameView::PublishAck { seq, ok: verdict == ForwardVerdict::Stored }
                },
            ),
        )
    }

    /// With one of the members `left` of a group tried for publish `id`; the refusal of the
    /// member that was tried, if it refused. When nobody is left the publisher is answered
    /// with `last`, what the last member said.
    pub open spec fn trying(
        self,
        id: u64,
        p: PublicationView,
        key: KeyView,
        left: Seq<CandidateView>,
        tried: Tried,
        last: DurableOutcome,
    ) -> (HubView, Option<PublishRefusal>) {
        let h = self.turning(key, left.len());
        match self.pick(key, left) {
            None => match last {
                DurableOutcome::Refused(r) => (h.refusing(id, r), None),
                _ => (h.dropping(id), None),
            },
            Some(c) => {
                let qos = weaker(p.qos, c.qos);
                match c.node {
                    Some(node) => {
                        let more = tried.push((c.node, c.client));
                        let h2 = h.placing(p, Some(id), key, node, c.client, qos, more);
                        if h.answered_by(Some(id), node, qos) {
                            (h2, None)
                        } else {
                            (h2.completing(id), None)
                        }
                    },
                    None => {
                        let gate = GateView::Pending(id);
                        let (h2, out) = h.delivering(c.client, p, qos, false, gate);
                        match out {
                            DurableOutcome::Met => (h2.completing(id), None),
                            DurableOutcome::Failed => (h2.dropping(id), None),
                            DurableOutcome::Refused(r) => (h2, Some(r)),
                        }
                    },
                }
            },
        }
    }

    /// Those tried, and the member of `left` whose turn it is.
    pub open spec fn tried_next(self, key: KeyView, left: Seq<CandidateView>, tried: Tried) -> Tried {
        match self.pick(key, left) {
            Some(c) => tried.push((c.node, c.client)),
            None => tried,
        }
    }

    /// With the members `all` of a group but those tried, tried for publish `id` until one does
    /// not refuse.
    pub open spec fn reselecting_from(
        self,
        id: u64,
        p: PublicationView,
        key: KeyView,
        all: Seq<CandidateView>,
        tried: Tried,
        last: DurableOutcome,
        fuel: nat,
    ) -> HubView
        decreases fuel,
    {
        let left = untried(all, tried);
        let (h, again) = self.trying(id, p, key, left, tried, last);
        match again {
            None => h,
            Some(r) => if fuel == 0 {
                h
            } else {
                h.reselecting_from(
                    id,
                    p,
                    key,
                    all,
                    self.tried_next(key, left, tried),
                    DurableOutcome::Refused(r),
                    (fuel - 1) as nat,
                )
            },
        }
    }

    /// With another member of a group found for publish `id`.
    pub open spec fn reselecting(
        self,
        id: u64,
        key: KeyView,
        tried: Tried,
        last: DurableOutcome,
    ) -> HubView {
        match lookup(self.ledger.entries, id) {
            Some(p) => {
                let all = candidates_of(self.shared_matches(p.publication.topic), key);
                self.reselecting_from(
                    id,
                    p.publication,
                    key,
                    all,
                    tried,
                    last,
                    untried(all, tried).len(),
                )
            },
            None => self,
        }
    }

    /// With the answer of `node` to what it was forwarded under `seq`.
    pub open spec fn answered(self, node: Seq<char>, seq: u64, verdict: ForwardVerdict) -> HubView {
        let h = self.with_ledger(self.ledger.settled(node, seq));
        match self.ledger.settles(node, seq) {
            None => h,
            Some((id, o)) => match DurableOutcome::of_verdict(verdict) {
                DurableOutcome::Met => h.with_ledger(h.ledger.stored_on(id, node)).completing(id),
                DurableOutcome::Failed => h.dropping(id),
                DurableOutcome::Refused(r) => match o.kind {
                    KindView::Ordinary => h.refusing(id, r),
                    KindView::Shared { key, tried, .. } => h.reselecting(
                        id,
                        key,
                        tried,
                        DurableOutcome::Refused(r),
                    ),
                },
            },
        }
    }
}

/// A stricter filter that rejects one more element keeps fewer.
proof fn lemma_filter_shrinks<T>(
    s: Seq<T>,
    p: spec_fn(T) -> bool,
    q: spec_fn(T) -> bool,
    x: T,
)
    requires
        forall|e: T| #[trigger] q(e) ==> p(e),
        s.filter(p).contains(x),
        !q(x),
    ensures
        s.filter(q).len() < s.filter(p).len(),
    decreases s.len(),
{
    reveal(Seq::filter);
    if s.len() > 0 {
        let t = s.drop_last();
        lemma_filter_le(t, p, q);
        if t.filter(p).contains(x) {
            lemma_filter_shrinks(t, p, q, x);
        } else {
            let f = s.filter(p);
            let j = choose|j: int| 0 <= j < f.len() && f[j] == x;
            if p(s.last()) {
                if j < t.filter(p).len() {
                    assert(t.filter(p)[j] == x);
                }
                assert(x == s.last());
            } else {
                assert(f =~= t.filter(p));
            }
        }
    }
}

proof fn lemma_filter_le<T>(s: Seq<T>, p: spec_fn(T) -> bool, q: spec_fn(T) -> bool)
    requires
        forall|e: T| #[trigger] q(e) ==> p(e),
    ensures
        s.filter(q).len() <= s.filter(p).len(),
    decreases s.len(),
{
    reveal(Seq::filter);
    if s.len() > 0 {
        lemma_filter_le(s.drop_last(), p, q);
    }
}

proof fn lemma_tried_one(all: Seq<CandidateView>, tried: Tried, c: CandidateView)
    requires
        untried(all, tried).contains(c),
    ensures
        untried(all, tried.push((c.node, c.client))).len() < untried(all, tried).len(),
{
    let more = tried.push((c.node, c.client));
    let p = not_tried(tried);
    let q = not_tried(more);
    assert forall|e: CandidateView| #[trigger] q(e) implies p(e) by {
        if tried.contains((e.node, e.client)) {
            let j = choose|j: int| 0 <= j < tried.len() && tried[j] == (e.node, e.client);
            assert(more[j] == (e.node, e.client));
        }
    }
    assert(more[tried.len() as int] == (c.node, c.client));
    lemma_filter_shrinks(all, p, q, c);
}

/// A member that was tried leaves one candidate less.
proof fn lemma_try_again(
    h: HubView,
    id: u64,
    p: PublicationView,
    key: KeyView,
    all: Seq<CandidateView>,
    tried: Tried,
)
    requires
        h.pick(key, untried(all, tried)) is Some,
    ensures
        untried(all, h.tried_next(key, untried(all, tried), tried)).len() < untried(
            all,
            tried,
        ).len(),
{
    let left = untried(all, tried);
    crate::shared::law_choice(
        h.routing.shared_cursor,
        key,
        left,
        h.sessions.session_expiry,
    );
    lemma_tried_one(all, tried, h.pick(key, left)->Some_0);
}

fn copy_tried(tried: &Vec<(Option<NodeId>, ClientId)>) -> (r: Vec<(Option<NodeId>, ClientId)>)
    ensures
        r.deep_view() == tried.deep_view(),
{
    let mut r: Vec<(Option<NodeId>, ClientId)> = Vec::new();
    let mut i: usize = 0;
    assert(r.deep_view() =~= tried.deep_view().take(0));
    while i < tried.len()
        invariant
            i <= tried@.len(),
            r.deep_view() == tried.deep_view().take(i as int),
        decreases tried@.len() - i,
    {
        let (node, client) = &tried[i];
        let place = match node {
            Some(n) => Some(n.clone()),
            None => None,
        };
        push_item(&mut r, (place, client.clone()));
        i += 1;
        assert(r.deep_view() =~= tried.deep_view().take(i as int));
    }
    assert(tried.deep_view().take(i as int) =~= tried.deep_view());
    r
}

fn was_tried(tried: &Vec<(Option<NodeId>, ClientId)>, c: &SharedCandidate) -> (r: bool)
    ensures
        r == tried.deep_view().contains((c.deep_view().node, c.deep_view().client)),
{
    let ghost t = tried.deep_view();
    let ghost x = (c.deep_view().node, c.deep_view().client);
    let mut i: usize = 0;
    while i < tried.len()
        invariant
            i <= tried@.len(),
            t == tried.deep_view(),
            x == (c.deep_view().node, c.deep_view().client),
            forall|j: int| 0 <= j < i ==> #[trigger] t[j] != x,
        decreases tried@.len() - i,
    {
        let (node, client) = &tried[i];
        let same_node = match (node, &c.node) {
            (Some(a), Some(b)) => a.same(b),
            (None, None) => true,
            _ => false,
        };
        assert(t[i as int] == (node.deep_view(), client.deep_view()));
        if same_node && client.same(&c.client) {
            assert(t[i as int] == x);
            return true;
        }
        assert(t[i as int] != x);
        i += 1;
    }
    false
}

fn keep_untried(all: &Vec<SharedCandidate>, tried: &Vec<(Option<NodeId>, ClientId)>) -> (r: Vec<
    SharedCandidate,
>)
    ensures
        r.deep_view() == untried(all.deep_view(), tried.deep_view()),
{
    let ghost a = all.deep_view();
    let ghost keep = not_tried(tried.deep_view());
    let mut r: Vec<SharedCandidate> = Vec::new();
    let mut i: usize = 0;
    assert(r.deep_view() =~= a.take(0).filter(keep)) by {
        reveal(Seq::filter);
    }
    while i < all.len()
        invariant
            i <= all@.len(),
            a == all.deep_view(),
            keep == not_tried(tried.deep_view()),
            r.deep_view() == a.take(i as int).filter(keep),
        decreases all@.len() - i,
    {
        proof {
            reveal(Seq::filter);
            assert(a.take(i as int + 1).drop_last() =~= a.take(i as int));
            assert(a.take(i as int + 1).last() == a[i as int]);
        }
        if !was_tried(tried, &all[i]) {
            push_item(&mut r, all[i].clone());
        }
        i += 1;
    }
    assert(a.take(i as int) =~= a);
    r
}

impl Hub {
    /// See [`HubView::forwarding`].
    pub fn register_forward(&mut self, id: u64, obligation: ForwardObligation)
        ensures
            final(self).deep_view() == old(self).deep_view().forwarding(id, obligation.deep_view()),
    {
        let node = obligation.node.clone();
        match self.ledger.register_forward(id, obligation) {
            Some(frame) => {
                self.cluster.send_frame(&node, frame, &mut self.effects);
            },
            None => {
                assert(self.effects.deep_view() + Seq::<EffectView>::empty()
                    =~= self.effects.deep_view());
            },
        }
    }

    /// Forwards publish `id` to `node`, which is to answer.
    pub fn send_acked_forward(&mut self, id: u64, node: &NodeId)
        ensures
            final(self).deep_view() == old(self).deep_view().forwarding(
                id,
                (ObligationView { node: node.deep_view(), kind: KindView::Ordinary }),
            ),
    {
        self.register_forward(
            id,
            ForwardObligation { node: node.clone(), kind: ForwardKind::Ordinary },
        );
    }

    /// See [`HubView::forwarding_each`].
    fn forward_each(&mut self, id: u64, nodes: &Vec<NodeId>)
        ensures
            final(self).deep_view() == old(self).deep_view().forwarding_each(
                id,
                nodes.deep_view(),
            ),
    {
        let ghost base = self.deep_view();
        let ghost ns = nodes.deep_view();
        let mut i: usize = 0;
        assert(ns.take(0) =~= Seq::empty());
        while i < nodes.len()
            invariant
                i <= nodes@.len(),
                ns == nodes.deep_view(),
                self.deep_view() == base.forwarding_each(id, ns.take(i as int)),
            decreases nodes@.len() - i,
        {
            proof {
                assert(ns.take(i as int + 1).drop_last() =~= ns.take(i as int));
                assert(ns.take(i as int + 1).last() == ns[i as int]);
            }
            self.send_acked_forward(id, &nodes[i]);
            i += 1;
        }
        assert(ns.take(i as int) =~= ns);
    }

    /// See [`HubView::shared_matches`].
    pub fn shared_candidates(&self, topic: &str) -> (r: Table<SharedKey, Vec<SharedCandidate>>)
        ensures
            r.deep_view() == self.deep_view().shared_matches(topic@),
    {
        shared_candidates(
            &self.routing.shared,
            &self.cluster.remote_shared,
            &self.sessions.online,
            topic,
        )
    }

    /// Picks a member of a group, and moves the turn on.
    pub fn select_shared(&mut self, key: &SharedKey, candidates: &Vec<SharedCandidate>) -> (r:
        Option<SharedCandidate>)
        ensures
            r.deep_view() == old(self).deep_view().pick(key.deep_view(), candidates.deep_view()),
            final(self).deep_view() == old(self).deep_view().turning(
                key.deep_view(),
                candidates.deep_view().len(),
            ),
    {
        select_shared(
            &mut self.routing.shared_cursor,
            key,
            candidates,
            &self.sessions.session_expiry,
        )
    }

    /// The member that [`Hub::select_shared`] would pick.
    pub fn peek_shared(&self, key: &SharedKey, candidates: &Vec<SharedCandidate>) -> (r: Option<
        SharedCandidate,
    >)
        ensures
            r.deep_view() == self.deep_view().pick(key.deep_view(), candidates.deep_view()),
    {
        peek_shared(&self.routing.shared_cursor, key, candidates, &self.sessions.session_expiry)
    }

    /// Sends `p` to one client of another node, which does not answer.
    pub fn send_shared_to_peer(
        &mut self,
        node: &NodeId,
        client: &ClientId,
        p: &Publication,
        qos: QoS,
    )
        ensures
            final(self).deep_view() == old(self).deep_view().doing_all(
                old(self).deep_view().cluster.framed(
                    node.deep_view(),
                    FrameView::SharedDeliver {
                        client: client.deep_view(),
                        publication: on_wire(p.deep_view(), qos, false),
                    },
                ),
            ),
    {
        let frame = PeerMessage::SharedDeliver {
            client: client.as_str().to_owned(),
            publication: to_wire(p, qos, false),
        };
        self.cluster.send_frame(node, frame, &mut self.effects);
    }

    /// See [`HubView::placing`].
    fn place_remote(
        &mut self,
        p: &Publication,
        gate: Option<u64>,
        key: &SharedKey,
        node: &NodeId,
        client: &ClientId,
        qos: QoS,
        tried: Vec<(Option<NodeId>, ClientId)>,
    ) -> (r: bool)
        ensures
            final(self).deep_view() == old(self).deep_view().placing(
                p.deep_view(),
                gate,
                key.deep_view(),
                node.deep_view(),
                client.deep_view(),
                qos,
                tried.deep_view(),
            ),
            r == old(self).deep_view().answered_by(gate, node.deep_view(), qos),
    {
        let answers = qos_num(qos) >= 1 && self.cluster.peer_proto(node) >= PROTO_FORWARD_ANSWERS;
        match gate {
            Some(id) => {
                if answers {
                    self.register_forward(
                        id,
                        ForwardObligation {
                            node: node.clone(),
                            kind: ForwardKind::Shared {
                                key: (key.0.clone(), key.1.clone()),
                                client: client.clone(),
                                qos,
                                tried,
                            },
                        },
                    );
                    return true;
                }
            },
            None => {},
        }
        self.send_shared_to_peer(node, client, p, qos);
        false
    }

    /// See [`HubView::sharing`]; also says whether the group had a member.
    fn share_one(
        &mut self,
        p: &Publication,
        gate: Option<u64>,
        key: &SharedKey,
        candidates: &Vec<SharedCandidate>,
    ) -> (r: (DurableOutcome, bool))
        ensures
            (final(self).deep_view(), r.0) == old(self).deep_view().sharing(
                p.deep_view(),
                gate,
                key.deep_view(),
                candidates.deep_view(),
            ),
            r.1 == (old(self).deep_view().pick(key.deep_view(), candidates.deep_view()) is Some),
    {
        let chosen = match self.select_shared(key, candidates) {
            Some(c) => c,
            None => {
                return (DurableOutcome::Met, false);
            },
        };
        let qos = min_qos(p.qos, chosen.qos);
        match &chosen.node {
            None => {
                let append_gate = match gate {
                    Some(id) => AppendGate::Pending(id),
                    None => AppendGate::Nobody,
                };
                (self.deliver_to_client(&chosen.client, p, qos, false, &append_gate), true)
            },
            Some(node) => {
                let mut tried: Vec<(Option<NodeId>, ClientId)> = Vec::new();
                assert(tried.deep_view() =~= Seq::empty());
                push_item(&mut tried, (Some(node.clone()), chosen.client.clone()));
                assert(tried.deep_view() =~= seq![(Some(node.deep_view()), chosen.client.deep_view())]);
                let _answers = self.place_remote(p, gate, key, node, &chosen.client, qos, tried);
                (DurableOutcome::Met, true)
            },
        }
    }

    /// Delivers `p` to one member of every group that it reaches. Also says whether any group
    /// had one.
    pub fn deliver_shared(&mut self, p: &Publication, gate: Option<u64>) -> (r: (
        DurableOutcome,
        bool,
    ))
        ensures
            (final(self).deep_view(), r.0, r.1) == old(self).deep_view().sharing_all(
                p.deep_view(),
                gate,
                old(self).deep_view().shared_matches(p.topic@),
            ),
    {
        let ghost base = self.deep_view();
        let groups = self.shared_candidates(p.topic.as_str());
        let ghost m = groups.deep_view();
        let mut worst = DurableOutcome::Met;
        let mut placed = false;
        let mut i: usize = 0;
        assert(m.take(0) =~= Seq::empty());
        while i < groups.len()
            invariant
                i <= m.len(),
                m == groups.deep_view(),
                (self.deep_view(), worst, placed) == base.sharing_all(
                    p.deep_view(),
                    gate,
                    m.take(i as int),
                ),
            decreases m.len() - i,
        {
            proof {
                assert(m.take(i as int + 1).drop_last() =~= m.take(i as int));
                assert(m.take(i as int + 1).last() == m[i as int]);
            }
            let (out, found) = self.share_one(p, gate, groups.key_at(i), groups.value_at(i));
            worst = worst.and(out);
            placed = placed || found;
            i += 1;
        }
        assert(m.take(i as int) =~= m);
        (worst, placed)
    }

    /// See [`HubView::shared_plan_owes`].
    pub fn shared_plan_owes_durable(&self, topic: &str, qos: QoS) -> (r: bool)
        ensures
            r == self.deep_view().shared_plan_owes(topic@, qos),
    {
        let groups = self.shared_candidates(topic);
        let ghost m = groups.deep_view();
        let ghost h = self.deep_view();
        let mut i: usize = 0;
        while i < groups.len()
            invariant
                i <= m.len(),
                m == groups.deep_view(),
                h == self.deep_view(),
                m == h.shared_matches(topic@),
                forall|j: int| 0 <= j < i ==> !h.owes_in_group(#[trigger] m[j], qos),
            decreases m.len() - i,
        {
            let owes_here = match self.peek_shared(groups.key_at(i), groups.value_at(i)) {
                Some(c) => c.node.is_none() && self.owes_durable(&c.client, min_qos(qos, c.qos)),
                None => false,
            };
            assert(owes_here == h.owes_in_group(m[i as int], qos));
            if owes_here {
                return true;
            }
            i += 1;
        }
        false
    }

    /// See [`HubView::fanning_out`].
    pub fn forward_to_peers(&mut self, p: &Publication, gate: Option<u64>)
        ensures
            final(self).deep_view() == old(self).deep_view().fanning_out(p.deep_view(), gate),
    {
        let to_all = p.retain && !self.retained.durable;
        let gated = gate.is_some() && qos_num(p.qos) >= 1;
        let mut interested: Vec<ClientId> = Vec::new();
        std::mem::swap(&mut interested, &mut self.cluster.interest_scratch);
        self.cluster.interest.matching_into(p.topic.as_str(), &mut interested);
        let ghost wanting = interested.deep_view();
        let ghost base = HubView {
            cluster: ClusterView {
                interest_scratch: self.cluster.interest_scratch.deep_view(),
                ..old(self).deep_view().cluster
            },
            ..old(self).deep_view()
        };
        assert(self.deep_view() == base);
        if let Some(id) = gate {
            if gated {
                let mut i: usize = 0;
                assert(wanting.take(0) =~= Seq::empty());
                while i < interested.len()
                    invariant
                        i <= interested@.len(),
                        wanting == interested.deep_view(),
                        self.deep_view() == base.forwarding_each(id, wanting.take(i as int)),
                    decreases interested@.len() - i,
                {
                    proof {
                        assert(wanting.take(i as int + 1).drop_last() =~= wanting.take(i as int));
                        assert(wanting.take(i as int + 1).last() == wanting[i as int]);
                    }
                    let node = NodeId::new(interested[i].as_str());
                    self.send_acked_forward(id, &node);
                    i += 1;
                }
                assert(wanting.take(i as int) =~= wanting);
            }
        }
        proof {
            if gated {
                lemma_forwarding_scratch(
                    old(self).deep_view(),
                    gate->Some_0,
                    wanting,
                    base.cluster.interest_scratch,
                );
            }
        }
        if !to_all && (gated || interested.len() == 0) {
            self.cluster.interest_scratch = interested;
            self.cluster.fanout_visits = 0;
            return;
        }
        let ghost h = self.deep_view();
        let ghost peers = h.cluster.peers;
        let ghost frame = FrameView::Publish(
            on_wire(p.deep_view(), p.deep_view().qos, p.deep_view().retain),
        );
        let mut i: usize = 0;
        assert(h.effects + fan_frames(peers.take(0), wanting, gated, to_all, frame) =~= h.effects);
        while i < self.cluster.peers.len()
            invariant
                i <= peers.len(),
                peers == self.cluster.peers.deep_view(),
                wanting == interested.deep_view(),
                frame == FrameView::Publish(
                    on_wire(p.deep_view(), p.deep_view().qos, p.deep_view().retain),
                ),
                self.deep_view() == (HubView {
                    effects: h.effects + fan_frames(
                        peers.take(i as int),
                        wanting,
                        gated,
                        to_all,
                        frame,
                    ),
                    ..h
                }),
            decreases peers.len() - i,
        {
            proof {
                assert(peers.take(i as int + 1).drop_last() =~= peers.take(i as int));
                assert(peers.take(i as int + 1).last() == peers[i as int]);
            }
            let node = self.cluster.peers.key_at(i).clone();
            let wants = InterestIndex::contains(&interested, &node);
            if !((gated && wants) || !(to_all || wants)) {
                let out = PeerMessage::Publish(to_wire(p, p.qos, p.retain));
                self.emit(Effect::Frame { node, frame: out });
            }
            i += 1;
            assert(self.effects.deep_view() =~= h.effects + fan_frames(
                peers.take(i as int),
                wanting,
                gated,
                to_all,
                frame,
            ));
        }
        assert(peers.take(i as int) =~= peers);
        self.cluster.interest_scratch = interested;
        self.cluster.fanout_visits = i;
    }

    /// See [`HubView::enqueueing`].
    pub fn enqueue_retained_mutation(&mut self, m: RetainedMutation)
        ensures
            final(self).deep_view() == old(self).deep_view().enqueueing(m.deep_view()),
    {
        if let Some(oldest) = self.retained.enqueue_retained_mutation(m) {
            self.emit(Effect::RetainedGivenUp { topic: oldest.topic });
            if let Some(id) = oldest.publish {
                self.drop_pending(id);
            }
        }
    }

    /// See [`HubView::committing`].
    pub fn route_retained_commit(&mut self, p: &Publication, gate: Option<u64>)
        ensures
            final(self).deep_view() == old(self).deep_view().committing(p.deep_view(), gate),
    {
        if !self.retained.durable {
            return;
        }
        if let Some(id) = gate {
            match self.ledger.entries.get_mut(&id) {
                Some(e) => {
                    e.awaiting_retained = true;
                },
                None => {},
            }
        }
        self.enqueue_retained_mutation(
            RetainedMutation {
                topic: p.topic.clone(),
                payload: p.payload.clone(),
                qos: qos_num(p.qos),
                app: p.app.clone(),
                reply: None,
                publish: gate,
            },
        );
        self.kick_retained_queue();
    }

    /// See [`HubView::reached`].
    pub fn pending_fan_out_reached(&mut self, id: u64)
        ensures
            final(self).deep_view() == old(self).deep_view().reached(id),
    {
        match self.ledger.entries.get_mut(&id) {
            Some(p) => {
                p.ack_awaits_settle = false;
            },
            None => {},
        }
    }

    /// See [`HubView::publishing`].
    pub fn publish(&mut self, p: &Publication, publisher: Option<&ClientId>, gate: Option<u64>) -> (r:
        DurableOutcome)
        ensures
            (final(self).deep_view(), r) == old(self).deep_view().publishing(
                p.deep_view(),
                publisher.deep_view(),
                gate,
            ),
    {
        if gate.is_some() {
            let owes_here = self.shared_plan_owes_durable(p.topic.as_str(), p.qos);
            if let Some(r) = self.plan_refusal(owes_here) {
                return DurableOutcome::Refused(r);
            }
        }
        let append_gate = match gate {
            Some(id) => AppendGate::Pending(id),
            None => AppendGate::Nobody,
        };
        let (durable, matched) = self.deliver(p, publisher, &append_gate);
        match durable {
            DurableOutcome::Refused(r) => {
                return DurableOutcome::Refused(r);
            },
            _ => {},
        }
        let (shared, placed) = self.deliver_shared(p, gate);
        self.forward_to_peers(p, gate);
        if p.retain {
            self.route_retained_commit(p, gate);
        }
        if let Some(id) = gate {
            if matched > 0 || placed {
                self.pending_fan_out_reached(id);
            }
        }
        durable.and(shared)
    }

    /// See [`HubView::redelivering`].
    pub fn redeliver_pending(&mut self, id: u64) -> (r: DurableOutcome)
        ensures
            (final(self).deep_view(), r) == old(self).deep_view().redelivering(id),
    {
        let (p, since) = match self.ledger.entries.get(&id) {
            Some(e) => (e.publication.clone(), e.created_at),
            None => {
                return DurableOutcome::Met;
            },
        };
        let clients = self.routing.table.matching_clients(p.topic.as_str());
        let ghost cs = clients.deep_view();
        let ghost h = self.deep_view();
        let mut targets: Vec<(ClientId, QoS, bool)> = Vec::new();
        let mut i: usize = 0;
        assert(targets.deep_view() =~= h.late_targets(cs.take(0), p.topic@, since));
        while i < clients.len()
            invariant
                i <= clients@.len(),
                cs == clients.deep_view(),
                h == self.deep_view(),
                targets.deep_view() == h.late_targets(cs.take(i as int), p.topic@, since),
            decreases clients@.len() - i,
        {
            proof {
                assert(cs.take(i as int + 1).drop_last() =~= cs.take(i as int));
                assert(cs.take(i as int + 1).last() == cs[i as int]);
            }
            let c = &clients[i];
            let late = match self.sessions.online.get(c) {
                Some(o) => o.attached_at > since,
                None => true,
            };
            if late {
                let granted = self.granted_qos(c, p.topic.as_str());
                push_item(&mut targets, (c.clone(), granted, false));
            }
            i += 1;
        }
        assert(cs.take(i as int) =~= cs);
        self.deliver_local(&p, &targets, &AppendGate::Pending(id))
    }

    /// See [`HubView::reroutes`].
    pub fn reroute_candidates(&self, id: u64) -> (r: Vec<NodeId>)
        ensures
            r.deep_view() == self.deep_view().reroutes(id),
    {
        let mut r: Vec<NodeId> = Vec::new();
        assert(r.deep_view() =~= Seq::empty());
        let p = match self.ledger.entries.get(&id) {
            Some(p) => p,
            None => {
                return r;
            },
        };
        let wanting = self.cluster.interest.nodes_matching(p.publication.topic.as_str());
        let ghost w = wanting.deep_view();
        let ghost pv = p.deep_view();
        let ghost peers = self.cluster.peers.deep_view();
        let mut i: usize = 0;
        assert(peers.take(0) =~= Seq::empty());
        while i < self.cluster.peers.len()
            invariant
                i <= peers.len(),
                peers == self.cluster.peers.deep_view(),
                w == wanting.deep_view(),
                pv == p.deep_view(),
                r.deep_view() == reroutable(peers.take(i as int), pv, w),
            decreases peers.len() - i,
        {
            proof {
                assert(peers.take(i as int + 1).drop_last() =~= peers.take(i as int));
                assert(peers.take(i as int + 1).last() == peers[i as int]);
            }
            let node = self.cluster.peers.key_at(i);
            let mut owing = false;
            let mut j: usize = 0;
            while j < p.awaiting.len() && !owing
                invariant
                    j <= pv.awaiting.len(),
                    pv == p.deep_view(),
                    !owing ==> forall|x: int|
                        0 <= x < j ==> (#[trigger] pv.awaiting[x]).1.node != node.deep_view(),
                    owing ==> owes(pv.awaiting, node.deep_view()),
                decreases pv.awaiting.len() - j + (if owing {
                    0int
                } else {
                    1int
                }),
            {
                if p.awaiting.value_at(j).node.same(node) {
                    assert(pv.awaiting[j as int].1.node == node.deep_view());
                    owing = true;
                } else {
                    j += 1;
                }
            }
            if !p.acked_nodes.contains(node) && !owing && crate::assoc::contains_key(
                &wanting,
                node,
            ) {
                push_item(&mut r, node.clone());
            }
            i += 1;
        }
        assert(peers.take(i as int) =~= peers);
        r
    }

    /// See [`HubView::settling_one`].
    fn settle_one(&mut self, id: u64, over: bool)
        ensures
            final(self).deep_view() == old(self).deep_view().settling_one(id, over),
    {
        match self.redeliver_pending(id) {
            DurableOutcome::Failed => {
                self.drop_pending(id);
                return;
            },
            DurableOutcome::Refused(r) => {
                self.refuse_pending(id, r);
                return;
            },
            DurableOutcome::Met => {},
        }
        let nodes = self.reroute_candidates(id);
        self.forward_each(id, &nodes);
        if over {
            match self.ledger.entries.get_mut(&id) {
                Some(p) => {
                    p.awaiting_settle = false;
                    p.ack_awaits_settle = false;
                },
                None => {},
            }
        }
        self.try_complete_pending(id);
    }

    /// See [`HubView::settling`].
    pub fn settle_pending_publishes(&mut self)
        ensures
            final(self).deep_view() == old(self).deep_view().settling(),
    {
        let ghost base = self.deep_view();
        let ghost s = self.deep_view().ledger.entries;
        let mut ids: Vec<u64> = Vec::new();
        let mut i: usize = 0;
        assert(ids.deep_view() =~= unsettled_ids(s.take(0)));
        while i < self.ledger.entries.len()
            invariant
                i <= s.len(),
                s == self.deep_view().ledger.entries,
                self.deep_view() == base,
                ids.deep_view() == unsettled_ids(s.take(i as int)),
            decreases s.len() - i,
        {
            proof {
                assert(s.take(i as int + 1).drop_last() =~= s.take(i as int));
                assert(s.take(i as int + 1).last() == s[i as int]);
            }
            let p = self.ledger.entries.value_at(i);
            if p.awaiting_settle || p.reroute_grace.is_some() {
                push_item(&mut ids, *self.ledger.entries.key_at(i));
            }
            i += 1;
        }
        assert(s.take(i as int) =~= s);
        let over = !self.cluster.routing_unsettled();
        let ghost held = ids.deep_view();
        let mut j: usize = 0;
        assert(held.take(0) =~= Seq::empty());
        while j < ids.len()
            invariant
                j <= ids@.len(),
                held == ids.deep_view(),
                self.deep_view() == base.settling_each(held.take(j as int), over),
            decreases ids@.len() - j,
        {
            proof {
                assert(held.take(j as int + 1).drop_last() =~= held.take(j as int));
                assert(held.take(j as int + 1).last() == held[j as int]);
            }
            self.settle_one(ids[j], over);
            j += 1;
        }
        assert(held.take(j as int) =~= held);
    }

    /// See [`HubView::sweeping_one`].
    fn sweep_one(&mut self, id: u64)
        ensures
            final(self).deep_view() == old(self).deep_view().sweeping_one(id),
    {
        let ghost base = self.deep_view();
        let (grace, idle) = match self.ledger.entries.get(&id) {
            None => {
                return;
            },
            Some(p) => {
                let ghost pv = p.deep_view();
                let ghost c = self.cluster.deep_view();
                let ghost before = self.effects.deep_view();
                let mut i: usize = 0;
                assert(before + reminders(c, pv, pv.awaiting.take(0)) =~= before);
                while i < p.awaiting.len()
                    invariant
                        i <= pv.awaiting.len(),
                        pv == p.deep_view(),
                        c == self.cluster.deep_view(),
                        self.deep_view() == base.doing_all(
                            reminders(c, pv, pv.awaiting.take(i as int)),
                        ),
                        before == base.effects,
                    decreases pv.awaiting.len() - i,
                {
                    let ghost e = self.effects.deep_view();
                    proof {
                        assert(pv.awaiting.take(i as int + 1).drop_last() =~= pv.awaiting.take(
                            i as int,
                        ));
                        assert(pv.awaiting.take(i as int + 1).last() == pv.awaiting[i as int]);
                    }
                    let o = p.awaiting.value_at(i);
                    let frame = p.forward_frame(*p.awaiting.key_at(i), o);
                    self.cluster.send_frame(&o.node, frame, &mut self.effects);
                    i += 1;
                    assert(self.effects.deep_view() =~= before + reminders(
                        c,
                        pv,
                        pv.awaiting.take(i as int),
                    ));
                }
                assert(pv.awaiting.take(i as int) =~= pv.awaiting);
                (p.reroute_grace, p.awaiting.is_empty())
            },
        };
        let grace: u8 = match grace {
            Some(g) => g,
            None => {
                return;
            },
        };
        let candidates = self.reroute_candidates(id);
        if candidates.len() > 0 {
            self.set_grace(id, None);
            self.forward_each(id, &candidates);
            return;
        }
        if idle && grace <= 1 {
            if !self.cluster.mesh_whole() {
                return;
            }
            match self.redeliver_pending(id) {
                DurableOutcome::Met => {},
                DurableOutcome::Failed => {
                    self.drop_pending(id);
                    return;
                },
                DurableOutcome::Refused(r) => {
                    self.refuse_pending(id, r);
                    return;
                },
            }
            self.set_grace(id, None);
        } else if idle {
            self.set_grace(id, Some(grace - 1));
        }
        self.try_complete_pending(id);
    }

    /// See [`HubView::with_grace`].
    fn set_grace(&mut self, id: u64, grace: Option<u8>)
        ensures
            final(self).deep_view() == old(self).deep_view().with_grace(id, grace),
    {
        match self.ledger.entries.get_mut(&id) {
            Some(p) => {
                p.reroute_grace = grace;
            },
            None => {},
        }
    }

    /// See [`HubView::sweeping`].
    pub fn sweep_pending_forwards(&mut self)
        ensures
            final(self).deep_view() == old(self).deep_view().sweeping(),
    {
        let ghost base = self.deep_view();
        let ids = self.ledger.entries.keys();
        let ghost ks = ids.deep_view();
        let mut i: usize = 0;
        assert(ks.take(0) =~= Seq::empty());
        while i < ids.len()
            invariant
                i <= ids@.len(),
                ks == ids.deep_view(),
                self.deep_view() == base.sweeping_each(ks.take(i as int)),
            decreases ids@.len() - i,
        {
            proof {
                assert(ks.take(i as int + 1).drop_last() =~= ks.take(i as int));
                assert(ks.take(i as int + 1).last() == ks[i as int]);
            }
            self.sweep_one(ids[i]);
            i += 1;
        }
        assert(ks.take(i as int) =~= ks);
    }

    /// See [`HubView::answering`].
    pub fn answer_forward(&mut self, node: &NodeId, seq: u64, verdict: ForwardVerdict)
        ensures
            final(self).deep_view() == old(self).deep_view().answering(
                node.deep_view(),
                seq,
                verdict,
            ),
    {
        let frame = if self.cluster.peer_proto(node) >= PROTO_FORWARD_ANSWERS {
            PeerMessage::PublishVerdict { seq, verdict }
        } else {
            PeerMessage::PublishAck { seq, ok: verdict == ForwardVerdict::Stored }
        };
        self.cluster.send_frame(node, frame, &mut self.effects);
    }

    /// See [`HubView::trying`].
    fn try_member(
        &mut self,
        id: u64,
        p: &Publication,
        key: &SharedKey,
        left: &Vec<SharedCandidate>,
        tried: &mut Vec<(Option<NodeId>, ClientId)>,
        last: DurableOutcome,
    ) -> (r: Option<PublishRefusal>)
        ensures
            (final(self).deep_view(), r) == old(self).deep_view().trying(
                id,
                p.deep_view(),
                key.deep_view(),
                left.deep_view(),
                old(tried).deep_view(),
                last,
            ),
            final(tried).deep_view() == old(self).deep_view().tried_next(
                key.deep_view(),
                left.deep_view(),
                old(tried).deep_view(),
            ),
    {
        let chosen = match self.select_shared(key, left) {
            Some(c) => c,
            None => {
                match last {
                    DurableOutcome::Refused(r) => {
                        self.refuse_pending(id, r);
                    },
                    _ => {
                        self.drop_pending(id);
                    },
                }
                return None;
            },
        };
        let qos = min_qos(p.qos, chosen.qos);
        let place = match &chosen.node {
            Some(n) => Some(n.clone()),
            None => None,
        };
        push_item(tried, (place, chosen.client.clone()));
        match &chosen.node {
            Some(node) => {
                let answers = self.place_remote(
                    p,
                    Some(id),
                    key,
                    node,
                    &chosen.client,
                    qos,
                    copy_tried(tried),
                );
                if !answers {
                    self.try_complete_pending(id);
                }
                None
            },
            None => {
                let gate = AppendGate::Pending(id);
                match self.deliver_to_client(&chosen.client, p, qos, false, &gate) {
                    DurableOutcome::Met => {
                        self.try_complete_pending(id);
                        None
                    },
                    DurableOutcome::Failed => {
                        self.drop_pending(id);
                        None
                    },
                    DurableOutcome::Refused(r) => Some(r),
                }
            },
        }
    }

    /// See [`HubView::reselecting`].
    pub fn reselect_shared(
        &mut self,
        id: u64,
        key: &SharedKey,
        tried: &Vec<(Option<NodeId>, ClientId)>,
        last: DurableOutcome,
    )
        ensures
            final(self).deep_view() == old(self).deep_view().reselecting(
                id,
                key.deep_view(),
                tried.deep_view(),
                last,
            ),
    {
        let p = match self.ledger.entries.get(&id) {
            Some(e) => e.publication.clone(),
            None => {
                return;
            },
        };
        let mut groups = self.shared_candidates(p.topic.as_str());
        let all: Vec<SharedCandidate> = match groups.remove(key) {
            Some(cs) => cs,
            None => Vec::new(),
        };
        let mut seen = copy_tried(tried);
        let mut said = last;
        let ghost a = all.deep_view();
        let ghost k = key.deep_view();
        let ghost pv = p.deep_view();
        assert(a =~= candidates_of(self.deep_view().shared_matches(pv.topic), k));
        let ghost mut fuel: nat = untried(a, seen.deep_view()).len();
        let ghost goal = old(self).deep_view().reselecting(
            id,
            key.deep_view(),
            tried.deep_view(),
            last,
        );
        loop
            invariant
                a == all.deep_view(),
                k == key.deep_view(),
                pv == p.deep_view(),
                untried(a, seen.deep_view()).len() <= fuel,
                self.deep_view().reselecting_from(id, pv, k, a, seen.deep_view(), said, fuel)
                    == goal,
                goal == old(self).deep_view().reselecting(
                    id,
                    key.deep_view(),
                    tried.deep_view(),
                    last,
                ),
            decreases fuel,
        {
            let left = keep_untried(&all, &seen);
            let ghost t = seen.deep_view();
            let ghost before = self.deep_view();
            match self.try_member(id, &p, key, &left, &mut seen, said) {
                None => {
                    return;
                },
                Some(r) => {
                    said = DurableOutcome::Refused(r);
                    proof {
                        lemma_try_again(before, id, pv, k, a, t);
                        fuel = (fuel - 1) as nat;
                    }
                },
            }
        }
    }

    /// See [`HubView::answered`].
    pub fn forward_answered(&mut self, node: &NodeId, seq: u64, verdict: ForwardVerdict)
        ensures
            final(self).deep_view() == old(self).deep_view().answered(
                node.deep_view(),
                seq,
                verdict,
            ),
    {
        let (id, obligation) = match self.ledger.settle_forward(node, seq) {
            Some(found) => found,
            None => {
                return;
            },
        };
        match DurableOutcome::from_verdict(verdict) {
            DurableOutcome::Met => {
                self.ledger.note_stored(id, node);
                self.try_complete_pending(id);
            },
            DurableOutcome::Failed => {
                self.drop_pending(id);
            },
            DurableOutcome::Refused(r) => {
                match obligation.kind {
                    ForwardKind::Ordinary => {
                        self.refuse_pending(id, r);
                    },
                    ForwardKind::Shared { key, client, qos, tried } => {
                        self.reselect_shared(id, &key, &tried, DurableOutcome::Refused(r));
                    },
                }
            },
        }
    }
}

/// The room for interested nodes plays no part in forwarding.
proof fn lemma_forwarding_scratch(
    h: HubView,
    id: u64,
    nodes: Seq<Seq<char>>,
    scratch: Seq<Seq<char>>,
)
    ensures
        (HubView {
            cluster: ClusterView { interest_scratch: scratch, ..h.cluster },
            ..h
        }).forwarding_each(id, nodes) == (HubView {
            cluster: ClusterView {
                interest_scratch: scratch,
                ..h.forwarding_each(id, nodes).cluster
            },
            ..h.forwarding_each(id, nodes)
        }),
    decreases nodes.len(),
{
    if nodes.len() > 0 {
        lemma_forwarding_scratch(h, id, nodes.drop_last(), scratch);
    }
}

/// A fan-out that skips the walk over the links sends no less: where nobody wants a message that
/// is not for all, and where whoever wants it was sent it to be answered, there is nothing left
/// to send.
pub proof fn law_skipped_walk_sends_nothing(
    peers: Seq<(Seq<char>, PeerView)>,
    wanting: Seq<Seq<char>>,
    gated: bool,
    frame: FrameView,
)
    requires
        gated || wanting.len() == 0,
    ensures
        fan_frames(peers, wanting, gated, false, frame).len() == 0,
    decreases peers.len(),
{
    if peers.len() > 0 {
        law_skipped_walk_sends_nothing(peers.drop_last(), wanting, gated, frame);
    }
}

/// What is for all, and what no node was sent to be answered, reaches every linked node once.
pub proof fn law_broadcast_reaches_all(
    peers: Seq<(Seq<char>, PeerView)>,
    wanting: Seq<Seq<char>>,
    frame: FrameView,
    i: int,
)
    requires
        0 <= i < peers.len(),
    ensures
        fan_frames(peers, wanting, false, true, frame).len() == peers.len(),
        fan_frames(peers, wanting, false, true, frame)[i] == (EffectView::Frame {
            node: peers[i].0,
            frame,
        }),
    decreases peers.len(),
{
    if i < peers.len() - 1 {
        law_broadcast_reaches_all(peers.drop_last(), wanting, frame, i);
    } else if peers.len() > 1 {
        law_broadcast_reaches_all(peers.drop_last(), wanting, frame, 0);
    } else {
        assert(fan_frames(peers.drop_last(), wanting, false, true, frame).len() == 0);
    }
}

/// That a publish reached somebody frees its acknowledgement and nothing else: it is still
/// delivered to whoever turns up while routing settles.
pub proof fn law_reached_frees_ack_alone(h: HubView, id: u64)
    ensures
        unsettled_ids(h.reached(id).ledger.entries) == unsettled_ids(h.ledger.entries),
        match lookup(h.ledger.entries, id) {
            Some(p) => lookup(h.reached(id).ledger.entries, id) == Some(
                PendingView { ack_awaits_settle: false, ..p },
            ),
            None => h.reached(id) == h,
        },
{
    match lookup(h.ledger.entries, id) {
        Some(p) => {
            let q = PendingView { ack_awaits_settle: false, ..p };
            crate::assoc::lemma_position(h.ledger.entries, id);
            crate::assoc::lemma_lookup_put(h.ledger.entries, id, q, id);
            lemma_unsettled_update(
                h.ledger.entries,
                crate::assoc::position(h.ledger.entries, id),
                (id, q),
            );
        },
        None => {},
    }
}

proof fn lemma_unsettled_update(s: Seq<(u64, PendingView)>, i: int, e: (u64, PendingView))
    requires
        0 <= i < s.len(),
        e.0 == s[i].0,
        e.1.awaiting_settle == s[i].1.awaiting_settle,
        e.1.reroute_grace == s[i].1.reroute_grace,
    ensures
        unsettled_ids(s.update(i, e)) == unsettled_ids(s),
    decreases s.len(),
{
    let t = s.drop_last();
    if i < t.len() {
        lemma_unsettled_update(t, i, e);
        assert(s.update(i, e).drop_last() =~= t.update(i, e));
    } else {
        assert(s.update(i, e).drop_last() =~= t);
    }
}

/// A node is reminded of what it owes with the very frame it was sent, under the same number, so
/// that it can tell a reminder from another publish.
pub proof fn law_reminders_repeat(
    c: ClusterView,
    p: PendingView,
    awaiting: Seq<(u64, ObligationView)>,
    i: int,
)
    requires
        0 <= i < awaiting.len(),
        c.linked(awaiting[i].1.node),
    ensures
        reminders(c, p, awaiting).contains(
            EffectView::Frame {
                node: awaiting[i].1.node,
                frame: p.frame(awaiting[i].0, awaiting[i].1),
            },
        ),
    decreases awaiting.len(),
{
    let t = awaiting.drop_last();
    let rest = reminders(c, p, t);
    let all = reminders(c, p, awaiting);
    let goal = EffectView::Frame {
        node: awaiting[i].1.node,
        frame: p.frame(awaiting[i].0, awaiting[i].1),
    };
    if i == awaiting.len() - 1 {
        assert(all[rest.len() as int] == goal);
    } else {
        assert(t[i] == awaiting[i]);
        law_reminders_repeat(c, p, t, i);
        let j = choose|j: int| 0 <= j < rest.len() && rest[j] == goal;
        assert(all[j] == goal);
    }
}

} // verus!
