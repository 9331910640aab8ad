//! The ledger of publishes that wait for their acknowledgement.
//!
//! A publisher is answered when every obligation of its publish is met: the durable writes on
//! this node, the commit of a retained message, and the answers of the nodes it was forwarded
//! to. A publish that fails is dropped, and its publisher, left without an answer, publishes
//! again.

use vstd::prelude::*;

use crate::assoc::{adjoin, bound, cut, cut_value, lookup, not_key, position, push_item, put, put_ranked,
    Key, Roster, Table};
use crate::effects::{Effect, EffectView};
use crate::ids::{advance, next_number, number_above, ClientId, NodeId};
use crate::message::{Publication, PublicationView};
use crate::outcome::{PublishOutcome, PublishRefusal};
use crate::qos::QoS;
use crate::shared::{KeyView, SharedKey};
use crate::wire::{on_wire, to_wire, FrameView, PeerMessage};

verus! {

/// How many publishes may wait.
pub const PENDING_PUBLISH_CAP: usize = 4096;

/// The age, in milliseconds, past which a publish that waits is given up.
pub const PENDING_PUBLISH_MAX_AGE: u64 = 300_000;

/// For how many sweeps a publish whose target died looks for another.
pub const REROUTE_GRACE_TICKS: u8 = 8;

/// What a node was sent on behalf of a publish.
#[derive(Debug)]
pub enum ForwardKind {
    /// The publish, for whoever subscribes there.
    Ordinary,
    /// The publish, for one member of a shared group.
    Shared {
        key: SharedKey,
        client: ClientId,
        qos: QoS,
        /// The members that were tried.
        tried: Vec<(Option<NodeId>, ClientId)>,
    },
}

/// Model of [`ForwardKind`].
pub enum KindView {
    Ordinary,
    Shared {
        key: KeyView,
        client: Seq<char>,
        qos: QoS,
        tried: Seq<(Option<Seq<char>>, Seq<char>)>,
    },
}

impl DeepView for ForwardKind {
    type V = KindView;

    open spec fn deep_view(&self) -> KindView {
        match *self {
            ForwardKind::Ordinary => KindView::Ordinary,
            ForwardKind::Shared { key, client, qos, tried } => KindView::Shared {
                key: key.deep_view(),
                client: client.deep_view(),
                qos,
                tried: tried.deep_view(),
            },
        }
    }
}

/// A node that owes an answer, and for what.
#[derive(Debug)]
pub struct ForwardObligation {
    pub node: NodeId,
    pub kind: ForwardKind,
}

/// Model of [`ForwardObligation`].
#[verifier::ext_equal]
pub struct ObligationView {
    pub node: Seq<char>,
    pub kind: KindView,
}

impl DeepView for ForwardObligation {
    type V = ObligationView;

    open spec fn deep_view(&self) -> ObligationView {
        ObligationView { node: self.node.deep_view(), kind: self.kind.deep_view() }
    }
}

/// A publish that waits.
#[derive(Debug)]
pub struct PendingPublish {
    /// Names the publisher, until it is answered.
    pub done: Option<u64>,
    /// What was published.
    pub publication: Publication,
    /// The nodes that owe an answer, by the number they answer under.
    pub awaiting: Table<u64, ForwardObligation>,
    /// Whether it is known to be stored somewhere.
    pub stored: bool,
    /// The nodes that answered that they stored it.
    pub acked_nodes: Roster<NodeId>,
    /// Whether the commit of the retained message is outstanding.
    pub awaiting_retained: bool,
    /// Whether it was handed to everybody on this node.
    pub local_done: bool,
    /// Durable writes on this node that are outstanding.
    pub appends_outstanding: usize,
    /// When it arrived.
    pub created_at: u64,
    /// For how many more sweeps it looks for another target.
    pub reroute_grace: Option<u8>,
    /// Whether it is to be delivered again to whoever turns up while routing settles.
    pub awaiting_settle: bool,
    /// Whether its acknowledgement waits for routing to settle.
    pub ack_awaits_settle: bool,
    /// Whether its publisher is content once it was handed out.
    pub relaxed: bool,
    /// Whether it met a lane that was too deep for that.
    pub congested: bool,
    /// Whether the store is still to say that it took the retained message.
    pub awaiting_store: bool,
}

/// Model of [`PendingPublish`].
#[verifier::ext_equal]
pub struct PendingView {
    pub done: Option<u64>,
    pub publication: PublicationView,
    pub awaiting: Seq<(u64, ObligationView)>,
    pub stored: bool,
    pub acked_nodes: Seq<Seq<char>>,
    pub awaiting_retained: bool,
    pub local_done: bool,
    pub appends_outstanding: usize,
    pub created_at: u64,
    pub reroute_grace: Option<u8>,
    pub awaiting_settle: bool,
    pub ack_awaits_settle: bool,
    pub relaxed: bool,
    pub congested: bool,
    pub awaiting_store: bool,
}

impl DeepView for PendingPublish {
    type V = PendingView;

    open spec fn deep_view(&self) -> PendingView {
        PendingView {
            done: self.done,
            publication: self.publication.deep_view(),
            awaiting: self.awaiting.deep_view(),
            stored: self.stored,
            acked_nodes: self.acked_nodes.deep_view(),
            awaiting_retained: self.awaiting_retained,
            local_done: self.local_done,
            appends_outstanding: self.appends_outstanding,
            created_at: self.created_at,
            reroute_grace: self.reroute_grace,
            awaiting_settle: self.awaiting_settle,
            ack_awaits_settle: self.ack_awaits_settle,
            relaxed: self.relaxed,
            congested: self.congested,
            awaiting_store: self.awaiting_store,
        }
    }
}

/// What the publisher named `done` is told, if it still waits.
pub open spec fn told(done: Option<u64>, outcome: PublishOutcome) -> Seq<EffectView> {
    match done {
        Some(token) => seq![EffectView::Published { token, outcome }],
        None => Seq::empty(),
    }
}

/// What happens when the publisher named `done` is told nothing.
pub open spec fn withheld(done: Option<u64>) -> Seq<EffectView> {
    match done {
        Some(token) => seq![EffectView::Withheld { token }],
        None => Seq::empty(),
    }
}

/// Whether every number of `s` is at most `n`.
pub open spec fn under(s: Seq<(u64, ObligationView)>, n: u64) -> bool {
    forall|i: int| 0 <= i < s.len() ==> (#[trigger] s[i]).0 <= n
}

/// The nodes of `s` that owe an answer and are not `node`.
pub open spec fn not_owed_by(node: Seq<char>) -> spec_fn((u64, ObligationView)) -> bool {
    |e: (u64, ObligationView)| e.1.node != node
}

/// The numbers under which `node` owes an answer.
pub open spec fn owed_by(s: Seq<(u64, ObligationView)>, node: Seq<char>) -> Seq<u64>
    decreases s.len(),
{
    if s.len() == 0 {
        Seq::empty()
    } else if s.last().1.node == node {
        owed_by(s.drop_last(), node).push(s.last().0)
    } else {
        owed_by(s.drop_last(), node)
    }
}

impl PendingView {
    /// Whether nothing is outstanding.
    pub open spec fn resolved(self) -> bool {
        &&& !self.awaiting_retained
        &&& !self.awaiting_store
        &&& self.appends_outstanding == 0
        &&& self.awaiting.len() == 0
        &&& (self.reroute_grace is None || self.reroute_grace == Some(0u8))
    }

    /// Whether the publisher does not wait for what is outstanding.
    pub open spec fn content(self) -> bool {
        self.relaxed && !self.congested
    }

    /// Whether the publisher is to be told that its publish was accepted.
    pub open spec fn ack_due(self) -> bool {
        self.local_done && !self.ack_awaits_settle && !self.awaiting_store && (self.resolved()
            || self.content())
    }

    /// Whether the publish is over and done with.
    pub open spec fn over(self) -> bool {
        self.local_done && !self.ack_awaits_settle && self.resolved() && !self.awaiting_settle
    }

    /// Whether the publisher was answered.
    pub open spec fn released(self) -> bool {
        self.done is None
    }

    /// The publish after `node` died.
    pub open spec fn bereft_of(self, node: Seq<char>) -> PendingView {
        if owed_by(self.awaiting, node).len() == 0 {
            self
        } else {
            PendingView {
                awaiting: self.awaiting.filter(not_owed_by(node)),
                reroute_grace: Some(REROUTE_GRACE_TICKS),
                ..self
            }
        }
    }

    /// The frame that forwards the publish under `seq`.
    pub open spec fn frame(self, seq: u64, obligation: ObligationView) -> FrameView {
        match obligation.kind {
            KindView::Ordinary => FrameView::PublishAcked {
                seq,
                publication: on_wire(
                    self.publication,
                    self.publication.qos,
                    self.publication.retain,
                ),
            },
            KindView::Shared { client, qos, .. } => FrameView::SharedDeliverAcked {
                seq,
                client,
                publication: on_wire(self.publication, qos, false),
            },
        }
    }
}

impl PendingPublish {
    /// Tells the publisher `outcome`, unless it was answered; says whether it was told.
    pub fn answer(&mut self, outcome: PublishOutcome, out: &mut Vec<Effect>) -> (r: bool)
        ensures
            r == !old(self).deep_view().released(),
            final(self).deep_view() == (PendingView { done: None, ..old(self).deep_view() }),
            final(out).deep_view() == old(out).deep_view() + told(old(self).done, outcome),
    {
        match self.done.take() {
            Some(token) => {
                push_item(out, Effect::Published { token, outcome });
                assert(out.deep_view() =~= old(out).deep_view() + told(old(self).done, outcome));
                true
            },
            None => {
                assert(out.deep_view() =~= old(out).deep_view() + told(old(self).done, outcome));
                false
            },
        }
    }

    /// See [`PendingView::released`].
    pub fn ack_released(&self) -> (r: bool)
        ensures
            r == self.deep_view().released(),
    {
        self.done.is_none()
    }

    /// See [`PendingView::resolved`].
    pub fn is_resolved(&self) -> (r: bool)
        ensures
            r == self.deep_view().resolved(),
    {
        let graceless = match self.reroute_grace {
            Some(n) => n == 0,
            None => true,
        };
        !self.awaiting_retained && !self.awaiting_store && self.appends_outstanding == 0
            && self.awaiting.is_empty() && graceless
    }

    /// See [`PendingView::frame`].
    pub fn forward_frame(&self, seq: u64, obligation: &ForwardObligation) -> (r: PeerMessage)
        ensures
            r.deep_view() == self.deep_view().frame(seq, obligation.deep_view()),
    {
        match &obligation.kind {
            ForwardKind::Ordinary => PeerMessage::PublishAcked {
                seq,
                publication: to_wire(
                    &self.publication,
                    self.publication.qos,
                    self.publication.retain,
                ),
            },
            ForwardKind::Shared { client, qos, .. } => PeerMessage::SharedDeliverAcked {
                seq,
                client: client.as_str().to_owned(),
                publication: to_wire(&self.publication, *qos, false),
            },
        }
    }

    /// See [`PendingView::bereft_of`]; also returns the numbers that are moot.
    fn lose_node(&mut self, node: &NodeId) -> (r: Vec<u64>)
        ensures
            r.deep_view() == owed_by(old(self).deep_view().awaiting, node.deep_view()),
            final(self).deep_view() == old(self).deep_view().bereft_of(node.deep_view()),
    {
        let ghost s = self.awaiting.deep_view();
        let ghost n = node.deep_view();
        let ghost keep = not_owed_by(n);
        let mut lost: Vec<u64> = Vec::new();
        let mut i: usize = 0;
        assert(lost.deep_view() =~= owed_by(s.take(0), n));
        while i < self.awaiting.len()
            invariant
                i <= s.len(),
                s == self.awaiting.deep_view(),
                n == node.deep_view(),
                self.deep_view() == old(self).deep_view(),
                lost.deep_view() == owed_by(s.take(i as int), n),
            decreases s.len() - i,
        {
            proof {
                assert(s.take(i as int + 1).drop_last() =~= s.take(i as int));
                assert(s.take(i as int + 1).last() == s[i as int]);
            }
            if self.awaiting.value_at(i).node.same(node) {
                push_item(&mut lost, *self.awaiting.key_at(i));
            }
            i += 1;
        }
        assert(s.take(i as int) =~= s);
        if lost.len() == 0 {
            return lost;
        }
        let mut j: usize = 0;
        while j < self.awaiting.entries.len()
            invariant
                j <= self.awaiting.entries@.len(),
                n == node.deep_view(),
                keep == not_owed_by(n),
                self.deep_view() == (PendingView {
                    awaiting: self.awaiting.deep_view(),
                    ..old(self).deep_view()
                }),
                self.awaiting.deep_view().filter(keep) == s.filter(keep),
                forall|k: int| 0 <= k < j ==> keep(#[trigger] self.awaiting.deep_view()[k]),
            decreases self.awaiting.entries@.len() - j,
        {
            if self.awaiting.entries[j].1.node.same(node) {
                let ghost t = self.awaiting.deep_view();
                let _dropped = self.awaiting.entries.remove(j);
                assert(self.awaiting.deep_view() =~= t.remove(j as int));
                proof {
                    crate::assoc::lemma_filter_remove(t, j as int, keep);
                }
                assert forall|k: int| 0 <= k < j implies keep(
                    #[trigger] self.awaiting.deep_view()[k],
                ) by {
                    assert(self.awaiting.deep_view()[k] == t[k]);
                }
            } else {
                assert(keep(self.awaiting.deep_view()[j as int]));
                j += 1;
            }
        }
        proof {
            crate::assoc::lemma_filter_all(self.awaiting.deep_view(), keep);
        }
        self.reroute_grace = Some(REROUTE_GRACE_TICKS);
        lost
    }
}

/// The publishes that wait, and the numbers that are handed out on their behalf.
#[derive(Debug)]
pub struct Ledger {
    /// The publishes that wait, by number.
    pub entries: Table<u64, PendingPublish>,
    /// The number of the last publish.
    pub publish_ids: u64,
    /// The number of the last forward.
    pub forward_seq: u64,
    /// The publish that each outstanding forward belongs to.
    pub forward_index: Table<u64, u64>,
}

/// Model of [`Ledger`].
#[verifier::ext_equal]
pub struct LedgerView {
    pub entries: Seq<(u64, PendingView)>,
    pub publish_ids: u64,
    pub forward_seq: u64,
    pub forward_index: Seq<(u64, u64)>,
}

impl DeepView for Ledger {
    type V = LedgerView;

    open spec fn deep_view(&self) -> LedgerView {
        LedgerView {
            entries: self.entries.deep_view(),
            publish_ids: self.publish_ids,
            forward_seq: self.forward_seq,
            forward_index: self.forward_index.deep_view(),
        }
    }
}

/// What becomes of a publish that arrives.
#[derive(Debug, Clone, Copy, PartialEq, Eq, Structural)]
pub enum PendingAdmission {
    /// It is taken in.
    Admit,
    /// It takes the place of one whose publisher was answered.
    EvictReplayOnly,
    /// It takes the place of the oldest, which was given up.
    EvictOldest,
    /// It is turned away.
    Refuse,
}

/// The order of victims: a publish that nobody waits for; else the oldest, once it is past
/// `max_age`; else the one that arrives.
pub open spec fn admission(
    len: nat,
    cap: nat,
    answered_one: bool,
    oldest_age: Option<u64>,
    max_age: u64,
) -> PendingAdmission {
    if len < cap {
        PendingAdmission::Admit
    } else if answered_one {
        PendingAdmission::EvictReplayOnly
    } else if oldest_age matches Some(age) && age > max_age {
        PendingAdmission::EvictOldest
    } else {
        PendingAdmission::Refuse
    }
}

/// See [`admission`].
pub fn admit_pending(
    len: usize,
    cap: usize,
    answered_one: bool,
    oldest_age: Option<u64>,
    max_age: u64,
) -> (r: PendingAdmission)
    ensures
        r == admission(len as nat, cap as nat, answered_one, oldest_age, max_age),
{
    if len < cap {
        return PendingAdmission::Admit;
    }
    if answered_one {
        return PendingAdmission::EvictReplayOnly;
    }
    match oldest_age {
        Some(age) => if age > max_age {
            PendingAdmission::EvictOldest
        } else {
            PendingAdmission::Refuse
        },
        None => PendingAdmission::Refuse,
    }
}

/// Index of the first publish whose publisher was answered, or `s.len()`.
pub open spec fn first_answered(s: Seq<(u64, PendingView)>) -> int
    decreases s.len(),
{
    if s.len() == 0 || s[0].1.released() {
        0
    } else {
        1 + first_answered(s.skip(1))
    }
}

proof fn lemma_first_answered(s: Seq<(u64, PendingView)>, i: int)
    requires
        0 <= i <= s.len(),
        i < s.len() ==> s[i].1.released(),
        forall|j: int| 0 <= j < i ==> !(#[trigger] s[j]).1.released(),
    ensures
        first_answered(s) == i,
    decreases s.len(),
{
    if i > 0 {
        let t = s.skip(1);
        assert(!s[0].1.released());
        assert forall|j: int| 0 <= j < i - 1 implies !(#[trigger] t[j]).1.released() by {
            assert(t[j] == s[j + 1]);
        }
        if i < s.len() {
            assert(t[i - 1] == s[i]);
        }
        lemma_first_answered(t, i - 1);
    }
}

/// How long ago `since` was.
pub open spec fn age(now: u64, since: u64) -> u64 {
    if now < since {
        0
    } else {
        (now - since) as u64
    }
}

/// `s` without the bindings of any of `ks`.
pub open spec fn cut_all<V>(s: Seq<(u64, V)>, ks: Seq<u64>) -> Seq<(u64, V)>
    decreases ks.len(),
{
    if ks.len() == 0 {
        s
    } else {
        cut(cut_all(s, ks.drop_last()), ks.last())
    }
}

/// The forwards that are moot once `node` is dead.
pub open spec fn lost_with(s: Seq<(u64, PendingView)>, node: Seq<char>) -> Seq<u64>
    decreases s.len(),
{
    if s.len() == 0 {
        Seq::empty()
    } else {
        lost_with(s.drop_last(), node) + owed_by(s.last().1.awaiting, node)
    }
}

impl LedgerView {
    /// The ledger of a hub that has seen no publish.
    pub open spec fn blank() -> LedgerView {
        LedgerView {
            entries: Seq::empty(),
            publish_ids: 0,
            forward_seq: 0,
            forward_index: Seq::empty(),
        }
    }

    /// With `p` in the place of publish `id`.
    pub open spec fn with(self, id: u64, p: PendingView) -> LedgerView {
        LedgerView { entries: put(self.entries, id, p), ..self }
    }

    /// Without publish `id` and its forwards.
    pub open spec fn dropped(self, id: u64) -> LedgerView {
        if bound(self.entries, id) {
            LedgerView {
                entries: cut(self.entries, id),
                forward_index: cut_value(self.forward_index, id),
                ..self
            }
        } else {
            self
        }
    }

    /// What dropping publish `id` does to its publisher.
    pub open spec fn drop_effects(self, id: u64) -> Seq<EffectView> {
        match lookup(self.entries, id) {
            Some(p) => withheld(p.done),
            None => Seq::empty(),
        }
    }

    /// What the publisher of `id` is told when the publish is turned away. A refusal claims
    /// that nothing was kept, so it is only told where nothing was.
    pub open spec fn refuse_effects(self, id: u64, r: PublishRefusal) -> Seq<EffectView> {
        match lookup(self.entries, id) {
            Some(p) => if p.stored || p.appends_outstanding > 0 || p.awaiting_store {
                withheld(p.done)
            } else {
                told(p.done, PublishOutcome::Refused(r))
            },
            None => Seq::empty(),
        }
    }

    /// With publish `id` answered and removed, as far as it is due.
    pub open spec fn completed(self, id: u64) -> LedgerView {
        match lookup(self.entries, id) {
            Some(p) => if p.over() {
                LedgerView { entries: cut(self.entries, id), ..self }
            } else if p.ack_due() {
                self.with(id, PendingView { done: None, ..p })
            } else {
                self
            },
            None => self,
        }
    }

    /// What the publisher of `id` is told when its acknowledgement is due.
    pub open spec fn complete_effects(self, id: u64) -> Seq<EffectView> {
        match lookup(self.entries, id) {
            Some(p) => if p.ack_due() {
                told(p.done, PublishOutcome::Accepted)
            } else {
                Seq::empty()
            },
            None => Seq::empty(),
        }
    }

    /// What becomes of a publish that arrives at `instant`.
    pub open spec fn admission(self, instant: u64) -> PendingAdmission {
        admission(
            self.entries.len(),
            PENDING_PUBLISH_CAP as nat,
            first_answered(self.entries) < self.entries.len(),
            if self.entries.len() == 0 {
                None
            } else {
                Some(age(instant, self.entries[0].1.created_at))
            },
            PENDING_PUBLISH_MAX_AGE,
        )
    }

    /// The publish that makes place for one that arrives at `instant`.
    pub open spec fn victim(self, instant: u64) -> Option<u64> {
        match self.admission(instant) {
            PendingAdmission::EvictReplayOnly => Some(self.entries[first_answered(self.entries)].0),
            PendingAdmission::EvictOldest => Some(self.entries[0].0),
            _ => None,
        }
    }

    /// The ledger once the victim is gone.
    pub open spec fn with_place(self, instant: u64) -> LedgerView {
        match self.victim(instant) {
            Some(id) => self.dropped(id),
            None => self,
        }
    }

    /// What happens to the victim's publisher.
    pub open spec fn place_effects(self, instant: u64) -> Seq<EffectView> {
        match self.victim(instant) {
            Some(id) => self.drop_effects(id),
            None => Seq::empty(),
        }
    }

    /// The ledger after a publish arrived.
    pub open spec fn registered(
        self,
        token: u64,
        publication: PublicationView,
        unsettled: bool,
        instant: u64,
    ) -> LedgerView {
        if self.admission(instant) == PendingAdmission::Refuse {
            self
        } else {
            let l = self.with_place(instant);
            let id = next_number(l.publish_ids);
            LedgerView {
                entries: put_ranked::<u64, PendingView>(
                    l.entries,
                    id,
                    PendingView {
                        done: Some(token),
                        publication,
                        awaiting: Seq::empty(),
                        stored: false,
                        acked_nodes: Seq::empty(),
                        awaiting_retained: false,
                        local_done: false,
                        appends_outstanding: 0,
                        created_at: instant,
                        reroute_grace: None,
                        awaiting_settle: unsettled,
                        ack_awaits_settle: unsettled,
                        relaxed: false,
                        congested: false,
                        awaiting_store: false,
                    },
                ),
                publish_ids: id,
                ..l
            }
        }
    }

    /// The number of a publish that arrives, unless it is turned away.
    pub open spec fn registered_id(self, instant: u64) -> Option<u64> {
        if self.admission(instant) == PendingAdmission::Refuse {
            None
        } else {
            Some(next_number(self.publish_ids))
        }
    }

    /// What publishers are told when a publish arrives.
    pub open spec fn register_effects(self, token: u64, instant: u64) -> Seq<EffectView> {
        if self.admission(instant) == PendingAdmission::Refuse {
            told(Some(token), PublishOutcome::Refused(PublishRefusal::PendingCap))
        } else {
            self.place_effects(instant)
        }
    }

    /// With a forward of publish `id` recorded.
    pub open spec fn forwarded(self, id: u64, obligation: ObligationView) -> LedgerView {
        let seq = number_above(self.forward_seq);
        match lookup(self.entries, id) {
            Some(p) => LedgerView {
                entries: put(
                    self.entries,
                    id,
                    PendingView { awaiting: put(p.awaiting, seq, obligation), ..p },
                ),
                forward_seq: seq,
                forward_index: put(self.forward_index, seq, id),
                ..self
            },
            None => LedgerView { forward_seq: seq, ..self },
        }
    }

    /// The forward that an answer of `node` under `seq` settles: its publish, and what was
    /// sent.
    pub open spec fn settles(self, node: Seq<char>, seq: u64) -> Option<(u64, ObligationView)> {
        match lookup(self.forward_index, seq) {
            Some(id) => match lookup(self.entries, id) {
                Some(p) => match lookup(p.awaiting, seq) {
                    Some(o) => if o.node == node {
                        Some((id, o))
                    } else {
                        None
                    },
                    None => None,
                },
                None => None,
            },
            None => None,
        }
    }

    /// The ledger after an answer of `node` under `seq`. An answer that settles nothing is
    /// forgotten.
    pub open spec fn settled(self, node: Seq<char>, seq: u64) -> LedgerView {
        let l = LedgerView { forward_index: cut(self.forward_index, seq), ..self };
        match self.settles(node, seq) {
            Some((id, _)) => {
                let p = lookup(self.entries, id)->Some_0;
                l.with(id, PendingView { awaiting: cut(p.awaiting, seq), ..p })
            },
            None => l,
        }
    }

    /// With publish `id` known to be stored on `node`.
    pub open spec fn stored_on(self, id: u64, node: Seq<char>) -> LedgerView {
        match lookup(self.entries, id) {
            Some(p) => self.with(
                id,
                PendingView { stored: true, acked_nodes: adjoin(p.acked_nodes, node), ..p },
            ),
            None => self,
        }
    }

    /// The ledger after `node` died.
    pub open spec fn bereft_of(self, node: Seq<char>) -> LedgerView {
        LedgerView {
            entries: Seq::new(
                self.entries.len(),
                |i: int| (self.entries[i].0, self.entries[i].1.bereft_of(node)),
            ),
            forward_index: cut_all(self.forward_index, lost_with(self.entries, node)),
            ..self
        }
    }
}

impl Ledger {
    /// See [`LedgerView::blank`].
    pub fn new() -> (r: Self)
        ensures
            r.deep_view() == LedgerView::blank(),
    {
        Ledger {
            entries: Table::new(),
            publish_ids: 0,
            forward_seq: 0,
            forward_index: Table::new(),
        }
    }

    /// Drops publish `id`; a publisher that waits is told nothing.
    pub fn drop_pending(&mut self, id: u64, out: &mut Vec<Effect>)
        ensures
            final(self).deep_view() == old(self).deep_view().dropped(id),
            final(out).deep_view() == old(out).deep_view() + old(self).deep_view().drop_effects(id),
    {
        match self.entries.remove(&id) {
            Some(p) => {
                self.forward_index.remove_value(id);
                if let Some(token) = p.done {
                    push_item(out, Effect::Withheld { token });
                }
            },
            None => {
                proof {
                    lemma_cut_absent(self.entries.deep_view(), old(self).deep_view().entries, id);
                }
            },
        }
        assert(out.deep_view() =~= old(out).deep_view() + old(self).deep_view().drop_effects(id));
    }

    /// Turns publish `id` away.
    pub fn refuse_pending(&mut self, id: u64, r: PublishRefusal, out: &mut Vec<Effect>)
        ensures
            final(self).deep_view() == old(self).deep_view().dropped(id),
            final(out).deep_view() == old(out).deep_view()
                + old(self).deep_view().refuse_effects(id, r),
    {
        match self.entries.remove(&id) {
            Some(p) => {
                self.forward_index.remove_value(id);
                if let Some(token) = p.done {
                    if p.stored || p.appends_outstanding > 0 || p.awaiting_store {
                        push_item(out, Effect::Withheld { token });
                    } else {
                        push_item(
                            out,
                            Effect::Published { token, outcome: PublishOutcome::Refused(r) },
                        );
                    }
                }
            },
            None => {
                proof {
                    lemma_cut_absent(self.entries.deep_view(), old(self).deep_view().entries, id);
                }
            },
        }
        assert(out.deep_view() =~= old(out).deep_view() + old(self).deep_view().refuse_effects(
            id,
            r,
        ));
    }

    /// Answers the publisher of `id` and removes the publish, as far as it is due.
    pub fn try_complete_pending(&mut self, id: u64, out: &mut Vec<Effect>)
        ensures
            final(self).deep_view() == old(self).deep_view().completed(id),
            final(out).deep_view() == old(out).deep_view()
                + old(self).deep_view().complete_effects(id),
    {
        let ghost s = self.deep_view().entries;
        let mut over = false;
        match self.entries.get_mut(&id) {
            Some(p) => {
                if p.local_done && !p.ack_awaits_settle && !p.awaiting_store {
                    let resolved = p.is_resolved();
                    over = resolved && !p.awaiting_settle;
                    if resolved || (p.relaxed && !p.congested) {
                        let _told = p.answer(PublishOutcome::Accepted, out);
                    }
                }
            },
            None => {},
        }
        proof {
            if let Some(p) = lookup(s, id) {
                lemma_put_same(s, id);
                if p.over() {
                    lemma_cut_put(s, id, PendingView { done: None, ..p });
                }
            }
            assert(out.deep_view() =~= old(out).deep_view()
                + old(self).deep_view().complete_effects(id));
        }
        if over {
            let _gone = self.entries.remove(&id);
        }
    }

    /// See [`LedgerView::admission`] and [`LedgerView::victim`].
    fn pending_admission(&self, instant: u64) -> (r: (PendingAdmission, Option<u64>))
        ensures
            r.0 == self.deep_view().admission(instant),
            r.1 == self.deep_view().victim(instant),
    {
        let len: usize = self.entries.len();
        if len < PENDING_PUBLISH_CAP {
            return (PendingAdmission::Admit, None);
        }
        let ghost s = self.deep_view().entries;
        let mut i: usize = 0;
        while i < len && !self.entries.value_at(i).ack_released()
            invariant
                i <= len,
                len == s.len(),
                s == self.deep_view().entries,
                forall|j: int| 0 <= j < i ==> !(#[trigger] s[j]).1.released(),
            decreases len - i,
        {
            i += 1;
        }
        proof {
            lemma_first_answered(s, i as int);
        }
        let oldest: u64 = self.entries.value_at(0).created_at;
        let oldest_age: u64 = instant.saturating_sub(oldest);
        let verdict = admit_pending(
            len,
            PENDING_PUBLISH_CAP,
            i < len,
            Some(oldest_age),
            PENDING_PUBLISH_MAX_AGE,
        );
        let victim: Option<u64> = match verdict {
            PendingAdmission::EvictReplayOnly => Some(*self.entries.key_at(i)),
            PendingAdmission::EvictOldest => Some(*self.entries.key_at(0)),
            _ => None,
        };
        (verdict, victim)
    }

    /// Takes a publish in, and returns its number; or turns it away, tells its publisher, and
    /// changes nothing.
    pub fn register_pending(
        &mut self,
        token: u64,
        publication: &Publication,
        unsettled: bool,
        instant: u64,
        out: &mut Vec<Effect>,
    ) -> (r: Option<u64>)
        ensures
            final(self).deep_view() == old(self).deep_view().registered(
                token,
                publication.deep_view(),
                unsettled,
                instant,
            ),
            r == old(self).deep_view().registered_id(instant),
            final(out).deep_view() == old(out).deep_view() + old(self).deep_view().register_effects(
                token,
                instant,
            ),
    {
        let (verdict, victim) = self.pending_admission(instant);
        if verdict == PendingAdmission::Refuse {
            push_item(
                out,
                Effect::Published {
                    token,
                    outcome: PublishOutcome::Refused(PublishRefusal::PendingCap),
                },
            );
            assert(out.deep_view() =~= old(out).deep_view()
                + old(self).deep_view().register_effects(token, instant));
            return None;
        }
        match victim {
            Some(id) => {
                self.drop_pending(id, out);
            },
            None => {},
        }
        assert(out.deep_view() =~= old(out).deep_view() + old(self).deep_view().register_effects(
            token,
            instant,
        ));
        let id: u64 = advance(&mut self.publish_ids);
        self.entries.insert_ranked(
            id,
            PendingPublish {
                done: Some(token),
                publication: publication.clone(),
                awaiting: Table::new(),
                stored: false,
                acked_nodes: Roster::new(),
                awaiting_retained: false,
                local_done: false,
                appends_outstanding: 0,
                created_at: instant,
                reroute_grace: None,
                awaiting_settle: unsettled,
                ack_awaits_settle: unsettled,
                relaxed: false,
                congested: false,
                awaiting_store: false,
            },
        );
        Some(id)
    }

    /// Records that `obligation` was sent on behalf of publish `id`, and returns the frame to
    /// send, which carries the number that the answer comes under.
    pub fn register_forward(&mut self, id: u64, obligation: ForwardObligation) -> (r: Option<
        PeerMessage,
    >)
        ensures
            final(self).deep_view() == old(self).deep_view().forwarded(id, obligation.deep_view()),
            r.deep_view() == (match lookup(old(self).deep_view().entries, id) {
                Some(p) => Some(
                    p.frame(number_above(old(self).forward_seq), obligation.deep_view()),
                ),
                None => None,
            }),
    {
        self.forward_seq = self.forward_seq.saturating_add(1);
        let seq: u64 = self.forward_seq;
        match self.entries.get_mut(&id) {
            Some(p) => {
                let frame = p.forward_frame(seq, &obligation);
                p.awaiting.insert(seq, obligation);
                self.forward_index.insert(seq, id);
                Some(frame)
            },
            None => None,
        }
    }

    /// Takes the forward out that an answer of `node` under `seq` settles.
    pub fn settle_forward(&mut self, node: &NodeId, seq: u64) -> (r: Option<
        (u64, ForwardObligation),
    >)
        ensures
            r.deep_view() == old(self).deep_view().settles(node.deep_view(), seq),
            final(self).deep_view() == old(self).deep_view().settled(node.deep_view(), seq),
    {
        let ghost before = self.deep_view();
        let id: u64 = match self.forward_index.remove(&seq) {
            Some(id) => id,
            None => {
                return None;
            },
        };
        match self.entries.get_mut(&id) {
            Some(p) => {
                let ghost pv = p.deep_view();
                let owed = match p.awaiting.get(&seq) {
                    Some(o) => o.node.same(node),
                    None => false,
                };
                if !owed {
                    proof {
                        lemma_put_same(before.entries, id);
                    }
                    return None;
                }
                match p.awaiting.remove(&seq) {
                    Some(o) => Some((id, o)),
                    None => None,
                }
            },
            None => None,
        }
    }

    /// See [`LedgerView::stored_on`].
    pub fn note_stored(&mut self, id: u64, node: &NodeId)
        ensures
            final(self).deep_view() == old(self).deep_view().stored_on(id, node.deep_view()),
    {
        match self.entries.get_mut(&id) {
            Some(p) => {
                p.stored = true;
                p.acked_nodes.insert(node.clone());
            },
            None => {},
        }
    }

    /// See [`LedgerView::bereft_of`].
    pub fn lose_node(&mut self, node: &NodeId)
        ensures
            final(self).deep_view() == old(self).deep_view().bereft_of(node.deep_view()),
    {
        let ghost s = self.deep_view().entries;
        let ghost n = node.deep_view();
        let ghost index = self.deep_view().forward_index;
        let mut lost: Vec<u64> = Vec::new();
        let mut i: usize = 0;
        assert(lost.deep_view() =~= lost_with(s.take(0), n));
        while i < self.entries.entries.len()
            invariant
                i <= s.len(),
                self.entries.entries@.len() == s.len(),
                n == node.deep_view(),
                s == old(self).deep_view().entries,
                index == old(self).deep_view().forward_index,
                self.deep_view() == (LedgerView {
                    entries: self.entries.deep_view(),
                    ..old(self).deep_view()
                }),
                forall|j: int|
                    0 <= j < i ==> (#[trigger] self.entries.deep_view()[j]) == (
                        s[j].0,
                        s[j].1.bereft_of(n),
                    ),
                forall|j: int| i <= j < s.len() ==> (#[trigger] self.entries.deep_view()[j]) == s[j],
                lost.deep_view() == lost_with(s.take(i as int), n),
            decreases s.len() - i,
        {
            let ghost before = self.entries.deep_view();
            proof {
                assert(s.take(i as int + 1).drop_last() =~= s.take(i as int));
                assert(s.take(i as int + 1).last() == s[i as int]);
                assert(before[i as int] == s[i as int]);
            }
            let mut more = self.entries.entries[i].1.lose_node(node);
            let ghost m = more.deep_view();
            assert(self.entries.deep_view() =~= before.update(
                i as int,
                (s[i as int].0, s[i as int].1.bereft_of(n)),
            ));
            let ghost l = lost.deep_view();
            lost.append(&mut more);
            assert(lost.deep_view() =~= l + m);
            i += 1;
        }
        assert(s.take(i as int) =~= s);
        assert(self.entries.deep_view() =~= old(self).deep_view().bereft_of(n).entries);
        let ghost ks = lost.deep_view();
        let ghost mapped = self.entries.deep_view();
        let mut j: usize = 0;
        assert(ks.take(0) =~= Seq::empty());
        while j < lost.len()
            invariant
                j <= lost@.len(),
                ks == lost.deep_view(),
                mapped == self.entries.deep_view(),
                self.deep_view() == (LedgerView {
                    entries: mapped,
                    forward_index: cut_all(index, ks.take(j as int)),
                    ..old(self).deep_view()
                }),
            decreases lost@.len() - j,
        {
            proof {
                assert(ks.take(j as int + 1).drop_last() =~= ks.take(j as int));
                assert(ks.take(j as int + 1).last() == ks[j as int]);
            }
            let _gone = self.forward_index.remove(&lost[j]);
            j += 1;
        }
        assert(ks.take(j as int) =~= ks);
    }
}

/// Unbinding a key that is not bound changes nothing.
pub proof fn lemma_cut_absent<V>(cut_s: Seq<(u64, V)>, s: Seq<(u64, V)>, k: u64)
    requires
        cut_s == cut(s, k),
        !bound(s, k),
    ensures
        cut_s == s,
{
    crate::assoc::lemma_position(s, k);
    crate::assoc::lemma_filter_all(s, not_key::<u64, V>(k));
}

/// Binding a key to what it is bound to changes nothing.
pub proof fn lemma_put_same<K, V>(s: Seq<(K, V)>, k: K)
    requires
        bound(s, k),
    ensures
        put(s, k, lookup(s, k)->Some_0) == s,
{
    crate::assoc::lemma_position(s, k);
    assert(put(s, k, lookup(s, k)->Some_0) =~= s);
}

/// Unbinding a key that was just rebound is unbinding it.
pub proof fn lemma_cut_put<K, V>(s: Seq<(K, V)>, k: K, v: V)
    requires
        bound(s, k),
    ensures
        cut(put(s, k, v), k) == cut(s, k),
{
    crate::shared::lemma_cut_put(s, k, v);
}

/// A publisher is answered at most once: after its publish was answered, dropped or turned away,
/// none of these tells it anything more.
pub proof fn law_answered_at_most_once(l: LedgerView, id: u64, r: PublishRefusal)
    ensures
        l.complete_effects(id).len() <= 1,
        l.drop_effects(id).len() <= 1,
        l.refuse_effects(id, r).len() <= 1,
        l.complete_effects(id).len() == 1 ==> l.completed(id).complete_effects(id).len() == 0
            && l.completed(id).drop_effects(id).len() == 0 && l.completed(id).refuse_effects(
            id,
            r,
        ).len() == 0,
        l.dropped(id).complete_effects(id).len() == 0,
        l.dropped(id).drop_effects(id).len() == 0,
        l.dropped(id).refuse_effects(id, r).len() == 0,
{
    crate::assoc::lemma_lookup_cut(l.entries, id, id);
    match lookup(l.entries, id) {
        Some(p) => {
            crate::assoc::lemma_lookup_put(
                l.entries,
                id,
                PendingView { done: None, ..p },
                id,
            );
        },
        None => {},
    }
}

/// A publisher is told that its publish was accepted only once this node is done with it, nobody
/// may turn up who should have had it, and the store has its retained message; and, unless it asked for less and met no lane that
/// was too deep, only once every durable write, every forward and every commit on its behalf is
/// over.
pub proof fn law_accepted_when_resolved(l: LedgerView, id: u64)
    ensures
        l.complete_effects(id).len() > 0 ==> match lookup(l.entries, id) {
            Some(p) => p.local_done && !p.ack_awaits_settle && !p.awaiting_store && p.done is Some && (
            p.content() || (
            p.awaiting.len() == 0 && p.appends_outstanding == 0 && !p.awaiting_retained)),
            None => false,
        },
{
}

/// A publisher is told that its publish was refused only where nothing of it was kept anywhere,
/// and nothing still might be.
pub proof fn law_refusal_is_honest(l: LedgerView, id: u64, r: PublishRefusal, token: u64)
    ensures
        l.refuse_effects(id, r).contains(
            EffectView::Published { token, outcome: PublishOutcome::Refused(r) },
        ) ==> match lookup(l.entries, id) {
            Some(p) => p.done == Some(token) && !p.stored && p.appends_outstanding == 0
                && !p.awaiting_store,
            None => false,
        },
{
    let told_refusal = EffectView::Published { token, outcome: PublishOutcome::Refused(r) };
    let es = l.refuse_effects(id, r);
    if es.contains(told_refusal) {
        let i = choose|i: int| 0 <= i < es.len() && es[i] == told_refusal;
        assert(es[i] == told_refusal);
    }
}

/// No more publishes wait than the cap allows. At the cap one that arrives is turned away, and
/// nothing changes, unless another one makes place: one whose publisher was answered, or one
/// that was given up.
pub proof fn law_waiting_cap(
    l: LedgerView,
    token: u64,
    p: PublicationView,
    unsettled: bool,
    instant: u64,
)
    requires
        l.entries.len() <= PENDING_PUBLISH_CAP,
    ensures
        l.registered(token, p, unsettled, instant).entries.len() <= PENDING_PUBLISH_CAP,
        l.entries.len() < PENDING_PUBLISH_CAP ==> l.registered_id(instant) is Some,
        l.registered_id(instant) is None ==> l.registered(token, p, unsettled, instant) == l
            && l.register_effects(token, instant) == seq![
            EffectView::Published {
                token,
                outcome: PublishOutcome::Refused(PublishRefusal::PendingCap),
            },
        ],
{
    match l.victim(instant) {
        Some(id) => {
            let i = if l.admission(instant) == PendingAdmission::EvictReplayOnly {
                first_answered(l.entries)
            } else {
                0
            };
            lemma_first_answered_bound(l.entries);
            assert(l.entries[i].0 == id);
            lemma_bound_at(l.entries, i);
            crate::assoc::lemma_cut_len(l.entries, id);
        },
        None => {},
    }
    let place = l.with_place(instant);
    let id = next_number(place.publish_ids);
    let added = l.registered(token, p, unsettled, instant);
    if l.admission(instant) != PendingAdmission::Refuse {
        let q = PendingView {
            done: Some(token),
            publication: p,
            awaiting: Seq::empty(),
            stored: false,
            acked_nodes: Seq::empty(),
            awaiting_retained: false,
            local_done: false,
            appends_outstanding: 0,
            created_at: instant,
            reroute_grace: None,
            awaiting_settle: unsettled,
            ack_awaits_settle: unsettled,
            relaxed: false,
            congested: false,
            awaiting_store: false,
        };
        assert(added.entries == put_ranked::<u64, PendingView>(place.entries, id, q));
        crate::assoc::lemma_put_ranked_len::<u64, PendingView>(place.entries, id, q);
    }
}

proof fn lemma_first_answered_bound(s: Seq<(u64, PendingView)>)
    ensures
        0 <= first_answered(s) <= s.len(),
    decreases s.len(),
{
    if s.len() > 0 && !s[0].1.released() {
        lemma_first_answered_bound(s.skip(1));
    }
}

proof fn lemma_bound_at<V>(s: Seq<(u64, V)>, i: int)
    requires
        0 <= i < s.len(),
    ensures
        bound(s, s[i].0),
{
    crate::assoc::lemma_position(s, s[i].0);
}

proof fn lemma_owed_by_none(s: Seq<(u64, ObligationView)>, node: Seq<char>)
    ensures
        owed_by(s.filter(not_owed_by(node)), node).len() == 0,
    decreases s.len(),
{
    reveal(Seq::filter);
    let keep = not_owed_by(node);
    if s.len() > 0 {
        lemma_owed_by_none(s.drop_last(), node);
        let t = s.drop_last().filter(keep);
        if keep(s.last()) {
            assert(s.filter(keep).drop_last() =~= t);
        }
    }
}

/// A dead node owes nothing; a publish that it owed an answer for is given time to find another
/// taker.
pub proof fn law_dead_node_owes_nothing(l: LedgerView, node: Seq<char>, i: int)
    requires
        0 <= i < l.entries.len(),
    ensures
        l.bereft_of(node).entries[i].0 == l.entries[i].0,
        owed_by(l.bereft_of(node).entries[i].1.awaiting, node).len() == 0,
        owed_by(l.entries[i].1.awaiting, node).len() > 0 ==> l.bereft_of(
            node,
        ).entries[i].1.reroute_grace == Some(REROUTE_GRACE_TICKS),
{
    lemma_owed_by_none(l.entries[i].1.awaiting, node);
}

impl LedgerView {
    /// Whether the forward `e` of the index, a number and a publish, leads to a publish that
    /// waits for an answer under that number.
    pub open spec fn leads_home(self, e: (u64, u64)) -> bool {
        lookup(self.entries, e.1) matches Some(p) && bound(p.awaiting, e.0)
    }

    /// Whether every forward of the index leads to a publish that waits for it, and no publish
    /// has a number that was not handed out.
    pub open spec fn coherent(self) -> bool {
        &&& forall|i: int|
            0 <= i < self.forward_index.len() ==> self.leads_home(#[trigger] self.forward_index[i])
        &&& forall|i: int|
            0 <= i < self.entries.len() ==> (#[trigger] self.entries[i]).0 <= self.publish_ids
    }

    /// Whether no answer is awaited under a number that was not handed out.
    pub open spec fn numbered(self) -> bool {
        &&& forall|i: int|
            0 <= i < self.forward_index.len() ==> (#[trigger] self.forward_index[i]).0
                <= self.forward_seq
        &&& forall|i: int|
            0 <= i < self.entries.len() ==> under(
                (#[trigger] self.entries[i]).1.awaiting,
                self.forward_seq,
            )
    }
}

/// What a filter keeps passes it, and was there.
pub proof fn lemma_filter_keeps<T>(s: Seq<T>, keep: spec_fn(T) -> bool, i: int)
    requires
        0 <= i < s.filter(keep).len(),
    ensures
        keep(s.filter(keep)[i]),
        exists|j: int| 0 <= j < s.len() && s[j] == s.filter(keep)[i],
    decreases s.len(),
{
    reveal(Seq::filter);
    if s.len() > 0 {
        let t = s.drop_last();
        if keep(s.last()) && i == t.filter(keep).len() {
            assert(s[s.len() - 1] == s.filter(keep)[i]);
        } else {
            lemma_filter_keeps(t, keep, i);
            let j = choose|j: int| 0 <= j < t.len() && t[j] == t.filter(keep)[i];
            assert(s[j] == s.filter(keep)[i]);
        }
    }
}

proof fn lemma_filter_has<T>(s: Seq<T>, keep: spec_fn(T) -> bool, j: int) -> (i: int)
    requires
        0 <= j < s.len(),
        keep(s[j]),
    ensures
        0 <= i < s.filter(keep).len(),
        s.filter(keep)[i] == s[j],
    decreases s.len(),
{
    reveal(Seq::filter);
    let t = s.drop_last();
    if j == s.len() - 1 {
        t.filter(keep).len() as int
    } else {
        assert(t[j] == s[j]);
        lemma_filter_has(t, keep, j)
    }
}

proof fn lemma_bound_by<V>(s: Seq<(u64, V)>, k: u64, i: int)
    requires
        0 <= i < s.len(),
        s[i].0 == k,
    ensures
        bound(s, k),
{
    lemma_bound_at(s, i);
}

/// Binding a publish to one that waits for the same answers, and more, keeps the index coherent.
pub proof fn lemma_with_coherent(l: LedgerView, id: u64, p: PendingView)
    requires
        l.coherent(),
        lookup(l.entries, id) matches Some(q) && forall|s: u64|
            #[trigger] bound(q.awaiting, s) ==> bound(p.awaiting, s),
    ensures
        l.with(id, p).coherent(),
{
    let m = l.with(id, p);
    crate::assoc::lemma_position(l.entries, id);
    assert forall|i: int| 0 <= i < m.forward_index.len() implies m.leads_home(
        #[trigger] m.forward_index[i],
    ) by {
        assert(l.leads_home(l.forward_index[i]));
        crate::assoc::lemma_lookup_put(l.entries, id, p, l.forward_index[i].1);
    }
    assert forall|i: int| 0 <= i < m.entries.len() implies (#[trigger] m.entries[i]).0
        <= m.publish_ids by {
        assert(l.entries[i].0 <= l.publish_ids);
    }
}

/// A publish that is dropped takes its forwards along.
pub proof fn lemma_dropped_coherent(l: LedgerView, id: u64)
    requires
        l.coherent(),
    ensures
        l.dropped(id).coherent(),
{
    if bound(l.entries, id) {
        let m = l.dropped(id);
        let other = crate::assoc::not_value::<u64, u64>(id);
        assert forall|i: int| 0 <= i < m.forward_index.len() implies m.leads_home(
            #[trigger] m.forward_index[i],
        ) by {
            lemma_filter_keeps(l.forward_index, other, i);
            let j = choose|j: int|
                0 <= j < l.forward_index.len() && l.forward_index[j] == m.forward_index[i];
            assert(l.leads_home(l.forward_index[j]));
            crate::assoc::lemma_lookup_cut(l.entries, id, m.forward_index[i].1);
        }
        assert forall|i: int| 0 <= i < m.entries.len() implies (#[trigger] m.entries[i]).0
            <= m.publish_ids by {
            lemma_filter_keeps(l.entries, not_key::<u64, PendingView>(id), i);
            let j = choose|j: int| 0 <= j < l.entries.len() && l.entries[j] == m.entries[i];
            assert(l.entries[j].0 <= l.publish_ids);
        }
    }
}

proof fn lemma_lookup_insert<V>(s: Seq<(u64, V)>, at: int, k: u64, v: V, q: u64)
    requires
        0 <= at <= s.len(),
        !bound(s, k),
        q != k,
    ensures
        lookup(s.insert(at, (k, v)), q) == lookup(s, q),
{
    let t = s.insert(at, (k, v));
    crate::assoc::lemma_position(s, q);
    let i = position(s, q);
    let goal = if i < at {
        i
    } else {
        i + 1
    };
    assert forall|j: int| 0 <= j < goal implies (#[trigger] t[j]).0 != q by {
        if j < at {
            assert(t[j] == s[j]);
        } else if j > at {
            assert(t[j] == s[j - 1]);
        }
    }
    if i < s.len() {
        assert(t[goal] == s[i]);
    }
    crate::assoc::lemma_position_at(t, q, goal);
}

/// A publish that is over leaves no forward behind.
pub proof fn lemma_completed_coherent(l: LedgerView, id: u64)
    requires
        l.coherent(),
    ensures
        l.completed(id).coherent(),
{
    match lookup(l.entries, id) {
        Some(q) => {
            if q.over() {
                let m = l.completed(id);
                assert forall|i: int| 0 <= i < m.forward_index.len() implies m.leads_home(
                    #[trigger] m.forward_index[i],
                ) by {
                    assert(l.leads_home(l.forward_index[i]));
                    crate::assoc::lemma_lookup_cut(l.entries, id, m.forward_index[i].1);
                    if m.forward_index[i].1 == id {
                        crate::assoc::lemma_position(q.awaiting, m.forward_index[i].0);
                        assert(false);
                    }
                }
                assert forall|i: int| 0 <= i < m.entries.len() implies (#[trigger] m.entries[i]).0
                    <= m.publish_ids by {
                    lemma_filter_keeps(l.entries, not_key::<u64, PendingView>(id), i);
                    let j = choose|j: int| 0 <= j < l.entries.len() && l.entries[j] == m.entries[i];
                    assert(l.entries[j].0 <= l.publish_ids);
                }
            } else if q.ack_due() {
                lemma_with_coherent(l, id, PendingView { done: None, ..q });
            }
        },
        None => {},
    }
}

/// Every number under which an answer is expected leads to the publish that waits for it, so an
/// answer that comes in is credited to nothing else: whatever happens to the ledger, the index of
/// its forwards stays coherent, as long as it has numbers to hand out.
pub proof fn law_forwards_lead_home(
    l: LedgerView,
    id: u64,
    token: u64,
    p: PublicationView,
    unsettled: bool,
    instant: u64,
)
    requires
        l.coherent(),
        l.publish_ids < u64::MAX,
    ensures
        LedgerView::blank().coherent(),
        l.registered(token, p, unsettled, instant).coherent(),
        l.dropped(id).coherent(),
        l.completed(id).coherent(),
{
    lemma_dropped_coherent(l, id);
    lemma_completed_coherent(l, id);
    if l.admission(instant) != PendingAdmission::Refuse {
        let place = l.with_place(instant);
        match l.victim(instant) {
            Some(v) => {
                lemma_dropped_coherent(l, v);
            },
            None => {},
        }
        let fresh = next_number(place.publish_ids);
        let m = l.registered(token, p, unsettled, instant);
        crate::assoc::lemma_position(place.entries, fresh);
        if bound(place.entries, fresh) {
            assert(place.entries[position(place.entries, fresh)].0 <= place.publish_ids);
            assert(false);
        }
        let at = crate::assoc::rank::<u64, PendingView>(place.entries, fresh);
        crate::assoc::lemma_rank_bound::<u64, PendingView>(place.entries, fresh);
        assert forall|i: int| 0 <= i < m.forward_index.len() implies m.leads_home(
            #[trigger] m.forward_index[i],
        ) by {
            let e = place.forward_index[i];
            assert(place.leads_home(e));
            crate::assoc::lemma_position(place.entries, e.1);
            lemma_lookup_insert(place.entries, at, fresh, m.entries[at].1, e.1);
        }
        assert forall|i: int| 0 <= i < m.entries.len() implies (#[trigger] m.entries[i]).0
            <= m.publish_ids by {
            if i < at {
                assert(m.entries[i] == place.entries[i]);
            } else if i > at {
                assert(m.entries[i] == place.entries[i - 1]);
            }
        }
    }
}

proof fn lemma_owed_by_has(s: Seq<(u64, ObligationView)>, node: Seq<char>, i: int)
    requires
        0 <= i < s.len(),
        s[i].1.node == node,
    ensures
        owed_by(s, node).contains(s[i].0),
    decreases s.len(),
{
    let t = s.drop_last();
    let rest = owed_by(t, node);
    if i == s.len() - 1 {
        assert(owed_by(s, node)[rest.len() as int] == s[i].0);
    } else {
        assert(t[i] == s[i]);
        lemma_owed_by_has(t, node, i);
        let j = choose|j: int| 0 <= j < rest.len() && rest[j] == s[i].0;
        assert(owed_by(s, node)[j] == s[i].0);
    }
}

proof fn lemma_lost_with_has(s: Seq<(u64, PendingView)>, node: Seq<char>, i: int, seq: u64)
    requires
        0 <= i < s.len(),
        owed_by(s[i].1.awaiting, node).contains(seq),
    ensures
        lost_with(s, node).contains(seq),
    decreases s.len(),
{
    let t = s.drop_last();
    let rest = lost_with(t, node);
    let last = owed_by(s.last().1.awaiting, node);
    if i == s.len() - 1 {
        let j = choose|j: int| 0 <= j < last.len() && last[j] == seq;
        assert(lost_with(s, node)[rest.len() + j] == seq);
    } else {
        assert(t[i] == s[i]);
        lemma_lost_with_has(t, node, i, seq);
        let j = choose|j: int| 0 <= j < rest.len() && rest[j] == seq;
        assert(lost_with(s, node)[j] == seq);
    }
}

/// What is left of `s` without some of its keys was there, under another key.
pub proof fn lemma_cut_all_keeps<V>(s: Seq<(u64, V)>, ks: Seq<u64>, i: int)
    requires
        0 <= i < cut_all(s, ks).len(),
    ensures
        !ks.contains(cut_all(s, ks)[i].0),
        exists|j: int| 0 <= j < s.len() && s[j] == cut_all(s, ks)[i],
    decreases ks.len(),
{
    if ks.len() > 0 {
        let rest = cut_all(s, ks.drop_last());
        let e = cut_all(s, ks)[i];
        lemma_filter_keeps(rest, not_key::<u64, V>(ks.last()), i);
        let k = choose|k: int| 0 <= k < rest.len() && rest[k] == e;
        lemma_cut_all_keeps(s, ks.drop_last(), k);
        if ks.contains(e.0) {
            let n = choose|n: int| 0 <= n < ks.len() && ks[n] == e.0;
            if n < ks.len() - 1 {
                assert(ks.drop_last()[n] == e.0);
            }
            assert(false);
        }
    } else {
        assert(s[i] == cut_all(s, ks)[i]);
    }
}

/// The same, of forwards and of what comes of them: a publish is forwarded, an answer comes in,
/// whoever it is from, or a node dies.
pub proof fn law_answers_lead_home(
    l: LedgerView,
    id: u64,
    o: ObligationView,
    node: Seq<char>,
    seq: u64,
)
    requires
        l.coherent(),
    ensures
        l.forwarded(id, o).coherent(),
        l.settled(node, seq).coherent(),
        l.stored_on(id, node).coherent(),
        l.bereft_of(node).coherent(),
{
    match lookup(l.entries, id) {
        Some(p) => {
            lemma_with_coherent(
                l,
                id,
                PendingView { stored: true, acked_nodes: adjoin(p.acked_nodes, node), ..p },
            );
            let fresh = number_above(l.forward_seq);
            let q = PendingView { awaiting: put(p.awaiting, fresh, o), ..p };
            assert forall|s: u64| #[trigger] bound(p.awaiting, s) implies bound(q.awaiting, s) by {
                crate::assoc::lemma_lookup_put(p.awaiting, fresh, o, s);
            }
            lemma_with_coherent(l, id, q);
            let m = l.forwarded(id, o);
            crate::assoc::lemma_position(l.forward_index, fresh);
            crate::assoc::lemma_lookup_put(l.entries, id, q, id);
            crate::assoc::lemma_lookup_put(p.awaiting, fresh, o, fresh);
            assert forall|i: int| 0 <= i < m.forward_index.len() implies m.leads_home(
                #[trigger] m.forward_index[i],
            ) by {
                if m.forward_index[i] != (fresh, id) {
                    assert(m.forward_index[i] == l.forward_index[i]);
                    assert(l.with(id, q).leads_home(l.with(id, q).forward_index[i]));
                }
            }
            assert(m.entries == l.with(id, q).entries);
        },
        None => {
            let m = l.forwarded(id, o);
            assert forall|i: int| 0 <= i < m.forward_index.len() implies m.leads_home(
                #[trigger] m.forward_index[i],
            ) by {
                assert(l.leads_home(l.forward_index[i]));
            }
        },
    }
    lemma_settled_coherent(l, node, seq);
    lemma_bereft_coherent(l, node);
}

/// An answer leaves the index coherent.
pub proof fn lemma_settled_coherent(l: LedgerView, node: Seq<char>, seq: u64)
    requires
        l.coherent(),
    ensures
        l.settled(node, seq).coherent(),
{
    let m = l.settled(node, seq);
    assert forall|i: int| 0 <= i < m.forward_index.len() implies m.leads_home(
        #[trigger] m.forward_index[i],
    ) by {
        lemma_filter_keeps(l.forward_index, not_key::<u64, u64>(seq), i);
        let e = m.forward_index[i];
        let j = choose|j: int| 0 <= j < l.forward_index.len() && l.forward_index[j] == e;
        assert(l.leads_home(l.forward_index[j]));
        match l.settles(node, seq) {
            Some((id, _)) => {
                let p = lookup(l.entries, id)->Some_0;
                let q = PendingView { awaiting: cut(p.awaiting, seq), ..p };
                crate::assoc::lemma_lookup_put(l.entries, id, q, e.1);
                crate::assoc::lemma_lookup_cut(p.awaiting, seq, e.0);
            },
            None => {},
        }
    }
    match l.settles(node, seq) {
        Some((id, _)) => {
            crate::assoc::lemma_position(l.entries, id);
            assert forall|i: int| 0 <= i < m.entries.len() implies (#[trigger] m.entries[i]).0
                <= m.publish_ids by {
                assert(l.entries[i].0 <= l.publish_ids);
            }
        },
        None => {},
    }
}

/// The death of a node leaves the index coherent.
pub proof fn lemma_bereft_coherent(l: LedgerView, node: Seq<char>)
    requires
        l.coherent(),
    ensures
        l.bereft_of(node).coherent(),
{
    let m = l.bereft_of(node);
    let lost = lost_with(l.entries, node);
    assert forall|i: int| 0 <= i < m.forward_index.len() implies m.leads_home(
        #[trigger] m.forward_index[i],
    ) by {
        let e = m.forward_index[i];
        lemma_cut_all_keeps(l.forward_index, lost, i);
        let j = choose|j: int| 0 <= j < l.forward_index.len() && l.forward_index[j] == e;
        assert(l.leads_home(l.forward_index[j]));
        crate::assoc::lemma_position(l.entries, e.1);
        let k = position(l.entries, e.1);
        let p = l.entries[k].1;
        assert forall|n: int| 0 <= n < k implies (#[trigger] m.entries[n]).0 != e.1 by {
            assert(l.entries[n].0 != e.1);
        }
        crate::assoc::lemma_position_at(m.entries, e.1, k);
        let q = p.bereft_of(node);
        assert(m.entries[k] == (e.1, q));
        crate::assoc::lemma_position(p.awaiting, e.0);
        let at = position(p.awaiting, e.0);
        if p.awaiting[at].1.node == node {
            lemma_owed_by_has(p.awaiting, node, at);
            lemma_lost_with_has(l.entries, node, k, e.0);
            assert(false);
        }
        if owed_by(p.awaiting, node).len() > 0 {
            let n = lemma_filter_has(p.awaiting, not_owed_by(node), at);
            lemma_bound_by(q.awaiting, e.0, n);
        }
    }
    assert forall|i: int| 0 <= i < m.entries.len() implies (#[trigger] m.entries[i]).0
        <= m.publish_ids by {
        assert(l.entries[i].0 <= l.publish_ids);
    }
}

} // verus!
