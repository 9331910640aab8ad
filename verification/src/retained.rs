//! Retained messages: the last message of a topic, kept for whoever subscribes later.
//!
//! Without a durable keyspace every node keeps what it hears. With one, the owner of a topic
//! commits each change, under a token that grows; a node keeps the message of the highest
//! token it has heard of. Changes wait in a queue until they are committed here or handed to
//! their owner.

use std::collections::VecDeque;
use std::sync::Arc;

use vstd::prelude::*;

use crate::assoc::{bound, cut, lookup, push_item, put, Key, Table};
use crate::cluster::{Cluster, ClusterView};
use crate::effects::{Effect, EffectView};
use crate::ids::{advance, next_number, NodeId};
use crate::lanes::{AppendThen, ThenView};
use crate::message::{app_from_wire, app_to_wire, no_properties, AppProperties, AppView, Message,
    MessageView, Payload, WireAppProps};
use crate::qos::{level, of_level, qos_from_num, qos_num};
use crate::topic::{matches_topic, topic_matches};
use crate::wire::{FrameView, PeerMessage, RetainedEntryView, RetainedWireEntry};

verus! {

/// How many bytes of retained messages one frame carries.
pub const RETAINED_CHUNK_BYTES: usize = 4 * 1024 * 1024;

/// The room that one entry takes in a frame beside what it holds.
pub const ENTRY_OVERHEAD: usize = 48;

/// How many changes wait for their commit.
pub const RETAINED_QUEUE_CAP: usize = 1024;

/// A change of the retained message of a topic that its owner has yet to commit. An empty
/// payload clears the topic.
#[derive(Debug)]
pub struct RetainedMutation {
    pub topic: String,
    pub payload: Payload,
    pub qos: u8,
    pub app: Arc<AppProperties>,
    /// The node that asked for it, and its number there.
    pub reply: Option<(NodeId, u64)>,
    /// The publish that waits for it.
    pub publish: Option<u64>,
}

/// Model of [`RetainedMutation`].
#[verifier::ext_equal]
pub struct MutationView {
    pub topic: Seq<char>,
    pub payload: Seq<u8>,
    pub qos: u8,
    pub app: AppView,
    pub reply: Option<(Seq<char>, u64)>,
    pub publish: Option<u64>,
}

impl DeepView for RetainedMutation {
    type V = MutationView;

    open spec fn deep_view(&self) -> MutationView {
        MutationView {
            topic: self.topic@,
            payload: self.payload.deep_view(),
            qos: self.qos,
            app: self.app.deep_view(),
            reply: self.reply.deep_view(),
            publish: self.publish,
        }
    }
}

impl Clone for RetainedMutation {
    fn clone(&self) -> (r: Self)
        ensures
            r.deep_view() == self.deep_view(),
    {
        let reply = match &self.reply {
            Some((n, s)) => Some((n.clone(), *s)),
            None => None,
        };
        RetainedMutation {
            topic: self.topic.clone(),
            payload: self.payload.clone(),
            qos: self.qos,
            app: self.app.clone(),
            reply,
            publish: self.publish,
        }
    }
}

impl MutationView {
    /// The message that the change leaves behind.
    pub open spec fn message(self) -> MessageView {
        MessageView {
            topic: self.topic,
            payload: self.payload,
            qos: of_level(self.qos),
            retain: true,
            app: self.app,
            expires_at: None,
        }
    }

    /// The frame that hands the change to the owner of its topic.
    pub open spec fn handoff_frame(self, seq: u64) -> FrameView {
        FrameView::RetainedCommit {
            topic: self.topic,
            payload: self.payload,
            qos: self.qos,
            props: self.app,
            seq,
        }
    }

    /// The frame that tells of the change once it was committed under `token`.
    pub open spec fn update_frame(self, token: (u64, u64)) -> FrameView {
        FrameView::RetainedUpdate {
            topic: self.topic,
            payload: self.payload,
            qos: self.qos,
            epoch: token.0,
            offset: token.1,
            props: self.app,
        }
    }
}

impl RetainedMutation {
    /// Whether the change clears its topic.
    pub fn clears(&self) -> (r: bool)
        ensures
            r == (self.deep_view().payload.len() == 0),
    {
        self.payload.is_empty()
    }

    /// See [`MutationView::message`].
    pub fn message(&self) -> (r: Message)
        ensures
            r.deep_view() == self.deep_view().message(),
    {
        Message {
            topic: self.topic.clone(),
            payload: self.payload.clone(),
            qos: qos_from_num(self.qos),
            retain: true,
            app: self.app.clone(),
            expires_at: None,
        }
    }

    /// See [`MutationView::handoff_frame`].
    fn to_handoff(&self, seq: u64) -> (r: PeerMessage)
        ensures
            r.deep_view() == self.deep_view().handoff_frame(seq),
    {
        PeerMessage::RetainedCommit {
            topic: self.topic.clone(),
            payload: self.payload.to_vec(),
            qos: self.qos,
            props: app_to_wire(&self.app),
            seq,
        }
    }

    /// See [`MutationView::update_frame`].
    pub fn to_update(&self, token: (u64, u64)) -> (r: PeerMessage)
        ensures
            r.deep_view() == self.deep_view().update_frame(token),
    {
        PeerMessage::RetainedUpdate {
            topic: self.topic.clone(),
            payload: self.payload.to_vec(),
            qos: self.qos,
            epoch: token.0,
            offset: token.1,
            props: app_to_wire(&self.app),
        }
    }
}

/// A message on its way to the store of retained messages.
#[derive(Debug)]
pub struct RetainedWrite {
    /// The message; an empty payload clears the topic.
    pub message: Message,
    /// Who is owed an answer.
    pub owed: AppendThen,
}

/// Model of [`RetainedWrite`].
#[verifier::ext_equal]
pub struct WriteView {
    pub message: MessageView,
    pub owed: ThenView,
}

impl DeepView for RetainedWrite {
    type V = WriteView;

    open spec fn deep_view(&self) -> WriteView {
        WriteView { message: self.message.deep_view(), owed: self.owed.deep_view() }
    }
}

/// Whether token `a` is above token `b`: of a later epoch, or further in the same one.
pub open spec fn above(a: (u64, u64), b: (u64, u64)) -> bool {
    a.0 > b.0 || (a.0 == b.0 && a.1 > b.1)
}

/// See [`above`].
pub fn token_above(a: (u64, u64), b: (u64, u64)) -> (r: bool)
    ensures
        r == above(a, b),
{
    a.0 > b.0 || (a.0 == b.0 && a.1 > b.1)
}

/// The retained messages of this node, and the changes on their way to a commit.
#[derive(Debug)]
pub struct RetainedState {
    /// The messages, by topic.
    pub cache: Table<String, Message>,
    /// Whether a store is behind the messages. If so it gets every change, and a change counts
    /// here once the store took it.
    pub backed: bool,
    /// Whether changes are committed by the owner of their topic.
    pub durable: bool,
    /// The highest token heard of, by topic.
    pub tokens: Table<String, (u64, u64)>,
    /// The changes that wait, oldest first.
    pub queue: VecDeque<RetainedMutation>,
    /// Whether a commit is under way here.
    pub commit_inflight: bool,
    /// The change that was handed to its owner: to whom, under which number.
    pub handoff: Option<(NodeId, u64, RetainedMutation)>,
    /// The number of the last handoff.
    pub handoff_seq: u64,
    /// The last handoff of each node that was committed here, and its token.
    pub handoff_seen: Table<NodeId, (u64, (u64, u64))>,
    /// The handoff of each node that waits here.
    pub handoff_pending: Table<NodeId, u64>,
}

/// Model of [`RetainedState`].
#[verifier::ext_equal]
pub struct RetainedStateView {
    pub cache: Seq<(Seq<char>, MessageView)>,
    pub backed: bool,
    pub durable: bool,
    pub tokens: Seq<(Seq<char>, (u64, u64))>,
    pub queue: Seq<MutationView>,
    pub commit_inflight: bool,
    pub handoff: Option<(Seq<char>, u64, MutationView)>,
    pub handoff_seq: u64,
    pub handoff_seen: Seq<(Seq<char>, (u64, (u64, u64)))>,
    pub handoff_pending: Seq<(Seq<char>, u64)>,
}

impl DeepView for RetainedState {
    type V = RetainedStateView;

    open spec fn deep_view(&self) -> RetainedStateView {
        RetainedStateView {
            cache: self.cache.deep_view(),
            backed: self.backed,
            durable: self.durable,
            tokens: self.tokens.deep_view(),
            queue: self.queue.deep_view(),
            commit_inflight: self.commit_inflight,
            handoff: self.handoff.deep_view(),
            handoff_seq: self.handoff_seq,
            handoff_seen: self.handoff_seen.deep_view(),
            handoff_pending: self.handoff_pending.deep_view(),
        }
    }
}

/// The messages of `cache` whose topics `filter` admits.
pub open spec fn retained_for(
    cache: Seq<(Seq<char>, MessageView)>,
    filter: Seq<char>,
) -> Seq<MessageView>
    decreases cache.len(),
{
    if cache.len() == 0 {
        Seq::empty()
    } else if matches_topic(filter, cache.last().0) {
        retained_for(cache.drop_last(), filter).push(cache.last().1)
    } else {
        retained_for(cache.drop_last(), filter)
    }
}

/// The entry of a snapshot that tells of a message.
pub open spec fn entry_of(m: MessageView, token: (u64, u64)) -> RetainedEntryView {
    RetainedEntryView {
        topic: m.topic,
        payload: m.payload,
        qos: level(m.qos),
        epoch: token.0,
        offset: token.1,
        props: m.app,
    }
}

/// The entry of a snapshot that tells of a topic that was cleared.
pub open spec fn tombstone(topic: Seq<char>, token: (u64, u64)) -> RetainedEntryView {
    RetainedEntryView {
        topic,
        payload: Seq::empty(),
        qos: 0,
        epoch: token.0,
        offset: token.1,
        props: no_properties(),
    }
}

/// The token that is held for `topic`, or the lowest.
pub open spec fn token_of(tokens: Seq<(Seq<char>, (u64, u64))>, topic: Seq<char>) -> (u64, u64) {
    match lookup(tokens, topic) {
        Some(t) => t,
        None => (0, 0),
    }
}

/// The entries for the messages of `cache`.
pub open spec fn live_entries(
    cache: Seq<(Seq<char>, MessageView)>,
    tokens: Seq<(Seq<char>, (u64, u64))>,
) -> Seq<RetainedEntryView> {
    Seq::new(cache.len(), |i: int| entry_of(cache[i].1, token_of(tokens, cache[i].1.topic)))
}

/// Whether one of `entries` tells of `topic`.
pub open spec fn tells_of(entries: Seq<RetainedEntryView>, topic: Seq<char>) -> bool {
    exists|i: int| 0 <= i < entries.len() && (#[trigger] entries[i]).topic == topic
}

/// The entries for the topics of `tokens` that none of `live` tells of.
pub open spec fn cleared_entries(
    tokens: Seq<(Seq<char>, (u64, u64))>,
    live: Seq<RetainedEntryView>,
) -> Seq<RetainedEntryView>
    decreases tokens.len(),
{
    if tokens.len() == 0 {
        Seq::empty()
    } else {
        let rest = cleared_entries(tokens.drop_last(), live);
        if tells_of(live, tokens.last().0) {
            rest
        } else {
            rest.push(tombstone(tokens.last().0, tokens.last().1))
        }
    }
}

/// Whether the message that a node holds differs from the one that `e` tells of.
pub open spec fn diverges(m: MessageView, e: RetainedEntryView) -> bool {
    m.payload != e.payload || level(m.qos) != e.qos || m.app != e.props
}

impl RetainedEntryView {
    /// The message that the entry tells of.
    pub open spec fn message(self) -> MessageView {
        MessageView {
            topic: self.topic,
            payload: self.payload,
            qos: of_level(self.qos),
            retain: true,
            app: self.props,
            expires_at: None,
        }
    }
}

impl RetainedStateView {
    /// A node that keeps no message.
    pub open spec fn blank() -> RetainedStateView {
        RetainedStateView {
            cache: Seq::empty(),
            backed: false,
            durable: false,
            tokens: Seq::empty(),
            queue: Seq::empty(),
            commit_inflight: false,
            handoff: None,
            handoff_seq: 0,
            handoff_seen: Seq::empty(),
            handoff_pending: Seq::empty(),
        }
    }

    /// With `m` kept for its topic, unless a store has to take it first.
    pub open spec fn keeping(self, m: MessageView) -> RetainedStateView {
        if self.backed {
            self
        } else {
            self.stored(m)
        }
    }

    /// What is asked of the store, where there is one, to keep `m`.
    pub open spec fn writes(self, m: MessageView, owed: ThenView) -> Seq<EffectView> {
        if self.backed {
            seq![EffectView::StoreRetained { write: WriteView { message: m, owed } }]
        } else {
            Seq::empty()
        }
    }

    /// With `m` kept for its topic; an empty payload clears the topic.
    pub open spec fn stored(self, m: MessageView) -> RetainedStateView {
        if m.payload.len() == 0 {
            RetainedStateView { cache: cut(self.cache, m.topic), ..self }
        } else {
            RetainedStateView { cache: put(self.cache, m.topic, m), ..self }
        }
    }

    /// Whether a message for `topic` is one too many: over the cap or under brownout no topic
    /// is added, while the message of a topic may be replaced.
    pub open spec fn over_quota(self, topic: Seq<char>, brownout: bool, cap: Option<usize>) -> bool {
        (brownout || (cap matches Some(n) && self.cache.len() >= n)) && !bound(self.cache, topic)
    }

    /// With the change `m`, committed under `token`, unless a higher token was heard of.
    pub open spec fn updated(self, m: MutationView, token: (u64, u64)) -> RetainedStateView {
        match lookup(self.tokens, m.topic) {
            Some(held) => if above(token, held) {
                RetainedStateView {
                    tokens: put(self.tokens, m.topic, token),
                    ..self
                }.keeping(m.message())
            } else {
                self
            },
            None => RetainedStateView {
                tokens: put(self.tokens, m.topic, token),
                ..self
            }.keeping(m.message()),
        }
    }

    /// What that asks of the store.
    pub open spec fn update_effects(self, m: MutationView, token: (u64, u64)) -> Seq<EffectView> {
        match lookup(self.tokens, m.topic) {
            Some(held) => if above(token, held) {
                self.writes(m.message(), ThenView::Ungated)
            } else {
                Seq::empty()
            },
            None => self.writes(m.message(), ThenView::Ungated),
        }
    }

    /// Without the note that handoff `reply` waits here.
    pub open spec fn not_waiting(self, reply: Option<(Seq<char>, u64)>) -> RetainedStateView {
        match reply {
            Some((node, seq)) => if lookup(self.handoff_pending, node) == Some(seq) {
                RetainedStateView { handoff_pending: cut(self.handoff_pending, node), ..self }
            } else {
                self
            },
            None => self,
        }
    }

    /// With `m` waiting last; at the cap the oldest change is given up.
    pub open spec fn enqueued(self, m: MutationView) -> RetainedStateView {
        if self.queue.len() >= RETAINED_QUEUE_CAP {
            let s = self.not_waiting(self.queue[0].reply);
            RetainedStateView { queue: s.queue.skip(1).push(m), ..s }
        } else {
            RetainedStateView { queue: self.queue.push(m), ..self }
        }
    }

    /// The change that is given up where another one comes to wait.
    pub open spec fn given_up(self) -> Option<MutationView> {
        if self.queue.len() >= RETAINED_QUEUE_CAP {
            Some(self.queue[0])
        } else {
            None
        }
    }

    /// With `m` waiting first.
    pub open spec fn requeued(self, m: MutationView) -> RetainedStateView {
        RetainedStateView { queue: seq![m] + self.queue, ..self }
    }

    /// The changes after the queue was worked off as far as it goes: until a commit or a
    /// handoff is under way, the queue is empty, or an owner is out of reach.
    pub open spec fn kicked(self, me: Seq<char>, c: ClusterView) -> RetainedStateView
        decreases self.queue.len(),
    {
        if self.handoff is Some || self.commit_inflight || self.queue.len() == 0 {
            self
        } else {
            let m = self.queue[0];
            let rest = RetainedStateView { queue: self.queue.skip(1), ..self };
            match c.owner(m.topic, me) {
                Some(owner) => if owner == me {
                    RetainedStateView { commit_inflight: true, ..rest }
                } else if m.reply is Some {
                    rest.not_waiting(m.reply).kicked(me, c)
                } else if c.linked(owner) {
                    RetainedStateView {
                        handoff: Some((owner, next_number(rest.handoff_seq), m)),
                        handoff_seq: next_number(rest.handoff_seq),
                        ..rest
                    }
                } else {
                    self
                },
                None => self,
            }
        }
    }

    /// What working the queue off asks for.
    pub open spec fn kick_effects(self, me: Seq<char>, c: ClusterView) -> Seq<EffectView>
        decreases self.queue.len(),
    {
        if self.handoff is Some || self.commit_inflight || self.queue.len() == 0 {
            Seq::empty()
        } else {
            let m = self.queue[0];
            let rest = RetainedStateView { queue: self.queue.skip(1), ..self };
            match c.owner(m.topic, me) {
                Some(owner) => if owner == me {
                    seq![EffectView::CommitRetained { mutation: m }]
                } else if m.reply is Some {
                    c.framed(
                        m.reply->Some_0.0,
                        FrameView::RetainedCommitAck { seq: m.reply->Some_0.1, token: None },
                    ) + rest.not_waiting(m.reply).kick_effects(me, c)
                } else if c.linked(owner) {
                    c.framed(owner, m.handoff_frame(next_number(rest.handoff_seq)))
                } else {
                    Seq::empty()
                },
                None => Seq::empty(),
            }
        }
    }

    /// After the link to `node` was lost: a change that was handed to it waits again.
    pub open spec fn without_handoffs(self, node: Seq<char>) -> RetainedStateView {
        let s = match self.handoff {
            Some((owner, _, m)) => if owner == node {
                RetainedStateView { handoff: None, queue: seq![m] + self.queue, ..self }
            } else {
                self
            },
            None => self,
        };
        RetainedStateView {
            handoff_seen: cut(s.handoff_seen, node),
            handoff_pending: cut(s.handoff_pending, node),
            ..s
        }
    }

    /// After a sweep: a change whose owner is not linked any more waits again.
    pub open spec fn retried(self, c: ClusterView) -> RetainedStateView {
        match self.handoff {
            Some((owner, seq, m)) => if c.linked(owner) {
                self
            } else {
                RetainedStateView { handoff: None, queue: seq![m] + self.queue, ..self }
            },
            None => self,
        }
    }

    /// A handoff that is unanswered is sent again.
    pub open spec fn retry_effects(self, c: ClusterView) -> Seq<EffectView> {
        match self.handoff {
            Some((owner, seq, m)) => c.framed(owner, m.handoff_frame(seq)),
            None => Seq::empty(),
        }
    }

    /// The entries of a snapshot of this node.
    pub open spec fn entries(self) -> Seq<RetainedEntryView> {
        let live = live_entries(self.cache, self.tokens);
        live + cleared_entries(self.tokens, live)
    }

    /// Whether this node takes over what `e` tells of. `have` are the messages it held when
    /// the snapshot came: without tokens only gaps are filled; with tokens the higher wins.
    pub open spec fn takes(self, have: Seq<(Seq<char>, MessageView)>, e: RetainedEntryView) -> bool {
        if self.durable {
            match lookup(self.tokens, e.topic) {
                Some(held) => above((e.epoch, e.offset), held),
                None => above((e.epoch, e.offset), (0, 0)) || !bound(have, e.topic),
            }
        } else {
            !bound(have, e.topic) && e.payload.len() > 0
        }
    }

    /// With the entry `e` of a snapshot taken over, where it is.
    pub open spec fn with_entry(
        self,
        have: Seq<(Seq<char>, MessageView)>,
        e: RetainedEntryView,
    ) -> RetainedStateView {
        if !self.takes(have, e) {
            self
        } else if self.durable {
            RetainedStateView {
                tokens: put(self.tokens, e.topic, (e.epoch, e.offset)),
                ..self
            }.keeping(e.message())
        } else {
            self.keeping(e.message())
        }
    }

    /// With a snapshot taken over.
    pub open spec fn with_snapshot(
        self,
        have: Seq<(Seq<char>, MessageView)>,
        entries: Seq<RetainedEntryView>,
    ) -> RetainedStateView
        decreases entries.len(),
    {
        if entries.len() == 0 {
            self
        } else {
            self.with_snapshot(have, entries.drop_last()).with_entry(have, entries.last())
        }
    }

    /// What that asks of the store.
    pub open spec fn snapshot_effects(
        self,
        have: Seq<(Seq<char>, MessageView)>,
        entries: Seq<RetainedEntryView>,
    ) -> Seq<EffectView>
        decreases entries.len(),
    {
        if entries.len() == 0 {
            Seq::empty()
        } else {
            let rest = self.snapshot_effects(have, entries.drop_last());
            let s = self.with_snapshot(have, entries.drop_last());
            if s.takes(have, entries.last()) {
                rest + s.writes(entries.last().message(), ThenView::Ungated)
            } else {
                rest
            }
        }
    }
}

/// How many of `entries` differ from what `have` holds for their topics.
pub open spec fn divergent(
    have: Seq<(Seq<char>, MessageView)>,
    entries: Seq<RetainedEntryView>,
) -> nat
    decreases entries.len(),
{
    if entries.len() == 0 {
        0
    } else {
        divergent(have, entries.drop_last()) + (if lookup(have, entries.last().topic) matches Some(m)
            && diverges(m, entries.last()) {
            1nat
        } else {
            0nat
        })
    }
}

pub fn same_bytes(a: &Vec<u8>, b: &Vec<u8>) -> (r: bool)
    ensures
        r == (a@ == b@),
{
    if a.len() != b.len() {
        return false;
    }
    let mut i: usize = 0;
    while i < a.len()
        invariant
            i <= a@.len(),
            a@.len() == b@.len(),
            forall|j: int| 0 <= j < i ==> #[trigger] a@[j] == b@[j],
        decreases a@.len() - i,
    {
        if a[i] != b[i] {
            return false;
        }
        i += 1;
    }
    assert(a@ =~= b@);
    true
}

fn same_text(a: &Option<String>, b: &Option<String>) -> (r: bool)
    ensures
        r == (a.deep_view() == b.deep_view()),
{
    match (a, b) {
        (Some(x), Some(y)) => *x == *y,
        (None, None) => true,
        _ => false,
    }
}

fn same_props(a: &AppProperties, b: &WireAppProps) -> (r: bool)
    ensures
        r == (a.deep_view() == b.deep_view()),
{
    if a.payload_format != b.payload_format || !same_text(&a.content_type, &b.content_type)
        || !same_text(&a.response_topic, &b.response_topic) {
        return false;
    }
    let corr = match (&a.correlation_data, &b.correlation_data) {
        (Some(x), Some(y)) => {
            assert(y.deep_view() =~= y@);
            let v = x.to_vec();
            same_bytes(&v, y)
        },
        (None, None) => true,
        _ => false,
    };
    if !corr || a.user_properties.len() != b.user_properties.len() {
        assert(a.user_properties@.len() != b.user_properties@.len()
            ==> a.user_properties.deep_view().len() != b.user_properties.deep_view().len());
        return false;
    }
    let ghost x = a.user_properties.deep_view();
    let ghost y = b.user_properties.deep_view();
    let mut i: usize = 0;
    while i < a.user_properties.len()
        invariant
            i <= a.user_properties@.len(),
            a.user_properties@.len() == b.user_properties@.len(),
            x == a.user_properties.deep_view(),
            y == b.user_properties.deep_view(),
            forall|j: int| 0 <= j < i ==> #[trigger] x[j] == y[j],
        decreases a.user_properties@.len() - i,
    {
        if !a.user_properties[i].same(&b.user_properties[i]) {
            assert(x[i as int] != y[i as int]);
            return false;
        }
        assert(x[i as int] == y[i as int]);
        i += 1;
    }
    assert(x =~= y);
    true
}

impl RetainedState {
    /// See [`RetainedStateView::blank`].
    pub fn new() -> (r: Self)
        ensures
            r.deep_view() == RetainedStateView::blank(),
    {
        let r = RetainedState {
            cache: Table::new(),
            backed: false,
            durable: false,
            tokens: Table::new(),
            queue: VecDeque::new(),
            commit_inflight: false,
            handoff: None,
            handoff_seq: 0,
            handoff_seen: Table::new(),
            handoff_pending: Table::new(),
        };
        assert(r.queue.deep_view() =~= Seq::empty());
        r
    }

    /// Keeps `m` for its topic, or asks the store to take it first, for `owed`. See
    /// [`RetainedStateView::keeping`] and [`RetainedStateView::writes`].
    pub fn set(&mut self, m: Message, owed: AppendThen, out: &mut Vec<Effect>)
        ensures
            final(self).deep_view() == old(self).deep_view().keeping(m.deep_view()),
            final(out).deep_view() == old(out).deep_view() + old(self).deep_view().writes(
                m.deep_view(),
                owed.deep_view(),
            ),
    {
        let ghost asked = self.deep_view().writes(m.deep_view(), owed.deep_view());
        if self.backed {
            push_item(out, Effect::StoreRetained { write: RetainedWrite { message: m, owed } });
        } else {
            self.store_took(m);
        }
        assert(out.deep_view() =~= old(out).deep_view() + asked);
    }

    /// Keeps `m` for its topic; an empty payload clears the topic.
    pub fn store_took(&mut self, m: Message)
        ensures
            final(self).deep_view() == old(self).deep_view().stored(m.deep_view()),
    {
        let topic = m.topic.clone();
        if m.payload.is_empty() {
            let _gone = self.cache.remove(&topic);
        } else {
            self.cache.insert(topic, m);
        }
    }

    /// See [`retained_for`].
    pub fn matching(&self, filter: &str) -> (r: Vec<Message>)
        ensures
            r.deep_view() == retained_for(self.deep_view().cache, filter@),
    {
        let ghost s = self.cache.deep_view();
        let mut r: Vec<Message> = Vec::new();
        let mut i: usize = 0;
        assert(r.deep_view() =~= retained_for(s.take(0), filter@));
        while i < self.cache.len()
            invariant
                i <= s.len(),
                s == self.cache.deep_view(),
                r.deep_view() == retained_for(s.take(i as int), filter@),
            decreases s.len() - i,
        {
            proof {
                assert(s.take(i as int + 1).drop_last() =~= s.take(i as int));
                assert(s.take(i as int + 1).last() == s[i as int]);
            }
            if topic_matches(filter, self.cache.key_at(i).as_str()) {
                push_item(&mut r, self.cache.value_at(i).clone());
            }
            i += 1;
        }
        assert(s.take(i as int) =~= s);
        r
    }

    /// See [`RetainedStateView::over_quota`].
    pub fn retained_quota_exceeded(&self, topic: &String, brownout: bool, cap: Option<usize>) -> (r:
        bool)
        ensures
            r == self.deep_view().over_quota(topic@, brownout, cap),
    {
        let over = brownout || match cap {
            Some(n) => self.cache.len() >= n,
            None => false,
        };
        over && !self.cache.contains_key(topic)
    }

    /// See [`RetainedStateView::updated`].
    pub fn apply_retained_update(
        &mut self,
        m: &RetainedMutation,
        token: (u64, u64),
        out: &mut Vec<Effect>,
    )
        ensures
            final(self).deep_view() == old(self).deep_view().updated(m.deep_view(), token),
            final(out).deep_view() == old(out).deep_view() + old(self).deep_view().update_effects(
                m.deep_view(),
                token,
            ),
    {
        assert(out.deep_view() + Seq::empty() =~= out.deep_view());
        let stale = match self.tokens.get(&m.topic) {
            Some(held) => !token_above(token, *held),
            None => false,
        };
        if stale {
            return;
        }
        self.tokens.insert(m.topic.clone(), token);
        self.set(m.message(), AppendThen::Ungated, out);
    }

    /// See [`RetainedStateView::not_waiting`].
    pub fn forget_waiting(&mut self, reply: &Option<(NodeId, u64)>)
        ensures
            final(self).deep_view() == old(self).deep_view().not_waiting(reply.deep_view()),
    {
        if let Some((node, seq)) = reply {
            let held = match self.handoff_pending.get(node) {
                Some(s) => *s == *seq,
                None => false,
            };
            if held {
                let _gone = self.handoff_pending.remove(node);
            }
        }
    }

    /// Lets `m` wait for its commit. Returns the change that was given up for it.
    pub fn enqueue_retained_mutation(&mut self, m: RetainedMutation) -> (r: Option<RetainedMutation>)
        ensures
            final(self).deep_view() == old(self).deep_view().enqueued(m.deep_view()),
            r.deep_view() == old(self).deep_view().given_up(),
    {
        let mut given_up: Option<RetainedMutation> = None;
        if self.queue.len() >= RETAINED_QUEUE_CAP {
            let ghost q = self.queue.deep_view();
            if let Some(oldest) = self.queue.pop_front() {
                assert(self.queue.deep_view() =~= q.skip(1));
                self.forget_waiting(&oldest.reply);
                given_up = Some(oldest);
            }
        }
        let ghost q = self.queue.deep_view();
        self.queue.push_back(m);
        assert(self.queue.deep_view() =~= q.push(m.deep_view()));
        given_up
    }

    /// See [`RetainedStateView::requeued`].
    pub fn requeue(&mut self, m: RetainedMutation)
        ensures
            final(self).deep_view() == old(self).deep_view().requeued(m.deep_view()),
    {
        let ghost q = self.queue.deep_view();
        self.queue.push_front(m);
        assert(self.queue.deep_view() =~= seq![m.deep_view()] + q);
    }

    /// Works the queue off as far as it goes.
    pub fn kick_retained_queue(&mut self, me: &NodeId, cluster: &Cluster, out: &mut Vec<Effect>)
        ensures
            final(self).deep_view() == old(self).deep_view().kicked(
                me.deep_view(),
                cluster.deep_view(),
            ),
            final(out).deep_view() == old(out).deep_view() + old(self).deep_view().kick_effects(
                me.deep_view(),
                cluster.deep_view(),
            ),
    {
        let ghost mv = me.deep_view();
        let ghost c = cluster.deep_view();
        let ghost goal = self.deep_view().kicked(mv, c);
        let ghost told = old(out).deep_view() + self.deep_view().kick_effects(mv, c);
        if self.handoff.is_some() {
            assert(out.deep_view() =~= told);
            return;
        }
        while !self.commit_inflight
            invariant
                mv == me.deep_view(),
                c == cluster.deep_view(),
                self.handoff is None,
                goal == old(self).deep_view().kicked(mv, c),
                told == old(out).deep_view() + old(self).deep_view().kick_effects(mv, c),
                self.deep_view().kicked(mv, c) == goal,
                out.deep_view() + self.deep_view().kick_effects(mv, c) == told,
            decreases self.queue@.len(),
        {
            let ghost s = self.deep_view();
            let ghost q = self.queue.deep_view();
            let ghost o = out.deep_view();
            let m = match self.queue.pop_front() {
                Some(m) => m,
                None => {
                    assert(self.queue.deep_view() =~= q);
                    assert(out.deep_view() =~= told);
                    return;
                },
            };
            assert(self.queue.deep_view() =~= q.skip(1));
            assert(m.deep_view() == q[0]);
            let owner = match cluster.owner(&m.topic, me) {
                Some(owner) => owner,
                None => {
                    self.queue.push_front(m);
                    assert(self.queue.deep_view() =~= q);
                    assert(out.deep_view() =~= told);
                    return;
                },
            };
            if owner.same(me) {
                self.commit_inflight = true;
                push_item(out, Effect::CommitRetained { mutation: m });
                assert(out.deep_view() =~= told);
                return;
            }
            if m.reply.is_some() {
                self.forget_waiting(&m.reply);
                if let Some((node, seq)) = &m.reply {
                    cluster.send_frame(
                        node,
                        PeerMessage::RetainedCommitAck { seq: *seq, token: None },
                        out,
                    );
                }
                assert(out.deep_view() + self.deep_view().kick_effects(mv, c) =~= o
                    + s.kick_effects(mv, c));
                continue;
            }
            if cluster.peers.contains_key(&owner) {
                let seq: u64 = advance(&mut self.handoff_seq);
                cluster.send_frame(&owner, m.to_handoff(seq), out);
                self.handoff = Some((owner, seq, m));
                assert(out.deep_view() =~= told);
                return;
            }
            self.queue.push_front(m);
            assert(self.queue.deep_view() =~= q);
            assert(out.deep_view() =~= told);
            return;
        }
        assert(out.deep_view() =~= told);
    }

    /// See [`RetainedStateView::without_handoffs`].
    pub fn drop_retained_handoff_state(&mut self, node: &NodeId)
        ensures
            final(self).deep_view() == old(self).deep_view().without_handoffs(node.deep_view()),
    {
        let theirs = match &self.handoff {
            Some((owner, _, _)) => owner.same(node),
            None => false,
        };
        if theirs {
            if let Some((_, _, m)) = self.handoff.take() {
                let ghost q = self.queue.deep_view();
                self.queue.push_front(m);
                assert(self.queue.deep_view() =~= seq![m.deep_view()] + q);
            }
        }
        let _seen = self.handoff_seen.remove(node);
        let _pending = self.handoff_pending.remove(node);
    }

    /// Sends a handoff that is unanswered again, or takes it back when its owner is gone.
    pub fn retry_retained_handoff(&mut self, cluster: &Cluster, out: &mut Vec<Effect>)
        ensures
            final(self).deep_view() == old(self).deep_view().retried(cluster.deep_view()),
            final(out).deep_view() == old(out).deep_view() + old(self).deep_view().retry_effects(
                cluster.deep_view(),
            ),
    {
        match self.handoff.take() {
            Some((owner, seq, m)) => {
                if cluster.peers.contains_key(&owner) {
                    cluster.send_frame(&owner, m.to_handoff(seq), out);
                    self.handoff = Some((owner, seq, m));
                } else {
                    let ghost q = self.queue.deep_view();
                    self.queue.push_front(m);
                    assert(self.queue.deep_view() =~= seq![m.deep_view()] + q);
                }
            },
            None => {},
        }
        assert(out.deep_view() =~= old(out).deep_view() + old(self).deep_view().retry_effects(
            cluster.deep_view(),
        ));
    }

    /// See [`RetainedStateView::entries`].
    pub fn snapshot_entries(&self) -> (r: Vec<RetainedWireEntry>)
        ensures
            r.deep_view() == self.deep_view().entries(),
    {
        let ghost cache = self.cache.deep_view();
        let ghost tokens = self.tokens.deep_view();
        let ghost live = live_entries(cache, tokens);
        let mut r: Vec<RetainedWireEntry> = Vec::new();
        let mut i: usize = 0;
        assert(r.deep_view() =~= live.take(0));
        while i < self.cache.len()
            invariant
                i <= cache.len(),
                cache == self.cache.deep_view(),
                tokens == self.tokens.deep_view(),
                live == live_entries(cache, tokens),
                r.deep_view() == live.take(i as int),
            decreases cache.len() - i,
        {
            let m = self.cache.value_at(i);
            let token: (u64, u64) = match self.tokens.get(&m.topic) {
                Some(t) => *t,
                None => (0, 0),
            };
            push_item(
                &mut r,
                RetainedWireEntry {
                    topic: m.topic.clone(),
                    payload: m.payload.to_vec(),
                    qos: qos_num(m.qos),
                    epoch: token.0,
                    offset: token.1,
                    props: app_to_wire(&m.app),
                },
            );
            i += 1;
            assert(r.deep_view() =~= live.take(i as int));
        }
        assert(live.take(i as int) =~= live);
        let n: usize = r.len();
        let mut j: usize = 0;
        assert(r.deep_view() =~= live + cleared_entries(tokens.take(0), live));
        while j < self.tokens.len()
            invariant
                j <= tokens.len(),
                tokens == self.tokens.deep_view(),
                n == live.len(),
                r@.len() >= n,
                r.deep_view() == live + cleared_entries(tokens.take(j as int), live),
            decreases tokens.len() - j,
        {
            proof {
                assert(tokens.take(j as int + 1).drop_last() =~= tokens.take(j as int));
                assert(tokens.take(j as int + 1).last() == tokens[j as int]);
            }
            let topic = self.tokens.key_at(j);
            let mut held = false;
            let mut k: usize = 0;
            while k < n && !held
                invariant
                    k <= n,
                    n == live.len(),
                    r@.len() >= n,
                    r.deep_view() == live + cleared_entries(tokens.take(j as int), live),
                    !held ==> forall|x: int| 0 <= x < k ==> (#[trigger] live[x]).topic != topic@,
                    held ==> tells_of(live, topic@),
                decreases n - k + (if held {
                    0int
                } else {
                    1int
                }),
            {
                assert(r.deep_view()[k as int] == live[k as int]);
                if r[k].topic == *topic {
                    assert(live[k as int].topic == topic@);
                    held = true;
                } else {
                    k += 1;
                }
            }
            if !held {
                let (epoch, offset) = *self.tokens.value_at(j);
                let entry = RetainedWireEntry {
                    topic: topic.clone(),
                    payload: Vec::new(),
                    qos: 0,
                    epoch,
                    offset,
                    props: app_to_wire(&AppProperties::none()),
                };
                assert(entry.deep_view() =~= tombstone(topic@, (epoch, offset)));
                push_item(&mut r, entry);
            }
            j += 1;
            assert(r.deep_view() =~= live + cleared_entries(tokens.take(j as int), live));
        }
        assert(tokens.take(j as int) =~= tokens);
        r
    }

    /// Takes a snapshot of another node over, and returns how many of its messages differed
    /// from those held here.
    pub fn apply_retained_snapshot(
        &mut self,
        entries: Vec<RetainedWireEntry>,
        out: &mut Vec<Effect>,
    ) -> (r: u64)
        ensures
            final(self).deep_view() == old(self).deep_view().with_snapshot(
                old(self).deep_view().cache,
                entries.deep_view(),
            ),
            final(out).deep_view() == old(out).deep_view()
                + old(self).deep_view().snapshot_effects(
                old(self).deep_view().cache,
                entries.deep_view(),
            ),
            r == divergent(old(self).deep_view().cache, entries.deep_view()),
    {
        let have = copy_messages(&self.cache);
        let ghost h = self.cache.deep_view();
        let ghost es = entries.deep_view();
        let mut diverged: u64 = 0;
        let ghost mut i: int = 0;
        assert(es.take(0) =~= Seq::empty());
        assert(es.len() == entries.len());
        assert(out.deep_view() + Seq::empty() =~= out.deep_view());
        for entry in it: entries
            invariant
                it.seq() == entries@,
                es == entries.deep_view(),
                have.deep_view() == h,
                h == old(self).deep_view().cache,
                i == it.index(),
                self.deep_view() == old(self).deep_view().with_snapshot(h, es.take(i)),
                out.deep_view() == old(out).deep_view() + old(self).deep_view().snapshot_effects(
                    h,
                    es.take(i),
                ),
                es.len() <= usize::MAX,
                diverged == divergent(h, es.take(i)),
                diverged <= i,
        {
            proof {
                assert(es.take(i + 1).drop_last() =~= es.take(i));
                assert(es.take(i + 1).last() == es[i]);
                assert(es[i] == entry.deep_view());
            }
            let held = match have.get(&entry.topic) {
                Some(m) => {
                    let bytes = m.payload.to_vec();
                    if !same_bytes(&bytes, &entry.payload) || qos_num(m.qos) != entry.qos
                        || !same_props(&m.app, &entry.props) {
                        diverged = diverged + 1;
                    }
                    true
                },
                None => false,
            };
            let token: (u64, u64) = (entry.epoch, entry.offset);
            let takes = if self.durable {
                match self.tokens.get(&entry.topic) {
                    Some(old_token) => token_above(token, *old_token),
                    None => token_above(token, (0, 0)) || !held,
                }
            } else {
                !held && entry.payload.len() > 0
            };
            if takes {
                let RetainedWireEntry { topic, payload, qos, epoch, offset, props } = entry;
                if self.durable {
                    self.tokens.insert(topic.clone(), token);
                }
                let message = Message {
                    topic,
                    payload: Payload::from_vec(payload),
                    qos: qos_from_num(qos),
                    retain: true,
                    app: Arc::new(app_from_wire(props)),
                    expires_at: None,
                };
                self.set(message, AppendThen::Ungated, out);
            }
            proof {
                i = i + 1;
                assert(out.deep_view() =~= old(out).deep_view()
                    + old(self).deep_view().snapshot_effects(h, es.take(i)));
            }
        }
        assert(es.take(i) =~= es);
        diverged
    }
}

fn copy_messages(t: &Table<String, Message>) -> (r: Table<String, Message>)
    ensures
        r.deep_view() == t.deep_view(),
{
    let mut entries: Vec<(String, Message)> = Vec::new();
    let ghost s = t.deep_view();
    let mut i: usize = 0;
    assert(entries.deep_view() =~= s.take(0));
    while i < t.len()
        invariant
            i <= s.len(),
            s == t.deep_view(),
            entries.deep_view() == s.take(i as int),
        decreases s.len() - i,
    {
        push_item(&mut entries, (t.key_at(i).clone(), t.value_at(i).clone()));
        i += 1;
        assert(entries.deep_view() =~= s.take(i as int));
    }
    assert(s.take(i as int) =~= s);
    Table { entries }
}

/// The message that is retained for `topic`.
pub open spec fn kept_for(s: RetainedStateView, topic: Seq<char>) -> Option<MessageView> {
    lookup(s.cache, topic)
}

impl RetainedStateView {
    /// With every message kept that `es` asks the store to take, in order.
    pub open spec fn stored_all(self, es: Seq<EffectView>) -> RetainedStateView
        decreases es.len(),
    {
        if es.len() == 0 {
            self
        } else {
            let s = self.stored_all(es.drop_last());
            match es.last() {
                EffectView::StoreRetained { write } => s.stored(write.message),
                _ => s,
            }
        }
    }

    /// With the change `m`, committed under `token`, and taken by the store where there is one.
    pub open spec fn settled(self, m: MutationView, token: (u64, u64)) -> RetainedStateView {
        self.updated(m, token).stored_all(self.update_effects(m, token))
    }
}

proof fn lemma_stored(s: RetainedStateView, m: MessageView, topic: Seq<char>)
    ensures
        kept_for(s.stored(m), topic) == (if topic == m.topic {
            if m.payload.len() == 0 {
                None
            } else {
                Some(m)
            }
        } else {
            kept_for(s, topic)
        }),
        s.stored(m).tokens == s.tokens,
        s.stored(m).backed == s.backed,
        s.stored(m).durable == s.durable,
{
    crate::assoc::lemma_lookup_cut(s.cache, m.topic, topic);
    crate::assoc::lemma_lookup_put(s.cache, m.topic, m, topic);
}

proof fn lemma_settled(s: RetainedStateView, m: MutationView, t: (u64, u64), topic: Seq<char>)
    ensures
        ({
            let fresh = match lookup(s.tokens, m.topic) {
                Some(held) => above(t, held),
                None => true,
            };
            let r = s.settled(m, t);
            &&& r.backed == s.backed
            &&& r.durable == s.durable
            &&& kept_for(r, topic) == (if topic == m.topic && fresh {
                if m.payload.len() == 0 {
                    None
                } else {
                    Some(m.message())
                }
            } else {
                kept_for(s, topic)
            })
            &&& lookup(r.tokens, topic) == (if topic == m.topic && fresh {
                Some(t)
            } else {
                lookup(s.tokens, topic)
            })
        }),
{
    let s1 = RetainedStateView { tokens: put(s.tokens, m.topic, t), ..s };
    crate::assoc::lemma_lookup_put(s.tokens, m.topic, t, topic);
    lemma_stored(s1, m.message(), topic);
    reveal_with_fuel(RetainedStateView::stored_all, 2);
    let asked = s.writes(m.message(), ThenView::Ungated);
    if s.backed {
        assert(asked.drop_last() =~= Seq::empty());
    }
}

/// What a node keeps of a committed change is the same whether or not a store is behind its
/// messages, once the store took what it was asked to take.
pub proof fn law_store_changes_nothing_kept(s: RetainedStateView, m: MutationView, t: (u64, u64))
    ensures
        s.settled(m, t) == (RetainedStateView {
            backed: s.backed,
            ..RetainedStateView { backed: false, ..s }.settled(m, t)
        }),
{
    reveal_with_fuel(RetainedStateView::stored_all, 2);
    let asked = s.writes(m.message(), ThenView::Ungated);
    if s.backed {
        assert(asked.drop_last() =~= Seq::empty());
    }
}

/// The token of a topic never falls, and a change under a token that is not above the one held
/// changes nothing and asks nothing of the store; so a change that comes twice counts once.
pub proof fn law_tokens_never_fall(
    s: RetainedStateView,
    m: MutationView,
    t: (u64, u64),
    topic: Seq<char>,
)
    ensures
        match lookup(s.tokens, topic) {
            Some(held) => match lookup(s.updated(m, t).tokens, topic) {
                Some(now) => now == held || above(now, held),
                None => false,
            },
            None => true,
        },
        lookup(s.tokens, m.topic) matches Some(held) ==> !above(t, held) ==> s.updated(m, t) == s
            && s.update_effects(m, t).len() == 0,
        s.updated(m, t).updated(m, t) == s.updated(m, t),
        s.updated(m, t).update_effects(m, t).len() == 0,
{
    let s1 = RetainedStateView { tokens: put(s.tokens, m.topic, t), ..s };
    crate::assoc::lemma_lookup_put(s.tokens, m.topic, t, topic);
    crate::assoc::lemma_lookup_put(s.tokens, m.topic, t, m.topic);
    lemma_stored(s1, m.message(), topic);
}

/// The order in which two committed changes are heard of makes no difference to what is kept.
pub proof fn law_updates_commute(
    s: RetainedStateView,
    a: MutationView,
    ta: (u64, u64),
    b: MutationView,
    tb: (u64, u64),
    topic: Seq<char>,
)
    requires
        a.topic == b.topic ==> ta != tb,
    ensures
        kept_for(s.settled(a, ta).settled(b, tb), topic) == kept_for(
            s.settled(b, tb).settled(a, ta),
            topic,
        ),
        lookup(s.settled(a, ta).settled(b, tb).tokens, topic) == lookup(
            s.settled(b, tb).settled(a, ta).tokens,
            topic,
        ),
{
    lemma_settled(s, a, ta, topic);
    lemma_settled(s, b, tb, topic);
    lemma_settled(s, a, ta, b.topic);
    lemma_settled(s, b, tb, a.topic);
    lemma_settled(s.settled(a, ta), b, tb, topic);
    lemma_settled(s.settled(b, tb), a, ta, topic);
}

/// A cleared topic is not filled again by an older message, however it comes: as a change or in
/// a snapshot.
pub proof fn law_cleared_stays_cleared(
    s: RetainedStateView,
    clear: MutationView,
    t: (u64, u64),
    stale: MutationView,
    older: (u64, u64),
    have: Seq<(Seq<char>, MessageView)>,
    e: RetainedEntryView,
)
    requires
        s.durable,
        clear.payload.len() == 0,
        stale.topic == clear.topic,
        e.topic == clear.topic,
        lookup(s.tokens, clear.topic) matches Some(held) ==> above(t, held),
        !above(older, t),
        !above((e.epoch, e.offset), t),
    ensures
        kept_for(s.settled(clear, t), clear.topic) is None,
        s.settled(clear, t).updated(stale, older) == s.settled(clear, t),
        s.settled(clear, t).update_effects(stale, older).len() == 0,
        s.settled(clear, t).with_entry(have, e) == s.settled(clear, t),
        !s.settled(clear, t).takes(have, e),
{
    lemma_settled(s, clear, t, clear.topic);
}

/// No more changes wait than the cap allows; while one is being committed or handed over, those
/// behind it stay where they are.
pub proof fn law_changes_wait_in_order(
    s: RetainedStateView,
    m: MutationView,
    me: Seq<char>,
    c: ClusterView,
)
    requires
        s.queue.len() <= RETAINED_QUEUE_CAP,
    ensures
        s.enqueued(m).queue.len() <= RETAINED_QUEUE_CAP,
        s.enqueued(m).queue.last() == m,
        s.queue.len() < RETAINED_QUEUE_CAP ==> s.enqueued(m).queue == s.queue.push(m),
        s.queue.len() == RETAINED_QUEUE_CAP ==> s.enqueued(m).queue == s.queue.skip(1).push(m),
        s.commit_inflight || s.handoff is Some ==> s.kicked(me, c) == s && s.kick_effects(
            me,
            c,
        ).len() == 0,
{
}

} // verus!
