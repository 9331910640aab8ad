//! The hub: the state of a broker.
//!
//! The hub does nothing by itself. A command changes its state and appends to its effects what
//! the world around it is asked to do: packets to write, frames to send, work for the store.
//! What comes of that work arrives as another command.

use vstd::prelude::*;

use crate::assoc::{bound, lookup, lookup_or, push_item, put, Roster, Table};
use crate::cluster::{Cluster, ClusterView, Ring, RingView};
use crate::effects::{Effect, EffectView};
use crate::ids::{ClientId, NodeId};
use crate::inflight::{Inflight, InflightView, SubscriberLimits};
use crate::lanes::{Lane, RemoteAppendGate};
use crate::ledger::{Ledger, LedgerView};
use crate::message::{Message, MessageView};
use crate::packet::{Packet, PacketView};
use crate::policy::{BrownoutAxes, BrownoutAxis, Quotas};
use crate::qos::QoS;
use crate::qos2::{Qos2State, Qos2View};
use crate::retained::{RetainedState, RetainedStateView};
use crate::session::{Online, OnlineView};
use crate::shared::{Cursors, Groups, SharedKey, SharedSubscriptionTable};
use crate::subscriptions::{Grants, Pairs, SubscriptionTable};

verus! {

/// The sessions of this node.
#[derive(Debug)]
pub struct Sessions {
    /// The connected clients.
    pub online: Table<ClientId, Online>,
    /// The session expiry interval of every session that outlives its connection.
    pub session_expiry: Table<ClientId, u32>,
    /// When each session without a connection expires.
    pub expiring: Table<ClientId, u64>,
    /// Counts the sweeps.
    pub reconcile_tick: u32,
    /// The connection that attaches, of every client whose session is being fetched.
    pub connecting: Table<ClientId, u64>,
    /// The exchange with every client.
    pub inflight: Table<ClientId, Inflight>,
    /// The lane of every client.
    pub lanes: Table<ClientId, Lane>,
    /// The forwarded publishes whose durable writes a node waits for.
    pub remote_appends: Table<(NodeId, u64), RemoteAppendGate>,
    /// How many messages were recorded.
    pub durable_writes: u64,
}

/// Model of [`Sessions`].
#[verifier::ext_equal]
pub struct SessionsView {
    pub online: Seq<(Seq<char>, OnlineView)>,
    pub session_expiry: Seq<(Seq<char>, u32)>,
    pub expiring: Seq<(Seq<char>, u64)>,
    pub reconcile_tick: u32,
    pub connecting: Seq<(Seq<char>, u64)>,
    pub inflight: Seq<(Seq<char>, InflightView)>,
    pub lanes: Seq<(Seq<char>, Lane)>,
    pub remote_appends: Seq<((Seq<char>, u64), RemoteAppendGate)>,
    pub durable_writes: u64,
}

impl DeepView for Sessions {
    type V = SessionsView;

    open spec fn deep_view(&self) -> SessionsView {
        SessionsView {
            online: self.online.deep_view(),
            session_expiry: self.session_expiry.deep_view(),
            expiring: self.expiring.deep_view(),
            reconcile_tick: self.reconcile_tick,
            connecting: self.connecting.deep_view(),
            inflight: self.inflight.deep_view(),
            lanes: self.lanes.deep_view(),
            remote_appends: self.remote_appends.deep_view(),
            durable_writes: self.durable_writes,
        }
    }
}

/// Who gets what.
#[derive(Debug)]
pub struct Routing {
    /// The filters of every client, with the guarantee that each was granted.
    pub subs_by_client: Table<ClientId, Table<String, QoS>>,
    /// The filters through which a client does not want its own messages back.
    pub no_local: Table<ClientId, Roster<String>>,
    /// The filters through which a client gets messages with the retain flag they came with.
    pub retain_as_published: Table<ClientId, Roster<String>>,
    /// The ordinary subscriptions.
    pub table: SubscriptionTable,
    /// The shared subscriptions.
    pub shared: SharedSubscriptionTable,
    /// Whose turn it is in each shared group.
    pub shared_cursor: Table<SharedKey, usize>,
}

/// Model of [`Routing`].
#[verifier::ext_equal]
pub struct RoutingView {
    pub subs_by_client: Seq<(Seq<char>, Grants)>,
    pub no_local: Seq<(Seq<char>, Seq<Seq<char>>)>,
    pub retain_as_published: Seq<(Seq<char>, Seq<Seq<char>>)>,
    pub table: Pairs,
    pub shared: Groups,
    pub shared_cursor: Cursors,
}

impl DeepView for Routing {
    type V = RoutingView;

    open spec fn deep_view(&self) -> RoutingView {
        RoutingView {
            subs_by_client: self.subs_by_client.deep_view(),
            no_local: self.no_local.deep_view(),
            retain_as_published: self.retain_as_published.deep_view(),
            table: self.table.deep_view(),
            shared: self.shared.deep_view(),
            shared_cursor: self.shared_cursor.deep_view(),
        }
    }
}

/// A broker.
#[derive(Debug)]
pub struct Hub {
    /// This node.
    pub node_id: NodeId,
    /// The time of day, in seconds.
    pub now: u64,
    /// The time since some start, in milliseconds.
    pub instant: u64,
    /// The sessions.
    pub sessions: Sessions,
    /// The subscriptions.
    pub routing: Routing,
    /// The other nodes.
    pub cluster: Cluster,
    /// The publishes that wait.
    pub ledger: Ledger,
    /// The retained messages.
    pub retained: RetainedState,
    /// The exactly-once bookkeeping.
    pub qos2: Qos2State,
    /// Whether no growth is taken.
    pub brownout: bool,
    /// The resources that are over their watermark.
    pub axes: BrownoutAxes,
    /// How much clients may take.
    pub quotas: Quotas,
    /// How much one client may hold up.
    pub limits: SubscriberLimits,
    /// What is to be done.
    pub effects: Vec<Effect>,
}

/// Model of [`Hub`].
#[verifier::ext_equal]
pub struct HubView {
    pub node_id: Seq<char>,
    pub now: u64,
    pub instant: u64,
    pub sessions: SessionsView,
    pub routing: RoutingView,
    pub cluster: ClusterView,
    pub ledger: LedgerView,
    pub retained: RetainedStateView,
    pub qos2: Qos2View,
    pub brownout: bool,
    pub axes: BrownoutAxes,
    pub quotas: Quotas,
    pub limits: SubscriberLimits,
    pub effects: Seq<EffectView>,
}

impl DeepView for Hub {
    type V = HubView;

    open spec fn deep_view(&self) -> HubView {
        HubView {
            node_id: self.node_id.deep_view(),
            now: self.now,
            instant: self.instant,
            sessions: self.sessions.deep_view(),
            routing: self.routing.deep_view(),
            cluster: self.cluster.deep_view(),
            ledger: self.ledger.deep_view(),
            retained: self.retained.deep_view(),
            qos2: self.qos2.deep_view(),
            brownout: self.brownout,
            axes: self.axes,
            quotas: self.quotas,
            limits: self.limits,
            effects: self.effects.deep_view(),
        }
    }
}

/// `messages` by topic; of two with one topic, the later.
pub open spec fn shelved(messages: Seq<MessageView>) -> Seq<(Seq<char>, MessageView)>
    decreases messages.len(),
{
    if messages.len() == 0 {
        Seq::empty()
    } else {
        put(shelved(messages.drop_last()), messages.last().topic, messages.last())
    }
}

/// `a` plus `b`, held at the largest `usize`.
pub open spec fn held(a: usize, b: nat) -> usize {
    if a + b > usize::MAX {
        usize::MAX
    } else {
        (a + b) as usize
    }
}

impl HubView {
    /// The hub of a broker that was just started.
    pub open spec fn fresh(node_id: Seq<char>) -> HubView {
        HubView {
            node_id,
            now: 0,
            instant: 0,
            sessions: SessionsView {
                online: Seq::empty(),
                session_expiry: Seq::empty(),
                expiring: Seq::empty(),
                reconcile_tick: 0,
                connecting: Seq::empty(),
                inflight: Seq::empty(),
                lanes: Seq::empty(),
                remote_appends: Seq::empty(),
                durable_writes: 0,
            },
            routing: RoutingView {
                subs_by_client: Seq::empty(),
                no_local: Seq::empty(),
                retain_as_published: Seq::empty(),
                table: Seq::empty(),
                shared: Seq::empty(),
                shared_cursor: Seq::empty(),
            },
            cluster: ClusterView::alone(),
            ledger: LedgerView::blank(),
            retained: RetainedStateView::blank(),
            qos2: Qos2View::blank(),
            brownout: false,
            axes: BrownoutAxes::clear(),
            quotas: Quotas {
                max_subscriptions_per_client: None,
                max_retained_messages: None,
                max_sessions: None,
            },
            limits: SubscriberLimits {
                max_outbound_bytes: None,
                max_backlog_bytes: None,
                soft_lane_depth: None,
            },
            effects: Seq::empty(),
        }
    }

    /// With a membership, or none.
    pub open spec fn placed(self, ring: Option<RingView>) -> HubView {
        HubView { cluster: ClusterView { ring, ..self.cluster }, ..self }
    }

    /// With changes of retained messages committed by the owner of their topic.
    pub open spec fn with_keyspace(self) -> HubView {
        HubView { retained: RetainedStateView { durable: true, ..self.retained }, ..self }
    }

    /// With a store behind the retained messages, which holds `messages` and no other.
    pub open spec fn with_messages(self, messages: Seq<MessageView>) -> HubView {
        HubView {
            retained: RetainedStateView {
                cache: shelved(messages),
                backed: true,
                ..self.retained
            },
            ..self
        }
    }

    /// With `e` to be done.
    pub open spec fn doing(self, e: EffectView) -> HubView {
        HubView { effects: self.effects.push(e), ..self }
    }

    /// With all of `es` to be done.
    pub open spec fn doing_all(self, es: Seq<EffectView>) -> HubView {
        HubView { effects: self.effects + es, ..self }
    }

    /// With other connected clients.
    pub open spec fn with_online(self, online: Seq<(Seq<char>, OnlineView)>) -> HubView {
        HubView { sessions: SessionsView { online, ..self.sessions }, ..self }
    }

    /// Whether `client` is connected.
    pub open spec fn is_online(self, client: Seq<char>) -> bool {
        bound(self.sessions.online, client)
    }

    /// The connection of `client`.
    pub open spec fn conn_of(self, client: Seq<char>) -> Option<u64> {
        match lookup(self.sessions.online, client) {
            Some(o) => Some(o.conn_id),
            None => None,
        }
    }

    /// Whether the session of `client` outlives its connection.
    pub open spec fn persistent(self, client: Seq<char>) -> bool {
        bound(self.sessions.session_expiry, client)
    }

    /// The exchange with `client`.
    pub open spec fn inf(self, client: Seq<char>) -> InflightView {
        lookup_or(self.sessions.inflight, client, InflightView::fresh())
    }

    /// With another exchange with `client`.
    pub open spec fn with_inf(self, client: Seq<char>, inf: InflightView) -> HubView {
        HubView {
            sessions: SessionsView {
                inflight: put(self.sessions.inflight, client, inf),
                ..self.sessions
            },
            ..self
        }
    }

    /// The lane of `client`.
    pub open spec fn lane(self, client: Seq<char>) -> Lane {
        lookup_or(self.sessions.lanes, client, Lane::idle())
    }

    /// With another lane of `client`.
    pub open spec fn with_lane(self, client: Seq<char>, lane: Lane) -> HubView {
        HubView {
            sessions: SessionsView {
                lanes: put(self.sessions.lanes, client, lane),
                ..self.sessions
            },
            ..self
        }
    }

    /// With another ledger.
    pub open spec fn with_ledger(self, ledger: LedgerView) -> HubView {
        HubView { ledger, ..self }
    }

    /// With `packet`, which takes `room`, handed to the connection of `client`.
    pub open spec fn sending(self, client: Seq<char>, packet: PacketView, room: nat) -> HubView {
        match lookup(self.sessions.online, client) {
            Some(o) => self.with_online(
                put(
                    self.sessions.online,
                    client,
                    OnlineView {
                        queued: held(o.queued, 1),
                        queued_bytes: held(o.queued_bytes, room),
                        ..o
                    },
                ),
            ).doing(EffectView::Packet { conn: o.conn_id, packet }),
            None => self,
        }
    }

    /// With publish `id` answered as far as it is due.
    pub open spec fn completing(self, id: u64) -> HubView {
        self.with_ledger(self.ledger.completed(id)).doing_all(self.ledger.complete_effects(id))
    }

    /// With publish `id` dropped.
    pub open spec fn dropping(self, id: u64) -> HubView {
        self.with_ledger(self.ledger.dropped(id)).doing_all(self.ledger.drop_effects(id))
    }

    /// With publish `id` turned away.
    pub open spec fn refusing(self, id: u64, r: crate::outcome::PublishRefusal) -> HubView {
        self.with_ledger(self.ledger.dropped(id)).doing_all(self.ledger.refuse_effects(id, r))
    }

    /// With the changes of retained messages worked off as far as they go.
    pub open spec fn kicking(self) -> HubView {
        HubView {
            retained: self.retained.kicked(self.node_id, self.cluster),
            effects: self.effects + self.retained.kick_effects(self.node_id, self.cluster),
            ..self
        }
    }

    /// With one axis over its watermark, or under it. That is shown every time; whether growth is
    /// refused is shown when it changes.
    pub open spec fn with_axis(self, axis: BrownoutAxis, on: bool) -> HubView {
        let over = self.axes.with(axis, on).any();
        let h = HubView { axes: self.axes.with(axis, on), brownout: over, ..self }.doing(
            EffectView::ShowAxis { axis, on },
        );
        if over != self.brownout {
            h.doing(EffectView::ShowBrownout { over })
        } else {
            h
        }
    }
}

impl Hub {
    /// A broker that goes by no name of its own.
    pub fn new() -> (r: Self)
        ensures
            r.deep_view() == HubView::fresh("node-local"@),
    {
        Hub::with_config(NodeId("node-local".to_string()))
    }

    /// A broker with a membership from the start.
    pub fn with_config_and_placement(node_id: NodeId, placement: Option<Ring>) -> (r: Self)
        ensures
            r.deep_view() == HubView::fresh(node_id.deep_view()).placed(placement.deep_view()),
    {
        let mut r = Hub::with_config(node_id);
        r.cluster.ring = placement;
        r
    }

    /// Has changes of retained messages committed by the owner of their topic.
    pub fn attach_durable_retained(&mut self)
        ensures
            final(self).deep_view() == old(self).deep_view().with_keyspace(),
    {
        self.retained.durable = true;
    }

    /// Puts a store behind the retained messages, and takes over the messages that it holds.
    pub fn attach_retained_store(&mut self, messages: Vec<Message>)
        ensures
            final(self).deep_view() == old(self).deep_view().with_messages(messages.deep_view()),
    {
        let mut cache: Table<String, Message> = Table::new();
        let ghost ms = messages.deep_view();
        let ghost mut i: int = 0;
        assert(ms.take(0) =~= Seq::empty());
        for m in it: messages
            invariant
                it.seq() == messages@,
                ms == messages.deep_view(),
                i == it.index(),
                cache.deep_view() == shelved(ms.take(i)),
        {
            proof {
                assert(ms.take(i + 1).drop_last() =~= ms.take(i));
                assert(ms.take(i + 1).last() == ms[i]);
            }
            cache.insert(m.topic.clone(), m);
            proof {
                i = i + 1;
            }
        }
        assert(ms.take(i) =~= ms);
        self.retained.cache = cache;
        self.retained.backed = true;
    }

    /// See [`HubView::fresh`].
    pub fn with_config(node_id: NodeId) -> (r: Self)
        ensures
            r.deep_view() == HubView::fresh(node_id.deep_view()),
    {
        let r = Hub {
            node_id,
            now: 0,
            instant: 0,
            sessions: Sessions {
                online: Table::new(),
                session_expiry: Table::new(),
                expiring: Table::new(),
                reconcile_tick: 0,
                connecting: Table::new(),
                inflight: Table::new(),
                lanes: Table::new(),
                remote_appends: Table::new(),
                durable_writes: 0,
            },
            routing: Routing {
                subs_by_client: Table::new(),
                no_local: Table::new(),
                retain_as_published: Table::new(),
                table: SubscriptionTable::new(),
                shared: SharedSubscriptionTable::new(),
                shared_cursor: Table::new(),
            },
            cluster: Cluster::new(),
            ledger: Ledger::new(),
            retained: RetainedState::new(),
            qos2: Qos2State::new(),
            brownout: false,
            axes: BrownoutAxes { disk: false, memory: false },
            quotas: Quotas {
                max_subscriptions_per_client: None,
                max_retained_messages: None,
                max_sessions: None,
            },
            limits: SubscriberLimits {
                max_outbound_bytes: None,
                max_backlog_bytes: None,
                soft_lane_depth: None,
            },
            effects: Vec::new(),
        };
        assert(r.effects.deep_view() =~= Seq::empty());
        r
    }

    /// Adds to what is to be done.
    pub fn emit(&mut self, e: Effect)
        ensures
            final(self).deep_view() == old(self).deep_view().doing(e.deep_view()),
    {
        push_item(&mut self.effects, e);
    }

    /// Takes what is to be done.
    pub fn take_effects(&mut self) -> (r: Vec<Effect>)
        ensures
            r.deep_view() == old(self).deep_view().effects,
            final(self).deep_view() == (HubView { effects: Seq::empty(), ..old(self).deep_view() }),
    {
        let mut r: Vec<Effect> = Vec::new();
        std::mem::swap(&mut r, &mut self.effects);
        assert(self.effects.deep_view() =~= Seq::empty());
        r
    }

    /// See [`HubView::is_online`].
    pub fn is_online(&self, client: &ClientId) -> (r: bool)
        ensures
            r == self.deep_view().is_online(client.deep_view()),
    {
        self.sessions.online.contains_key(client)
    }

    /// See [`HubView::conn_of`].
    pub fn conn_of(&self, client: &ClientId) -> (r: Option<u64>)
        ensures
            r == self.deep_view().conn_of(client.deep_view()),
    {
        match self.sessions.online.get(client) {
            Some(o) => Some(o.conn_id),
            None => None,
        }
    }

    /// See [`HubView::persistent`].
    pub fn is_persistent(&self, client: &ClientId) -> (r: bool)
        ensures
            r == self.deep_view().persistent(client.deep_view()),
    {
        self.sessions.session_expiry.contains_key(client)
    }

    /// Hands `packet` to the connection of `client`, if it is connected.
    pub fn send_packet(&mut self, client: &ClientId, packet: Packet, room: usize)
        ensures
            final(self).deep_view() == old(self).deep_view().sending(
                client.deep_view(),
                packet.deep_view(),
                room as nat,
            ),
    {
        match self.sessions.online.get_mut(client) {
            Some(o) => {
                o.queued = o.queued.saturating_add(1);
                o.queued_bytes = o.queued_bytes.saturating_add(room);
                let conn: u64 = o.conn_id;
                push_item(&mut self.effects, Effect::Packet { conn, packet });
            },
            None => {},
        }
    }

    /// Answers the publisher of `id` and removes the publish, as far as it is due.
    pub fn try_complete_pending(&mut self, id: u64)
        ensures
            final(self).deep_view() == old(self).deep_view().completing(id),
    {
        self.ledger.try_complete_pending(id, &mut self.effects);
    }

    /// Drops publish `id`.
    pub fn drop_pending(&mut self, id: u64)
        ensures
            final(self).deep_view() == old(self).deep_view().dropping(id),
    {
        self.ledger.drop_pending(id, &mut self.effects);
    }

    /// Turns publish `id` away.
    pub fn refuse_pending(&mut self, id: u64, r: crate::outcome::PublishRefusal)
        ensures
            final(self).deep_view() == old(self).deep_view().refusing(id, r),
    {
        self.ledger.refuse_pending(id, r, &mut self.effects);
    }

    /// Works the changes of retained messages off as far as they go.
    pub fn kick_retained_queue(&mut self)
        ensures
            final(self).deep_view() == old(self).deep_view().kicking(),
    {
        self.retained.kick_retained_queue(&self.node_id, &self.cluster, &mut self.effects);
    }

    /// Notes that a resource is over its watermark, or back under it. See [`HubView::with_axis`].
    pub fn set_brownout_axis(&mut self, axis: BrownoutAxis, on: bool)
        ensures
            final(self).deep_view() == old(self).deep_view().with_axis(axis, on),
    {
        self.axes.set(axis, on);
        let over = self.axes.is_over();
        self.emit(Effect::ShowAxis { axis, on });
        if over != self.brownout {
            self.brownout = over;
            self.emit(Effect::ShowBrownout { over });
        }
    }
}

/// Growth is refused exactly while a resource is over its watermark. Every word about a resource is
/// shown, and whether growth is refused is shown exactly when that word has changed it.
pub proof fn law_brownout_is_shown(h: HubView, axis: BrownoutAxis, on: bool)
    requires
        h.brownout == h.axes.any(),
    ensures
        h.with_axis(axis, on).brownout == h.with_axis(axis, on).axes.any(),
        h.with_axis(axis, on).brownout == h.brownout ==> h.with_axis(axis, on).effects
            == h.effects.push(EffectView::ShowAxis { axis, on }),
        h.with_axis(axis, on).brownout != h.brownout ==> h.with_axis(axis, on).effects
            == h.effects.push(EffectView::ShowAxis { axis, on }).push(
            EffectView::ShowBrownout { over: !h.brownout },
        ),
{
}

} // verus!
