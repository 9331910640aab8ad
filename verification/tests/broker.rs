//! A whole broker at work: a hub, and a world around it that does what the hub asks for.

use std::collections::{HashMap, HashSet, VecDeque};
use std::sync::Arc;

use mqtt_hub::assoc::Table;
use mqtt_hub::cluster::{Peer, Ring};
use mqtt_hub::dispatch::HubCommand;
use mqtt_hub::effects::Effect;
use mqtt_hub::hub::Hub;
use mqtt_hub::ids::{ClientId, NodeId};
use mqtt_hub::lanes::{
    lane_call, lane_outcome, AppendJob, AppendThen, Enqueued, LaneJob, StoreAnswer, StoreCall,
};
use mqtt_hub::message::{AppProperties, Message, Payload, Publication, WireAppProps};
use mqtt_hub::outcome::PublishOutcome;
use mqtt_hub::packet::{Packet, Property, ProtocolVersion, NOT_AUTHORIZED};
use mqtt_hub::policy::{AuthMethod, BrownoutAxis, Quotas};
use mqtt_hub::qos::QoS;
use mqtt_hub::qos2::{Qos2LaneOp, Qos2OpOutcome};
use mqtt_hub::recovery::{FetchAnswer, FetchCall, SessionFetch};
use mqtt_hub::retained::{RetainedMutation, RetainedWrite, RETAINED_QUEUE_CAP};
use mqtt_hub::retire::{RetireAnswer, RetireCall, RetireRun};
use mqtt_hub::session::{
    Admission, AttachOutcome, Identity, PendingAttach, QueuedMessage, SessionRecovery,
    StorageError, REPLAY_LIMIT,
};
use mqtt_hub::shared::RemoteSharedGroup;
use mqtt_hub::snapshot::{retained_digest, retained_value};
use mqtt_hub::subscribing::Wish;
use mqtt_hub::subscriptions::Subscription;
use mqtt_hub::sweeps::{Eviction, SweepPolicy, EXPIRY_RECONCILE_EVERY};
use mqtt_hub::wire::{PeerMessage, RetainedWireEntry, PROTO_FORWARD_ANSWERS};

/// One stored session.
#[derive(Default)]
struct Stored {
    owner: Option<String>,
    subscriptions: Vec<(String, QoS)>,
    queue: VecDeque<(u64, Message, Option<u64>)>,
    last_offset: u64,
    packet_ids: u16,
    outbound: HashMap<u16, u64>,
    released: HashSet<u16>,
    expiry: Option<u64>,
}

/// A store of sessions in memory.
#[derive(Default)]
struct Store {
    sessions: HashMap<String, Stored>,
    queue_cap: Option<usize>,
    failing_claims: usize,
    enqueue_fails: bool,
    record_fails: bool,
}

impl Store {
    fn enqueue(&mut self, client: &str, m: &Message, expiry: Option<u64>) -> StoreAnswer {
        if self.enqueue_fails {
            return StoreAnswer::Enqueued(Err(StorageError::NoQuorum));
        }
        let s = self.sessions.entry(client.to_string()).or_default();
        s.last_offset += 1;
        s.queue.push_back((s.last_offset, m.clone(), expiry));
        let mut evicted = 0;
        if let Some(cap) = self.queue_cap {
            while s.queue.len() > cap {
                s.queue.pop_front();
                evicted += 1;
            }
        }
        StoreAnswer::Enqueued(Ok(Enqueued::Stored { offset: s.last_offset, evicted }))
    }

    fn ack(&mut self, client: &str, up_to: u64) {
        if let Some(s) = self.sessions.get_mut(client) {
            s.queue.retain(|(o, _, _)| *o > up_to);
        }
    }
}

struct World {
    hub: Hub,
    store: Store,
    /// The tokens and payloads of the durable retained messages, by topic.
    keyspace: HashMap<String, (Vec<u8>, u8, (u64, u64))>,
    commits: Vec<(String, Vec<u8>)>,
    keyspace_down: bool,
    /// The retained messages on disk, by topic.
    retained: HashMap<String, Vec<u8>>,
    retained_down: bool,
    writes_held: bool,
    writes: VecDeque<RetainedWrite>,
    /// The topics of the retained changes that were given up.
    given_up: Vec<String>,
    axes: Vec<(BrownoutAxis, bool)>,
    brownouts: Vec<bool>,
    packets: HashMap<u64, VecDeque<Packet>>,
    closed: HashSet<u64>,
    frames: HashMap<String, VecDeque<PeerMessage>>,
    closed_links: Vec<String>,
    attached: HashMap<u64, AttachOutcome>,
    subscribed: HashMap<u64, Vec<bool>>,
    published: HashMap<u64, PublishOutcome>,
    withheld: HashSet<u64>,
    pongs: Vec<u64>,
    denied_prefix: Option<&'static str>,
    lanes_held: bool,
    held: VecDeque<(ClientId, LaneJob)>,
    attaches_held: bool,
    fetched: VecDeque<(PendingAttach, SessionRecovery)>,
    token: u64,
    now: u64,
    instant: u64,
}

fn no_props() -> WireAppProps {
    WireAppProps {
        payload_format: None,
        content_type: None,
        response_topic: None,
        correlation_data: None,
        user_properties: Vec::new(),
    }
}

fn snap(topic: &str, payload: &[u8], epoch: u64, offset: u64) -> RetainedWireEntry {
    RetainedWireEntry {
        topic: topic.to_string(),
        payload: payload.to_vec(),
        qos: 0,
        epoch,
        offset,
        props: no_props(),
    }
}

fn stable_id(bytes: &[u8]) -> u64 {
    let mut h: u64 = 0xcbf2_9ce4_8422_2325;
    for b in bytes {
        h ^= u64::from(*b);
        h = h.wrapping_mul(0x0000_0100_0000_01b3);
    }
    h
}

fn number(topic: &str, payload: &[u8], qos: u8) -> (u64, u64) {
    let image = retained_value(topic, &payload.to_vec(), qos, &Vec::new());
    (stable_id(topic.as_bytes()), stable_id(&image))
}

fn publication(topic: &str, payload: &[u8], qos: QoS, retain: bool) -> Publication {
    Publication {
        topic: topic.to_string(),
        payload: Payload::from_vec(payload.to_vec()),
        qos,
        retain,
        message_expiry: None,
        app: Arc::new(AppProperties::none()),
    }
}

fn admission(subject: &str) -> Admission {
    Admission {
        identity: Identity { subject: subject.to_string(), groups: Vec::new() },
        method: AuthMethod::Password,
        cert_serial: None,
        protocol: ProtocolVersion::V311,
    }
}

fn payload_of(packet: &Packet) -> Vec<u8> {
    match packet {
        Packet::Publish(p) => p.payload.to_vec(),
        other => panic!("expected a publish, got {other:?}"),
    }
}

fn pkid_of(packet: &Packet) -> u16 {
    match packet {
        Packet::Publish(p) => p.pkid.expect("a packet id"),
        other => panic!("expected a publish, got {other:?}"),
    }
}

fn expiry_of(packet: &Packet) -> Option<u32> {
    match packet {
        Packet::Publish(p) => p.properties.iter().find_map(|x| match x {
            Property::MessageExpiryInterval(n) => Some(*n),
            _ => None,
        }),
        other => panic!("expected a publish, got {other:?}"),
    }
}

fn ring(members: &[&str], owners: &[(&str, &str)]) -> Ring {
    let mut table: Table<String, NodeId> = Table::new();
    for (k, n) in owners {
        table.insert((*k).to_string(), NodeId((*n).to_string()));
    }
    Ring {
        members: members.iter().map(|m| NodeId((*m).to_string())).collect(),
        epoch: 1,
        owners: table,
    }
}

impl World {
    fn new() -> World {
        World::around(Hub::with_config(NodeId("hub-test".to_string())))
    }

    fn around(hub: Hub) -> World {
        World {
            hub,
            store: Store::default(),
            keyspace: HashMap::new(),
            commits: Vec::new(),
            keyspace_down: false,
            retained: HashMap::new(),
            retained_down: false,
            writes_held: false,
            writes: VecDeque::new(),
            given_up: Vec::new(),
            axes: Vec::new(),
            brownouts: Vec::new(),
            packets: HashMap::new(),
            closed: HashSet::new(),
            frames: HashMap::new(),
            closed_links: Vec::new(),
            attached: HashMap::new(),
            subscribed: HashMap::new(),
            published: HashMap::new(),
            withheld: HashSet::new(),
            pongs: Vec::new(),
            denied_prefix: None,
            lanes_held: false,
            held: VecDeque::new(),
            attaches_held: false,
            fetched: VecDeque::new(),
            token: 0,
            now: 1_000_000,
            instant: 0,
        }
    }

    /// A broker whose retained messages are committed, in a cluster with `peers`, which own the
    /// topics of `owners`.
    fn durable(peers: &[&str], owners: &[(&str, &str)]) -> World {
        let mut members = vec!["hub-test"];
        members.extend_from_slice(peers);
        let mut hub = Hub::with_config_and_placement(
            NodeId("hub-test".to_string()),
            Some(ring(&members, owners)),
        );
        hub.attach_durable_retained();
        World::around(hub)
    }

    fn fresh_token(&mut self) -> u64 {
        self.token += 1;
        self.token
    }

    fn send(&mut self, cmd: HubCommand) {
        self.hub.set_time(self.now, self.instant);
        self.hub.dispatch(cmd);
        self.pump();
    }

    fn pump(&mut self) {
        loop {
            let effects = self.hub.take_effects();
            if effects.is_empty() {
                return;
            }
            for e in effects {
                self.perform(e);
            }
        }
    }

    fn denied(&self, subs: &SessionRecovery) -> Vec<String> {
        match (self.denied_prefix, subs) {
            (Some(prefix), SessionRecovery::Ready { subscriptions, .. }) => subscriptions
                .iter()
                .filter(|s| s.filter.starts_with(prefix))
                .map(|s| s.filter.clone())
                .collect(),
            _ => Vec::new(),
        }
    }

    fn fetch(&mut self, client: &str, owner: &str) -> SessionRecovery {
        let mut elapsed: u64 = 0;
        let mut run = SessionFetch::new();
        while let Some(call) = run.call() {
            let answer = match call {
                FetchCall::Claim => {
                    if self.store.failing_claims > 0 {
                        if self.store.failing_claims != usize::MAX {
                            self.store.failing_claims -= 1;
                        }
                        FetchAnswer::Failed { transient: true }
                    } else {
                        let present = self.store.sessions.contains_key(client);
                        let s = self.store.sessions.entry(client.to_string()).or_default();
                        match &s.owner {
                            Some(o) if o != owner => FetchAnswer::Denied { owner: o.clone() },
                            _ => {
                                s.owner = Some(owner.to_string());
                                FetchAnswer::Granted { present }
                            }
                        }
                    }
                }
                FetchCall::Subscriptions => FetchAnswer::Subscriptions(
                    self.store.sessions[client]
                        .subscriptions
                        .iter()
                        .map(|(f, q)| Subscription { filter: f.clone(), max_qos: *q })
                        .collect(),
                ),
                FetchCall::Probe => FetchAnswer::Probed,
                FetchCall::Wait(ms) => {
                    elapsed += ms;
                    FetchAnswer::Waited
                }
            };
            run = run.answer(answer, elapsed);
        }
        run.finish().expect("the fetch is over")
    }

    /// Hands over what was fetched, with the queue as it stands now.
    fn recovered(&mut self, pending: PendingAttach, recovery: SessionRecovery) {
        let denied = self.denied(&recovery);
        let queue = match recovery {
            SessionRecovery::Ready { .. } => Some(
                self.store.sessions[pending.client.as_str()]
                    .queue
                    .iter()
                    .take(REPLAY_LIMIT)
                    .map(|(o, m, e)| QueuedMessage {
                        offset: *o,
                        message: m.clone(),
                        expiry_at: *e,
                    })
                    .collect(),
            ),
            _ => None,
        };
        self.hub.dispatch(HubCommand::SessionRecovered { pending, recovery, queue, denied });
    }

    /// Lets the attaches go on whose sessions were fetched.
    fn release_attaches(&mut self) {
        self.attaches_held = false;
        while let Some((pending, recovery)) = self.fetched.pop_front() {
            self.recovered(pending, recovery);
        }
        self.pump();
    }

    fn deliver(&mut self, job: &AppendJob) -> StoreAnswer {
        let client = job.client.as_str().to_string();
        match lane_call(job) {
            StoreCall::Nothing => StoreAnswer::Nothing,
            StoreCall::Enqueue { message, expiry_at } => {
                self.store.enqueue(&client, message, expiry_at)
            }
            StoreCall::Record { pkid, offset } => {
                if self.store.record_fails {
                    return StoreAnswer::Recorded(Err(StorageError::NoQuorum));
                }
                self.store.sessions.entry(client).or_default().outbound.insert(pkid, offset);
                StoreAnswer::Recorded(Ok(()))
            }
            StoreCall::EnqueueAll { entries } => {
                for (m, expiry) in entries {
                    self.store.enqueue(&client, m, *expiry);
                }
                StoreAnswer::Nothing
            }
        }
    }

    fn retire(&mut self, client: &str, mut run: RetireRun) -> Qos2OpOutcome {
        while let Some(call) = run.call() {
            let answer = match call {
                RetireCall::Truncate { up_to } => {
                    self.store.ack(client, up_to);
                    RetireAnswer::Done
                }
                RetireCall::Clear { pkid } => {
                    if let Some(s) = self.store.sessions.get_mut(client) {
                        s.outbound.remove(&pkid);
                        s.released.remove(&pkid);
                    }
                    RetireAnswer::Done
                }
                RetireCall::Head => RetireAnswer::Head(
                    self.store
                        .sessions
                        .get(client)
                        .and_then(|s| s.queue.front().map(|(o, _, _)| *o)),
                ),
            };
            run.answer(answer);
        }
        Qos2OpOutcome::Retire(run.finish())
    }

    fn work(&mut self, client: ClientId, job: LaneJob) {
        self.hub.dispatch(HubCommand::LaneStarted { client: client.clone() });
        match job {
            LaneJob::Deliver(job) => {
                let answer = self.deliver(&job);
                let outcome = lane_outcome(&job, &answer);
                self.hub.dispatch(HubCommand::AppendDone { job: *job, outcome });
            }
            LaneJob::Discard(pending) => {
                self.store.sessions.remove(client.as_str());
                let mark = AppendJob::discard_mark(client);
                let outcome = lane_outcome(&mark, &StoreAnswer::Nothing);
                self.hub.dispatch(HubCommand::AppendDone { job: mark, outcome });
                self.hub.dispatch(HubCommand::SessionRecovered {
                    pending: *pending,
                    recovery: SessionRecovery::Cleaned,
                    queue: None,
                    denied: Vec::new(),
                });
            }
            LaneJob::Remove { client: who } => {
                self.store.sessions.remove(who.as_str());
                let mark = AppendJob::discard_mark(client);
                let outcome = lane_outcome(&mark, &StoreAnswer::Nothing);
                self.hub.dispatch(HubCommand::AppendDone { job: mark, outcome });
            }
            LaneJob::Qos2Op { client: who, op } => {
                let step = match op {
                    Qos2LaneOp::Advance { pkid, epoch } => {
                        let s = self.store.sessions.entry(who.as_str().to_string()).or_default();
                        s.released.insert(pkid);
                        Qos2OpOutcome::Advance { pkid, epoch, ok: true }
                    }
                    Qos2LaneOp::Retire(plan) => self.retire(who.as_str(), RetireRun::new(plan)),
                };
                self.hub.dispatch(HubCommand::Qos2OpDone { client: who, step });
            }
        }
    }

    /// Lets the lanes do what they were handed.
    fn release_lanes(&mut self) {
        self.lanes_held = false;
        while let Some((client, job)) = self.held.pop_front() {
            self.work(client, job);
        }
        self.pump();
    }

    fn perform(&mut self, e: Effect) {
        match e {
            Effect::Packet { conn, packet } => {
                assert!(!self.closed.contains(&conn), "a packet for a closed connection");
                self.packets.entry(conn).or_default().push_back(packet);
            }
            Effect::Close { conn } => {
                self.closed.insert(conn);
            }
            Effect::Frame { node, frame } => {
                self.frames.entry(node.0).or_default().push_back(frame);
            }
            Effect::CloseLink { node } => self.closed_links.push(node.0),
            Effect::Attached { token, result } => {
                assert!(self.attached.insert(token, result).is_none(), "told twice");
            }
            Effect::Subscribed { token, verdicts } => {
                self.subscribed.insert(token, verdicts);
            }
            Effect::Published { token, outcome } => {
                assert!(self.published.insert(token, outcome).is_none(), "answered twice");
            }
            Effect::Withheld { token } => {
                self.withheld.insert(token);
            }
            Effect::Pong { token } => self.pongs.push(token),
            Effect::Lane { client, job } => {
                if self.lanes_held {
                    self.held.push_back((client, job));
                } else {
                    self.work(client, job);
                }
            }
            Effect::Recover { pending } => {
                let client = pending.client.as_str().to_string();
                let owner = pending.admission.identity.subject.clone();
                let recovery = self.fetch(&client, &owner);
                if self.attaches_held {
                    self.fetched.push_back((pending, recovery));
                } else {
                    self.recovered(pending, recovery);
                }
            }
            Effect::Discard { pending } => {
                self.store.sessions.remove(pending.client.as_str());
                self.hub.dispatch(HubCommand::SessionRecovered {
                    pending,
                    recovery: SessionRecovery::Cleaned,
                    queue: None,
                    denied: Vec::new(),
                });
            }
            Effect::RemoveSession { client } => {
                self.store.sessions.remove(client.as_str());
            }
            Effect::Reap { client, token } => {
                self.store.sessions.remove(client.as_str());
                self.attached.insert(token, AttachOutcome::QuotaExceeded);
            }
            Effect::SetSubscriptions { client, subscriptions } => {
                let s = self.store.sessions.entry(client.as_str().to_string()).or_default();
                s.subscriptions =
                    subscriptions.into_iter().map(|s| (s.filter, s.max_qos)).collect();
            }
            Effect::SetSessionExpiry { client, deadline } => {
                if let Some(s) = self.store.sessions.get_mut(client.as_str()) {
                    s.expiry = deadline;
                }
            }
            Effect::Ack { client, up_to } => self.store.ack(client.as_str(), up_to),
            Effect::ReservePacketIds { client, count } => {
                let result = match self.store.sessions.get_mut(client.as_str()) {
                    Some(s) => {
                        let base = s.packet_ids;
                        s.packet_ids = base.wrapping_add(count);
                        Ok(base)
                    }
                    None => Ok(0),
                };
                self.hub.dispatch(HubCommand::PkidBlockReserved { client, result });
            }
            Effect::ScanSessions => {
                let sessions = self
                    .store
                    .sessions
                    .iter()
                    .map(|(c, s)| {
                        let subs = s
                            .subscriptions
                            .iter()
                            .map(|(f, q)| Subscription { filter: f.clone(), max_qos: *q })
                            .collect();
                        (ClientId::new(c), subs, s.expiry)
                    })
                    .collect();
                self.hub.dispatch(HubCommand::InheritedSessions { sessions });
            }
            Effect::CommitRetained { mutation } => {
                let token = if self.keyspace_down {
                    None
                } else {
                    let payload = mutation.payload.to_vec();
                    assert_eq!(mutation.clears(), payload.is_empty());
                    let offset = match self.keyspace.get(&mutation.topic) {
                        Some((_, _, (_, o))) => o + 1,
                        None => 1,
                    };
                    self.commits.push((mutation.topic.clone(), payload.clone()));
                    self.keyspace
                        .insert(mutation.topic.clone(), (payload, mutation.qos, (0, offset)));
                    Some((0, offset))
                };
                self.hub.dispatch(HubCommand::RetainedCommitDone { mutation, token });
            }
            Effect::StoreRetained { write } => {
                if self.writes_held {
                    self.writes.push_back(write);
                } else {
                    self.store_retained(write);
                }
            }
            Effect::RetainedGivenUp { topic } => self.given_up.push(topic),
            Effect::ShowAxis { axis, on } => self.axes.push((axis, on)),
            Effect::ShowBrownout { over } => self.brownouts.push(over),
        }
    }

    fn store_retained(&mut self, write: RetainedWrite) {
        let ok = !self.retained_down;
        if ok {
            let payload = write.message.payload.to_vec();
            if payload.is_empty() {
                self.retained.remove(&write.message.topic);
            } else {
                self.retained.insert(write.message.topic.clone(), payload);
            }
        }
        self.hub.dispatch(HubCommand::RetainedStored { write, ok });
    }

    /// Lets the store of retained messages do what it was asked for.
    fn release_writes(&mut self) {
        self.writes_held = false;
        while let Some(write) = self.writes.pop_front() {
            self.store_retained(write);
        }
        self.pump();
    }

    /// A broker with a store of retained messages.
    fn backed() -> World {
        let mut w = World::new();
        w.hub.attach_retained_store(Vec::new());
        w
    }

    fn attach_as(
        &mut self,
        client: &str,
        admission: Admission,
        conn_id: u64,
        clean_start: bool,
        session_expiry: u32,
        receive_maximum: u16,
        will: Option<Publication>,
    ) -> Option<AttachOutcome> {
        let reply = self.fresh_token();
        self.send(HubCommand::Attach {
            pending: PendingAttach {
                client: ClientId::new(client),
                admission,
                conn_id,
                session_expiry,
                receive_maximum,
                will,
                reply,
            },
            clean_start,
        });
        self.attached.get(&reply).copied()
    }

    fn attach_full(
        &mut self,
        client: &str,
        conn_id: u64,
        clean_start: bool,
        session_expiry: u32,
        receive_maximum: u16,
    ) -> bool {
        let got = self.attach_as(
            client,
            admission(client),
            conn_id,
            clean_start,
            session_expiry,
            receive_maximum,
            None,
        );
        match got {
            Some(AttachOutcome::Present(present)) => present,
            other => panic!("not attached: {other:?}"),
        }
    }

    fn attach(&mut self, client: &str, conn_id: u64, clean: bool) -> bool {
        let expiry = if clean { 0 } else { u32::MAX };
        self.attach_full(client, conn_id, clean, expiry, u16::MAX)
    }

    fn attach_outcome(&mut self, client: &str, owner: &str, conn_id: u64) -> AttachOutcome {
        self.attach_as(client, admission(owner), conn_id, false, u32::MAX, u16::MAX, None)
            .expect("an answer")
    }

    fn detach(&mut self, client: &str, conn_id: u64) {
        self.send(HubCommand::Detach { client: ClientId::new(client), conn_id, graceful: true });
    }

    fn subscribe_with(&mut self, client: &str, wishes: Vec<Wish>) -> Vec<bool> {
        let id = ClientId::new(client);
        if let Some(subs) = self.hub.plan_subscribe(&id, &wishes) {
            let s = self.store.sessions.entry(client.to_string()).or_default();
            s.subscriptions = subs.into_iter().map(|s| (s.filter, s.max_qos)).collect();
        }
        let token = self.fresh_token();
        self.send(HubCommand::Subscribe { client: id, wishes, reply: Some(token), stored: true });
        self.subscribed.remove(&token).expect("an answer")
    }

    fn subscribe_qos(&mut self, client: &str, filter: &str, qos: QoS) {
        self.subscribe_with(
            client,
            vec![Wish {
                filter: filter.to_string(),
                qos,
                no_local: false,
                retain_as_published: false,
            }],
        );
    }

    fn subscribe(&mut self, client: &str, filter: &str) {
        self.subscribe_qos(client, filter, QoS::AtMostOnce);
    }

    fn publish_from(&mut self, p: Publication, v5: bool) -> u64 {
        let token = self.fresh_token();
        self.send(HubCommand::Publish {
            publication: p,
            publisher: None,
            done: Some(token),
            v5,
            relaxed: false,
        });
        token
    }

    fn publish_quietly(&mut self, p: Publication) {
        self.send(HubCommand::Publish {
            publication: p,
            publisher: None,
            done: None,
            v5: false,
            relaxed: false,
        });
    }

    fn publish(&mut self, topic: &str, payload: &[u8]) {
        self.publish_quietly(publication(topic, payload, QoS::AtMostOnce, false));
    }

    fn publish_expiring(&mut self, topic: &str, payload: &[u8], secs: u32) {
        let mut p = publication(topic, payload, QoS::AtMostOnce, false);
        p.message_expiry = Some(secs);
        self.publish_quietly(p);
    }

    fn publish_qos1(&mut self, topic: &str, payload: &[u8]) {
        self.publish_quietly(publication(topic, payload, QoS::AtLeastOnce, false));
    }

    fn publish_retained(&mut self, topic: &str, payload: &[u8]) {
        self.publish_quietly(publication(topic, payload, QoS::AtMostOnce, true));
    }

    /// The next packet for a connection, which writes it.
    fn recv(&mut self, client: &str, conn: u64) -> Option<Packet> {
        let p = self.packets.get_mut(&conn)?.pop_front()?;
        self.send(HubCommand::PacketWritten {
            client: ClientId::new(client),
            conn_id: conn,
            bytes: 0,
        });
        Some(p)
    }

    fn numbers(&self) -> Vec<(u64, u64)> {
        self.hub
            .retained
            .cache
            .entries
            .iter()
            .map(|(t, m)| {
                let qos = match m.qos {
                    QoS::AtMostOnce => 0,
                    QoS::AtLeastOnce => 1,
                    QoS::ExactlyOnce => 2,
                };
                number(t, &m.payload.to_vec(), qos)
            })
            .collect()
    }

    fn connect_peer(&mut self, node: &str, conn_id: u64) {
        let ids = self.numbers();
        self.send(HubCommand::PeerConnected {
            node: NodeId(node.to_string()),
            peer: Peer { conn_id, cert_serial: None, proto: PROTO_FORWARD_ANSWERS },
            ids,
        });
    }

    fn remote_interest(&mut self, node: &str, filters: &[&str]) {
        self.send(HubCommand::RemoteInterest {
            node: NodeId(node.to_string()),
            filters: filters.iter().map(|f| (*f).to_string()).collect(),
        });
    }

    fn remote_shared(&mut self, node: &str, group: &str, filter: &str, members: &[(&str, bool)]) {
        self.send(HubCommand::RemoteSharedInterest {
            node: NodeId(node.to_string()),
            groups: vec![RemoteSharedGroup {
                group: group.to_string(),
                filter: filter.to_string(),
                members: members
                    .iter()
                    .map(|(c, on)| (ClientId::new(c), QoS::AtMostOnce, *on))
                    .collect(),
            }],
        });
    }

    /// The next frame for a node, but for the shared groups.
    fn frame(&mut self, node: &str) -> Option<PeerMessage> {
        loop {
            let f = self.frames.get_mut(node)?.pop_front()?;
            if !matches!(f, PeerMessage::SharedInterest { .. }) {
                return Some(f);
            }
        }
    }

    fn digest_from(&mut self, node: &str, theirs: (u64, u64, u64)) {
        let ids = self.numbers();
        self.send(HubCommand::RemoteRetainedDigest {
            node: NodeId(node.to_string()),
            theirs,
            ids,
        });
    }

    fn snapshot_from(&mut self, node: &str, messages: Vec<RetainedWireEntry>) {
        self.send(HubCommand::RemoteRetainedSnapshot { node: NodeId(node.to_string()), messages });
    }

    fn update(&mut self, topic: &str, payload: &[u8], epoch: u64, offset: u64) {
        self.send(HubCommand::RemoteRetainedUpdate {
            mutation: RetainedMutation {
                topic: topic.to_string(),
                payload: Payload::from_vec(payload.to_vec()),
                qos: 0,
                app: Arc::new(AppProperties::none()),
                reply: None,
                publish: None,
            },
            under: (epoch, offset),
        });
    }

    fn routed_commit(&mut self, node: &str, topic: &str, payload: &[u8], qos: u8, seq: u64) {
        self.send(HubCommand::RemoteRetainedCommit {
            node: NodeId(node.to_string()),
            topic: topic.to_string(),
            payload: Payload::from_vec(payload.to_vec()),
            qos,
            app: Arc::new(AppProperties::none()),
            seq,
        });
    }

    fn commit_ack(&mut self, node: &str, seq: u64, token: Option<(u64, u64)>) {
        self.send(HubCommand::RemoteRetainedCommitAck {
            node: NodeId(node.to_string()),
            seq,
            token,
        });
    }

    /// What somebody who subscribes to `topic` now is sent.
    fn retained_replay(&mut self, client: &str, topic: &str) -> Option<Vec<u8>> {
        let conn = 10_000 + self.fresh_token();
        self.attach(client, conn, true);
        self.subscribe(client, topic);
        self.recv(client, conn).map(|p| payload_of(&p))
    }

    fn tick(&mut self) {
        self.instant += 1_000;
        self.send(HubCommand::Tick);
    }

    fn next_commit(&mut self, node: &str) -> Option<(String, Vec<u8>, u8, u64)> {
        while let Some(f) = self.frame(node) {
            match f {
                PeerMessage::RetainedCommit { topic, payload, qos, seq, .. } => {
                    return Some((topic, payload, qos, seq));
                }
                PeerMessage::Interest { .. } | PeerMessage::RetainedDigest { .. } => {}
                other => panic!("unexpected frame {other:?}"),
            }
        }
        None
    }
}

fn policy() -> SweepPolicy {
    SweepPolicy {
        revoked: Vec::new(),
        peer_revoked: Vec::new(),
        missing_users: Vec::new(),
        refused: Vec::new(),
        denied: Vec::new(),
    }
}

// Sessions and who may have them.

#[test]
fn a_different_identity_cannot_resume_a_persistent_session() {
    let mut w = World::new();
    assert_eq!(w.attach_outcome("shared", "alice", 1), AttachOutcome::Present(false));
    w.detach("shared", 1);
    assert_eq!(w.attach_outcome("shared", "mallory", 2), AttachOutcome::OwnerMismatch);
    assert_eq!(w.attach_outcome("shared", "alice", 3), AttachOutcome::Present(true));
}

#[test]
fn a_different_identity_cannot_take_over_an_online_session() {
    let mut w = World::new();
    assert_eq!(w.attach_outcome("shared", "alice", 1), AttachOutcome::Present(false));
    assert_eq!(w.attach_outcome("shared", "mallory", 2), AttachOutcome::OwnerMismatch);
    assert!(!w.closed.contains(&1), "the holder keeps its connection");
    assert_eq!(w.attach_outcome("shared", "alice", 3), AttachOutcome::Present(true));
}

#[test]
fn anonymous_clients_share_one_identity_namespace() {
    let mut w = World::new();
    assert_eq!(w.attach_outcome("shared", "anonymous", 1), AttachOutcome::Present(false));
    w.detach("shared", 1);
    assert_eq!(w.attach_outcome("shared", "anonymous", 2), AttachOutcome::Present(true));
}

#[test]
fn takeover_replaces_connection_and_ignores_stale_detach() {
    let mut w = World::new();
    w.attach("c", 1, false);
    w.subscribe("c", "t");
    assert!(w.attach("c", 2, false), "persistent session is present on takeover");
    assert!(w.recv("c", 1).is_none());
    assert!(w.closed.contains(&1), "old connection must close on takeover");
    w.publish("t", b"after-takeover");
    assert_eq!(payload_of(&w.recv("c", 2).unwrap()), b"after-takeover");
    w.send(HubCommand::Detach { client: ClientId::new("c"), conn_id: 1, graceful: false });
    w.publish("t", b"still-live");
    assert_eq!(payload_of(&w.recv("c", 2).unwrap()), b"still-live");
}

#[test]
fn eviction_disconnects_the_target_and_leaves_others_undisturbed() {
    let mut w = World::new();
    w.attach("watcher", 1, true);
    w.subscribe("watcher", "wills/victim");
    let got = w.attach_as(
        "victim",
        Admission {
            identity: Identity { subject: "victim".to_string(), groups: Vec::new() },
            method: AuthMethod::Certificate,
            cert_serial: Some(vec![0x0a, 0x0b]),
            protocol: ProtocolVersion::V5,
        },
        2,
        true,
        0,
        u16::MAX,
        Some(publication("wills/victim", b"gone", QoS::AtMostOnce, false)),
    );
    assert_eq!(got, Some(AttachOutcome::Present(false)));
    w.send(HubCommand::Evict { client: ClientId::new("victim") });
    match w.recv("victim", 2) {
        Some(Packet::Disconnect { reason }) => assert_eq!(reason, 0x87),
        other => panic!("expected DISCONNECT 0x87, got {other:?}"),
    }
    assert_eq!(NOT_AUTHORIZED, 0x87);
    assert!(w.recv("victim", 2).is_none());
    assert!(w.closed.contains(&2), "the evicted connection must be closed");
    match w.recv("watcher", 1) {
        Some(Packet::Publish(p)) => {
            assert_eq!(p.topic, "wills/victim");
            assert_eq!(p.payload.to_vec(), b"gone");
        }
        other => panic!("expected the victim's will, got {other:?}"),
    }
    w.send(HubCommand::Evict { client: ClientId::new("missing") });
    w.publish("wills/victim", b"still-serving");
    assert_eq!(payload_of(&w.recv("watcher", 1).unwrap()), b"still-serving");
}

#[test]
fn evicting_a_v311_client_closes_without_a_disconnect_packet() {
    let mut w = World::new();
    w.attach("v3", 1, true);
    w.send(HubCommand::Evict { client: ClientId::new("v3") });
    assert!(w.recv("v3", 1).is_none());
    assert!(w.closed.contains(&1));
}

#[test]
fn the_identity_sweep_evicts_revoked_sessions_and_spares_the_rest() {
    let mut w = World::new();
    let by_cert = Admission {
        identity: Identity { subject: "cert-user".to_string(), groups: Vec::new() },
        method: AuthMethod::Certificate,
        cert_serial: Some(vec![0x42]),
        protocol: ProtocolVersion::V311,
    };
    w.attach_as("by-cert", by_cert, 1, true, 0, u16::MAX, None);
    w.attach_as("by-user", admission("bob"), 2, true, 0, u16::MAX, None);
    w.attach_as("by-acl", admission("evil"), 3, true, 0, u16::MAX, None);
    w.attach("keeper", 4, true);
    w.subscribe("keeper", "t");
    let report = w.hub.sweep_policy(&SweepPolicy {
        revoked: vec![vec![0x42]],
        missing_users: vec!["bob".to_string()],
        refused: vec![ClientId::new("by-acl")],
        ..policy()
    });
    w.pump();
    for conn in [1, 2, 3] {
        assert!(w.packets.get(&conn).map_or(true, VecDeque::is_empty));
        assert!(w.closed.contains(&conn), "connection {conn} must be evicted by the sweep");
    }
    w.publish("t", b"alive");
    assert_eq!(payload_of(&w.recv("keeper", 4).unwrap()), b"alive");
    let reasons: Vec<&str> = report.identities.iter().map(|(_, e)| e.as_str()).collect();
    assert_eq!(reasons, ["cert-revoked", "user-removed", "connect-denied"]);
    assert_eq!(report.identities[0].1, Eviction::CertRevoked);
    assert_eq!((report.identities.len(), report.grants.len(), report.peers.len()), (3, 0, 0));
}

#[test]
fn the_grant_sweep_removes_revoked_subscriptions_without_disconnecting() {
    let mut w = World::new();
    w.attach("reader", 1, true);
    w.subscribe("reader", "secret/#");
    w.subscribe("reader", "ok/#");
    w.publish("secret/1", b"s1");
    assert_eq!(payload_of(&w.recv("reader", 1).unwrap()), b"s1");
    w.send(HubCommand::SweepIdentities(SweepPolicy {
        denied: vec![(ClientId::new("reader"), "secret/#".to_string())],
        ..policy()
    }));
    w.publish("secret/2", b"s2");
    w.publish("ok/1", b"fine");
    assert_eq!(payload_of(&w.recv("reader", 1).unwrap()), b"fine");
    assert!(!w.closed.contains(&1));
}

#[test]
fn the_peer_sweep_ends_the_links_of_revoked_certificates() {
    let mut w = World::new();
    for (node, serial) in [("bad", 7u8), ("good", 8u8)] {
        w.send(HubCommand::PeerConnected {
            node: NodeId(node.to_string()),
            peer: Peer {
                conn_id: 1,
                cert_serial: Some(vec![serial]),
                proto: PROTO_FORWARD_ANSWERS,
            },
            ids: Vec::new(),
        });
    }
    let report = w.hub.sweep_policy(&SweepPolicy { peer_revoked: vec![vec![7]], ..policy() });
    w.pump();
    assert_eq!(report.peers.len(), 1);
    assert_eq!(w.closed_links, ["bad"]);
}

#[test]
fn a_resumed_session_loses_grants_the_current_policy_denies() {
    let mut w = World::new();
    w.attach("sleeper", 1, false);
    w.subscribe("sleeper", "secret/#");
    w.subscribe("sleeper", "ok/#");
    w.detach("sleeper", 1);
    w.publish_qos1("secret/1", b"leaked?");
    w.publish_qos1("ok/1", b"kept");
    w.denied_prefix = Some("secret/");
    assert!(w.attach("sleeper", 2, false), "the persistent session must still be present");
    assert_eq!(payload_of(&w.recv("sleeper", 2).unwrap()), b"kept");
    assert!(w.recv("sleeper", 2).is_none());
    w.publish("secret/2", b"s2");
    assert!(w.recv("sleeper", 2).is_none());
    w.publish("ok/2", b"still");
    assert_eq!(payload_of(&w.recv("sleeper", 2).unwrap()), b"still");
    let kept: Vec<&str> =
        w.store.sessions["sleeper"].subscriptions.iter().map(|(f, _)| f.as_str()).collect();
    assert_eq!(kept, ["ok/#"], "the revoked grant is gone from the store too");
}

// Shared groups.

#[test]
fn shared_selection_round_robins_local_and_remote_member() {
    let mut w = World::new();
    w.connect_peer("n", 1);
    assert!(matches!(w.frame("n"), Some(PeerMessage::Interest { .. })));
    w.attach("ra", 1, true);
    w.subscribe("ra", "$share/g/t");
    w.remote_shared("n", "g", "t", &[("rb", true)]);
    w.publish("t", b"m1");
    assert_eq!(payload_of(&w.recv("ra", 1).unwrap()), b"m1");
    w.publish("t", b"m2");
    let sent = loop {
        match w.frame("n") {
            Some(PeerMessage::SharedDeliver { client, publication }) => {
                break (client, publication.topic, publication.payload);
            }
            Some(_) => {}
            None => panic!("no delivery"),
        }
    };
    assert_eq!(sent, ("rb".to_string(), "t".to_string(), b"m2".to_vec()));
    assert!(w.recv("ra", 1).is_none(), "single delivery per publish");
}

#[test]
fn shared_selection_skips_an_offline_remote_member() {
    let mut w = World::new();
    w.connect_peer("n", 1);
    w.attach("ra", 1, true);
    w.subscribe("ra", "$share/g/t");
    w.remote_shared("n", "g", "t", &[("rb", false)]);
    w.publish("t", b"m1");
    assert_eq!(payload_of(&w.recv("ra", 1).unwrap()), b"m1");
    w.publish("t", b"m2");
    assert_eq!(payload_of(&w.recv("ra", 1).unwrap()), b"m2");
}

#[test]
fn shared_subscription_round_robins_one_member() {
    let mut w = World::new();
    w.attach("a", 1, true);
    w.attach("b", 2, true);
    w.subscribe("a", "$share/grp/t/+");
    w.subscribe("b", "$share/grp/t/+");
    w.publish("t/1", b"m1");
    w.publish("t/2", b"m2");
    assert_eq!(payload_of(&w.recv("a", 1).unwrap()), b"m1");
    assert_eq!(payload_of(&w.recv("b", 2).unwrap()), b"m2");
    assert!(w.recv("a", 1).is_none());
    assert!(w.recv("b", 2).is_none());
}

#[test]
fn ordinary_and_shared_subscriptions_are_independent() {
    let mut w = World::new();
    w.attach("o", 1, true);
    w.attach("s", 2, true);
    w.subscribe("o", "t");
    w.subscribe("s", "$share/g/t");
    w.publish("t", b"x");
    assert_eq!(payload_of(&w.recv("o", 1).unwrap()), b"x");
    assert_eq!(payload_of(&w.recv("s", 2).unwrap()), b"x");
}

#[test]
fn shared_subscription_skips_retained_messages() {
    let mut w = World::new();
    w.publish_retained("t", b"r");
    w.attach("s", 1, true);
    w.subscribe("s", "$share/g/t");
    assert!(w.recv("s", 1).is_none(), "shared subscriptions receive no retained messages");
    w.attach("o", 2, true);
    w.subscribe("o", "t");
    assert_eq!(payload_of(&w.recv("o", 2).unwrap()), b"r");
}

#[test]
fn shared_message_queues_for_offline_persistent_member() {
    let mut w = World::new();
    w.attach("a", 1, false);
    w.subscribe("a", "$share/g/t");
    w.detach("a", 1);
    w.publish("t", b"queued");
    assert!(w.attach("a", 2, false));
    assert_eq!(payload_of(&w.recv("a", 2).unwrap()), b"queued");
}

#[test]
fn shared_delivery_prefers_online_over_offline_member() {
    let mut w = World::new();
    w.attach("off", 1, false);
    w.attach("on", 2, true);
    w.subscribe("off", "$share/g/t");
    w.subscribe("on", "$share/g/t");
    w.detach("off", 1);
    w.publish("t", b"1");
    w.publish("t", b"2");
    assert_eq!(payload_of(&w.recv("on", 2).unwrap()), b"1");
    assert_eq!(payload_of(&w.recv("on", 2).unwrap()), b"2");
}

// Retained messages without a keyspace.

#[test]
fn retained_digest_is_offered_and_a_request_pulls_the_snapshot() {
    let mut w = World::new();
    w.publish_retained("t", b"r");
    w.connect_peer("n", 1);
    assert!(matches!(w.frame("n"), Some(PeerMessage::Interest { .. })));
    match w.frame("n") {
        Some(PeerMessage::RetainedDigest { count, hash, .. }) => {
            assert_eq!(count, 1);
            assert_ne!(hash, 0);
        }
        other => panic!("expected RetainedDigest, got {other:?}"),
    }
    w.send(HubCommand::RemoteRetainedRequest { node: NodeId("n".to_string()) });
    match w.frame("n") {
        Some(PeerMessage::RetainedSnapshot { messages }) => {
            assert_eq!(messages.len(), 1);
            assert_eq!(messages[0].topic, "t");
            assert_eq!(messages[0].payload, b"r");
        }
        other => panic!("expected RetainedSnapshot, got {other:?}"),
    }
}

#[test]
fn a_matching_retained_digest_skips_the_back_fill() {
    let mut w = World::new();
    w.publish_retained("t", b"r");
    w.connect_peer("n", 1);
    w.frames.clear();
    w.digest_from("n", retained_digest(&vec![number("t", b"r", 0)]));
    assert!(w.frame("n").is_none(), "matching digests must transfer nothing");
}

#[test]
fn a_differing_retained_digest_pulls_the_peers_set() {
    let mut w = World::new();
    w.publish_retained("t", b"r");
    w.connect_peer("n", 1);
    w.frames.clear();
    w.digest_from("n", retained_digest(&vec![number("t", b"r", 0), number("other", b"x", 0)]));
    assert!(matches!(w.frame("n"), Some(PeerMessage::RetainedRequest)));
}

#[test]
fn a_value_only_digest_difference_triggers_a_pull() {
    let mut w = World::new();
    w.publish_retained("t", b"ours");
    w.connect_peer("n", 1);
    w.frames.clear();
    w.digest_from("n", retained_digest(&vec![number("t", b"THEIRS", 0)]));
    assert!(matches!(w.frame("n"), Some(PeerMessage::RetainedRequest)));
}

#[test]
fn received_retained_snapshot_replays_on_subscribe() {
    let mut w = World::new();
    w.snapshot_from("n", vec![snap("room/t", b"v", 0, 0)]);
    w.attach("c", 1, true);
    w.subscribe("c", "room/t");
    assert_eq!(payload_of(&w.recv("c", 1).unwrap()), b"v");
}

#[test]
fn a_divergent_retained_value_is_detected_and_counted() {
    let mut w = World::new();
    w.publish_retained("dev/1", b"ours");
    w.publish_retained("dev/same", b"agreed");
    let mut asked = Vec::new();
    let diverged = w.hub.retained.apply_retained_snapshot(
        vec![
            snap("dev/1", b"theirs", 0, 0),
            snap("dev/same", b"agreed", 0, 0),
            snap("dev/new", b"x", 0, 0),
        ],
        &mut asked,
    );
    assert!(asked.is_empty(), "there is no store to ask");
    assert_eq!(diverged, 1, "one divergent topic must count exactly once");
    assert_eq!(w.retained_replay("c", "dev/1").unwrap(), b"ours");
    assert_eq!(w.retained_replay("d", "dev/new").unwrap(), b"x");
}

#[test]
fn retained_snapshot_does_not_overwrite_existing() {
    let mut w = World::new();
    w.publish_retained("t", b"local");
    w.snapshot_from("n", vec![snap("t", b"peer-stale", 0, 0)]);
    w.attach("c", 1, true);
    w.subscribe("c", "t");
    assert_eq!(payload_of(&w.recv("c", 1).unwrap()), b"local");
}

#[test]
fn stored_retained_messages_are_taken_over() {
    let mut w = World::new();
    let kept = |payload: &[u8]| Message {
        topic: "t".to_string(),
        payload: Payload::from_vec(payload.to_vec()),
        qos: QoS::AtLeastOnce,
        retain: true,
        app: Arc::new(AppProperties::none()),
        expires_at: None,
    };
    w.hub.attach_retained_store(vec![kept(b"old"), kept(b"new")]);
    assert_eq!(w.retained_replay("c", "t").unwrap(), b"new");
    assert_eq!(w.hub.gauges().retained_messages, 1);
}

#[test]
fn a_retained_publish_is_accepted_once_the_store_has_it() {
    let mut w = World::backed();
    w.writes_held = true;
    let t = w.publish_from(publication("t", b"v", QoS::AtLeastOnce, true), true);
    assert_eq!(w.writes.len(), 1);
    assert_eq!(w.published.get(&t), None, "the store has not answered");
    assert!(w.retained_replay("a", "t").is_none(), "nor is the message kept before it has");
    w.release_writes();
    assert_eq!(w.published[&t], PublishOutcome::Accepted);
    assert_eq!(w.retained["t"], b"v");
    assert_eq!(w.retained_replay("b", "t").unwrap(), b"v");
}

#[test]
fn a_publisher_content_with_less_waits_for_the_store_too() {
    let mut w = World::backed();
    w.writes_held = true;
    let token = w.fresh_token();
    w.send(HubCommand::Publish {
        publication: publication("t", b"v", QoS::AtLeastOnce, true),
        publisher: None,
        done: Some(token),
        v5: true,
        relaxed: true,
    });
    assert_eq!(w.published.get(&token), None);
    w.release_writes();
    assert_eq!(w.published[&token], PublishOutcome::Accepted);
}

#[test]
fn a_failed_retained_write_is_not_acknowledged_and_keeps_the_old_message() {
    let mut w = World::backed();
    let first = w.publish_from(publication("t", b"old", QoS::AtLeastOnce, true), true);
    assert_eq!(w.published[&first], PublishOutcome::Accepted);
    w.retained_down = true;
    let t = w.publish_from(publication("t", b"new", QoS::AtLeastOnce, true), true);
    assert_eq!(w.published.get(&t), None);
    assert!(w.withheld.contains(&t));
    let cleared = w.publish_from(publication("t", b"", QoS::AtLeastOnce, true), true);
    assert!(w.withheld.contains(&cleared), "a clear that failed is not acknowledged either");
    assert_eq!(w.retained_replay("a", "t").unwrap(), b"old");
    w.retained_down = false;
    let again = w.publish_from(publication("t", b"new", QoS::AtLeastOnce, true), true);
    assert_eq!(w.published[&again], PublishOutcome::Accepted);
    assert_eq!(w.retained_replay("b", "t").unwrap(), b"new");
}

#[test]
fn subscribers_hear_a_retained_publish_whose_write_fails() {
    let mut w = World::backed();
    w.attach("c", 1, true);
    w.subscribe("c", "t");
    w.retained_down = true;
    w.publish_retained("t", b"v");
    assert_eq!(payload_of(&w.recv("c", 1).unwrap()), b"v");
    assert!(w.retained_replay("d", "t").is_none());
}

#[test]
fn an_answer_of_the_store_counts_once() {
    let mut w = World::backed();
    w.writes_held = true;
    let t = w.publish_from(publication("t", b"v", QoS::AtLeastOnce, true), true);
    let write = w.writes.pop_front().expect("a write");
    let owed = match &write.owed {
        AppendThen::Gate(id) => AppendThen::Gate(*id),
        other => panic!("nobody is owed an answer: {other:?}"),
    };
    let repeated = RetainedWrite { message: write.message.clone(), owed };
    w.send(HubCommand::RetainedStored { write, ok: true });
    assert_eq!(w.published[&t], PublishOutcome::Accepted);
    w.send(HubCommand::RetainedStored { write: repeated, ok: false });
    assert!(!w.withheld.contains(&t));
    assert_eq!(w.hub.ledger.entries.len(), 0);
}

#[test]
fn every_retained_change_reaches_the_store() {
    let mut w = World::backed();
    w.publish_retained("quiet", b"1");
    w.snapshot_from("n", vec![snap("snapshot", b"2", 0, 0), snap("quiet", b"other", 0, 0)]);
    w.update("update", b"3", 1, 1);
    let mut will = publication("will", b"4", QoS::AtMostOnce, true);
    will.message_expiry = None;
    w.attach_as("dying", admission("dying"), 1, true, 0, u16::MAX, Some(will));
    w.send(HubCommand::Detach { client: ClientId::new("dying"), conn_id: 1, graceful: false });
    let mut topics: Vec<(&str, &[u8])> =
        w.retained.iter().map(|(t, p)| (t.as_str(), p.as_slice())).collect();
    topics.sort();
    assert_eq!(
        topics,
        [
            ("quiet", b"1".as_slice()),
            ("snapshot", b"2".as_slice()),
            ("update", b"3".as_slice()),
            ("will", b"4".as_slice()),
        ]
    );
    w.update("update", b"", 1, 2);
    w.publish_retained("quiet", b"");
    assert_eq!(w.retained.len(), 2, "cleared topics leave the store");
    assert_eq!(w.hub.gauges().retained_messages, 2);
}

#[test]
fn brownout_is_shown_where_it_begins_and_ends() {
    let mut w = World::new();
    for (axis, on) in [
        (BrownoutAxis::Disk, true),
        (BrownoutAxis::Disk, true),
        (BrownoutAxis::Memory, true),
        (BrownoutAxis::Disk, false),
        (BrownoutAxis::Memory, false),
        (BrownoutAxis::Memory, false),
    ] {
        w.send(HubCommand::SetBrownout { axis, on });
    }
    assert_eq!(w.brownouts, [true, false], "only where the whole of it changed");
    assert_eq!(
        w.axes,
        [
            (BrownoutAxis::Disk, true),
            (BrownoutAxis::Disk, true),
            (BrownoutAxis::Memory, true),
            (BrownoutAxis::Disk, false),
            (BrownoutAxis::Memory, false),
            (BrownoutAxis::Memory, false),
        ],
        "the gauge of a resource at every call"
    );
}

#[test]
fn what_is_recorded_while_a_client_attaches_is_replayed() {
    let mut w = World::new();
    w.attach("c", 1, false);
    w.subscribe_qos("c", "t", QoS::AtLeastOnce);
    w.detach("c", 1);
    w.publish_qos1("t", b"before");
    w.attaches_held = true;
    assert_eq!(w.attach_as("c", admission("c"), 2, false, u32::MAX, u16::MAX, None), None);
    assert_eq!(w.fetched.len(), 1, "the session was fetched, and is not taken up yet");
    let t = w.publish_from(publication("t", b"during", QoS::AtLeastOnce, false), true);
    assert_eq!(w.published[&t], PublishOutcome::Accepted, "it is in the store");
    w.release_attaches();
    w.publish_qos1("t", b"after");
    let mut ids = Vec::new();
    for m in [b"before".as_slice(), b"during", b"after"] {
        let p = w.recv("c", 2).expect("a message");
        assert_eq!(payload_of(&p), m);
        ids.push(pkid_of(&p));
    }
    assert!(w.recv("c", 2).is_none(), "and each of them once");
    w.send(HubCommand::PubAck { client: ClientId::new("c"), pkid: ids[2] });
    w.send(HubCommand::PubAck { client: ClientId::new("c"), pkid: ids[0] });
    assert_eq!(w.store.sessions["c"].queue.len(), 2, "kept from what is not acknowledged on");
    w.send(HubCommand::PubAck { client: ClientId::new("c"), pkid: ids[1] });
    assert!(w.store.sessions["c"].queue.is_empty());
}

#[test]
fn what_is_recorded_on_a_connection_that_is_taken_over_is_replayed_on_the_next() {
    let mut w = World::new();
    w.attach("c", 1, false);
    w.subscribe_qos("c", "t", QoS::AtLeastOnce);
    w.attaches_held = true;
    assert_eq!(w.attach_as("c", admission("c"), 2, false, u32::MAX, u16::MAX, None), None);
    w.publish_qos1("t", b"m");
    assert!(w.recv("c", 1).is_none(), "the replay of the next connection is to send it");
    w.release_attaches();
    assert_eq!(payload_of(&w.recv("c", 2).unwrap()), b"m");
    assert!(w.recv("c", 2).is_none());
}

#[test]
fn what_was_revoked_is_gone_from_the_store_though_the_hub_is_new() {
    let mut w = World::new();
    let s = w.store.sessions.entry("c".to_string()).or_default();
    s.subscriptions = vec![
        ("open/t".to_string(), QoS::AtLeastOnce),
        ("secret/t".to_string(), QoS::AtLeastOnce),
    ];
    w.denied_prefix = Some("secret");
    assert!(w.attach("c", 1, false));
    assert_eq!(
        w.store.sessions["c"].subscriptions,
        [("open/t".to_string(), QoS::AtLeastOnce)],
        "the revocation outlasts the hub"
    );
}

#[test]
fn a_queue_is_replayed_in_order_under_fresh_packet_ids() {
    let mut w = World::new();
    w.attach("c", 1, false);
    w.subscribe_qos("c", "t", QoS::AtLeastOnce);
    w.detach("c", 1);
    for m in [b"m1", b"m2", b"m3"] {
        w.publish_qos1("t", m);
    }
    assert!(w.attach("c", 2, false));
    let mut ids = Vec::new();
    for m in [b"m1", b"m2", b"m3"] {
        let p = w.recv("c", 2).expect("a queued message");
        assert_eq!(payload_of(&p), m);
        ids.push(pkid_of(&p));
    }
    assert_eq!(ids[1], ids[0] + 1);
    assert_eq!(ids[2], ids[1] + 1);
    assert!(w.recv("c", 2).is_none());
}

#[test]
fn a_queue_waits_for_the_record_of_its_first_exactly_once_message() {
    let mut w = World::new();
    w.attach("c", 1, false);
    w.subscribe_qos("c", "t", QoS::ExactlyOnce);
    w.detach("c", 1);
    w.publish_quietly(publication("t", b"m1", QoS::ExactlyOnce, false));
    w.publish_quietly(publication("t", b"m2", QoS::ExactlyOnce, false));
    w.lanes_held = true;
    assert!(w.attach("c", 2, false));
    assert!(w.recv("c", 2).is_none(), "the first message is not recorded yet");
    w.release_lanes();
    assert_eq!(payload_of(&w.recv("c", 2).unwrap()), b"m1");
    assert_eq!(payload_of(&w.recv("c", 2).unwrap()), b"m2");
}

#[test]
fn a_queue_of_many_kinds_is_replayed_in_order() {
    let mut w = World::new();
    w.attach("c", 1, false);
    w.subscribe_qos("c", "t", QoS::ExactlyOnce);
    w.detach("c", 1);
    w.publish_qos1("t", b"m1");
    w.publish_quietly(publication("t", b"m2", QoS::ExactlyOnce, false));
    w.publish_qos1("t", b"m3");
    w.lanes_held = true;
    assert!(w.attach("c", 2, false));
    assert_eq!(payload_of(&w.recv("c", 2).unwrap()), b"m1");
    assert!(w.recv("c", 2).is_none(), "the second message is not recorded yet");
    w.release_lanes();
    assert_eq!(payload_of(&w.recv("c", 2).unwrap()), b"m2");
    assert_eq!(payload_of(&w.recv("c", 2).unwrap()), b"m3");
}

#[test]
fn a_subscriber_without_a_lasting_session_hears_at_once_under_a_packet_id() {
    let mut w = World::new();
    w.attach("c", 1, true);
    w.subscribe_qos("c", "t", QoS::ExactlyOnce);
    w.publish_qos1("t", b"one");
    w.publish_quietly(publication("t", b"two", QoS::ExactlyOnce, false));
    let first = w.recv("c", 1).unwrap();
    let second = w.recv("c", 1).unwrap();
    assert_eq!((payload_of(&first), payload_of(&second)), (b"one".to_vec(), b"two".to_vec()));
    assert_eq!(pkid_of(&second), pkid_of(&first) + 1);
}

#[test]
fn an_empty_retained_publish_clears_the_topic() {
    let mut w = World::new();
    w.publish_retained("t", b"v");
    assert_eq!(w.retained_replay("a", "t").unwrap(), b"v");
    w.publish_retained("t", b"");
    assert!(w.retained_replay("b", "t").is_none());
}

// Other nodes.

#[test]
fn peer_dead_drops_routing_and_stale_peer_disconnect_is_ignored() {
    let mut w = World::new();
    w.connect_peer("n", 1);
    assert!(matches!(w.frame("n"), Some(PeerMessage::Interest { .. })));
    w.remote_interest("n", &["t/#"]);
    w.publish("t/x", b"1");
    assert!(matches!(w.frame("n"), Some(PeerMessage::Publish(_))));
    w.send(HubCommand::PeerDead { node: NodeId("n".to_string()) });
    assert_eq!(w.closed_links, ["n"]);
    w.publish("t/x", b"nobody");
    assert!(w.frame("n").is_none());
    w.connect_peer("n", 2);
    assert!(matches!(w.frame("n"), Some(PeerMessage::Interest { .. })));
    w.remote_interest("n", &["t/#"]);
    w.send(HubCommand::PeerDisconnected { node: NodeId("n".to_string()), conn_id: 1 });
    w.publish("t/y", b"2");
    assert!(matches!(w.frame("n"), Some(PeerMessage::Publish(_))));
}

#[test]
fn forwarded_publish_carries_message_expiry() {
    let mut w = World::new();
    w.connect_peer("n1", 1);
    w.frames.clear();
    w.remote_interest("n1", &["a/#"]);
    w.publish_expiring("a/x", b"ttl", 45);
    match w.frame("n1") {
        Some(PeerMessage::Publish(p)) => {
            assert_eq!(p.topic, "a/x");
            assert_eq!(p.message_expiry, Some(45));
        }
        other => panic!("expected forwarded Publish, got {other:?}"),
    }
}

#[test]
fn publishes_forward_only_to_peers_with_matching_interest() {
    let mut w = World::new();
    w.connect_peer("n1", 1);
    w.connect_peer("n2", 2);
    w.frames.clear();
    w.remote_interest("n1", &["a/+/b"]);
    w.remote_interest("n2", &["x/#"]);
    w.publish("a/q/b", b"to-n1");
    match w.frame("n1") {
        Some(PeerMessage::Publish(p)) => assert_eq!(p.topic, "a/q/b"),
        other => panic!("n1 should receive the publish, got {other:?}"),
    }
    w.publish("x/1", b"to-n2");
    match w.frame("n2") {
        Some(PeerMessage::Publish(p)) => assert_eq!(p.topic, "x/1"),
        other => panic!("n2 should receive the publish, got {other:?}"),
    }
    w.send(HubCommand::RemotePublish {
        publication: publication("x/2", b"no-relay", QoS::AtMostOnce, false),
    });
    assert!(w.frame("n2").is_none(), "remote publish relayed");
    assert!(w.frame("n1").is_none(), "n1 got a non-matching publish");
}

#[test]
fn interest_snapshots_follow_subscription_changes() {
    let mut w = World::new();
    w.connect_peer("n", 1);
    match w.frame("n") {
        Some(PeerMessage::Interest { filters }) => assert!(filters.is_empty()),
        other => panic!("expected the initial snapshot, got {other:?}"),
    }
    w.attach("g", 1, true);
    w.frames.clear();
    w.subscribe("g", "g/1");
    match w.frame("n") {
        Some(PeerMessage::Interest { filters }) => assert_eq!(filters, vec!["g/1"]),
        other => panic!("expected updated interest, got {other:?}"),
    }
    w.send(HubCommand::Unsubscribe {
        client: ClientId::new("g"),
        filters: vec!["g/1".to_string()],
    });
    match w.frame("n") {
        Some(PeerMessage::Interest { filters }) => assert!(filters.is_empty()),
        other => panic!("expected emptied interest, got {other:?}"),
    }
    w.subscribe("g", "g/2");
    w.frame("n");
    w.detach("g", 1);
    match w.frame("n") {
        Some(PeerMessage::Interest { filters }) => assert!(filters.is_empty()),
        other => panic!("expected post-detach interest, got {other:?}"),
    }
}

// The queue of a session.

#[test]
fn offline_messages_queue_only_for_persistent_sessions() {
    let mut w = World::new();
    assert!(!w.attach("p", 1, false));
    w.subscribe("p", "q/1");
    w.detach("p", 1);
    w.publish("q/1", b"first");
    w.publish("q/1", b"second");
    assert!(w.attach("p", 2, false));
    assert_eq!(payload_of(&w.recv("p", 2).unwrap()), b"first");
    assert_eq!(payload_of(&w.recv("p", 2).unwrap()), b"second");
    w.attach("c", 3, true);
    w.subscribe("c", "q/2");
    w.detach("c", 3);
    w.publish("q/2", b"lost");
    assert!(!w.attach("c", 4, true));
    assert!(w.recv("c", 4).is_none());
}

#[test]
fn live_delivery_carries_message_expiry_interval() {
    let mut w = World::new();
    w.attach("s", 1, true);
    w.subscribe("s", "t");
    w.publish_expiring("t", b"hi", 120);
    let p = w.recv("s", 1).unwrap();
    assert_eq!(payload_of(&p), b"hi");
    assert_eq!(expiry_of(&p), Some(120));
}

#[test]
fn expired_queued_message_is_dropped_at_replay() {
    let mut w = World::new();
    w.attach("p", 1, false);
    w.subscribe("p", "t");
    w.detach("p", 1);
    w.publish_expiring("t", b"stale", 0);
    w.publish_expiring("t", b"fresh", 3600);
    w.attach("p", 2, false);
    assert_eq!(payload_of(&w.recv("p", 2).unwrap()), b"fresh");
    assert!(w.recv("p", 2).is_none(), "only the still-fresh message replays");
}

#[test]
fn queued_message_expires_once_its_interval_elapses() {
    let mut w = World::new();
    w.attach("p", 1, false);
    w.subscribe("p", "t");
    w.detach("p", 1);
    w.publish_expiring("t", b"q", 10);
    w.now += 11;
    w.attach("p", 2, false);
    assert!(w.recv("p", 2).is_none());
}

#[test]
fn queued_message_survives_while_its_interval_remains() {
    let mut w = World::new();
    w.attach("p", 1, false);
    w.subscribe("p", "t");
    w.detach("p", 1);
    w.publish_expiring("t", b"q", 10);
    w.now += 3;
    w.attach("p", 2, false);
    let p = w.recv("p", 2).unwrap();
    assert_eq!(payload_of(&p), b"q");
    assert_eq!(expiry_of(&p), Some(7), "what is left of the interval goes with the message");
}

#[test]
fn replayed_message_forwards_remaining_expiry_interval() {
    let mut w = World::new();
    w.attach("p", 1, false);
    w.subscribe("p", "t");
    w.detach("p", 1);
    w.publish_expiring("t", b"q", 3600);
    w.attach("p", 2, false);
    let p = w.recv("p", 2).unwrap();
    assert_eq!(payload_of(&p), b"q");
    let remaining = expiry_of(&p).expect("a forwarded expiry interval");
    assert!(remaining > 0 && remaining <= 3600, "remaining interval within bounds: {remaining}");
}

#[test]
fn a_failed_offline_enqueue_withholds_the_publishers_ack() {
    let mut w = World::new();
    w.store.enqueue_fails = true;
    w.attach("p", 1, false);
    w.subscribe("p", "fc/t");
    w.detach("p", 1);
    let token = w.publish_from(publication("fc/t", b"x", QoS::AtLeastOnce, false), false);
    assert!(w.withheld.contains(&token), "the ack must be withheld when the enqueue fails");
    assert!(!w.published.contains_key(&token));
}

#[test]
fn an_enqueue_that_succeeds_frees_the_publishers_ack() {
    let mut w = World::new();
    w.attach("p", 1, false);
    w.subscribe_qos("p", "t", QoS::AtLeastOnce);
    w.detach("p", 1);
    w.lanes_held = true;
    let token = w.publish_from(publication("t", b"x", QoS::AtLeastOnce, false), false);
    assert!(!w.published.contains_key(&token), "nothing is recorded yet");
    w.release_lanes();
    assert_eq!(w.published.get(&token), Some(&PublishOutcome::Accepted));
    assert_eq!(w.store.sessions["p"].queue.len(), 1);
}

#[test]
fn brownout_refuses_growth_and_recovery_restores_it() {
    let mut w = World::new();
    w.attach("sleeper", 1, false);
    w.subscribe("sleeper", "b/q");
    w.detach("sleeper", 1);
    let mut keep = |w: &mut World, topic: &str, payload: &[u8]| {
        let t = w.publish_from(publication(topic, payload, QoS::AtMostOnce, true), true);
        w.published[&t]
    };
    assert_eq!(keep(&mut w, "b/r1", b"v1"), PublishOutcome::Accepted);
    w.send(HubCommand::SetBrownout { axis: BrownoutAxis::Disk, on: true });
    assert_eq!(keep(&mut w, "b/r2", b"nope"), PublishOutcome::RetainedQuotaExceeded);
    assert_eq!(w.attach_outcome("stranger", "stranger", 2), AttachOutcome::QuotaExceeded);
    w.publish_qos1("b/q", b"browned-out");
    assert_eq!(keep(&mut w, "b/r1", b"v2"), PublishOutcome::Accepted);
    assert_eq!(w.attach_outcome("sleeper", "sleeper", 3), AttachOutcome::Present(true));
    w.detach("sleeper", 3);
    w.send(HubCommand::SetBrownout { axis: BrownoutAxis::Disk, on: false });
    assert_eq!(keep(&mut w, "b/r2", b"now"), PublishOutcome::Accepted);
    assert_eq!(w.attach_outcome("stranger", "stranger", 4), AttachOutcome::Present(false));
    w.publish_qos1("b/q", b"kept");
    assert!(w.attach("sleeper", 5, false));
    assert_eq!(payload_of(&w.recv("sleeper", 5).unwrap()), b"kept");
    assert!(w.recv("sleeper", 5).is_none(), "the browned-out message was not queued");
}

#[test]
fn receive_maximum_holds_excess_until_acked() {
    let mut w = World::new();
    w.attach_full("c", 1, true, 0, 1);
    w.subscribe_qos("c", "t", QoS::AtLeastOnce);
    w.publish_qos1("t", b"m1");
    w.publish_qos1("t", b"m2");
    let p1 = w.recv("c", 1).unwrap();
    assert_eq!(payload_of(&p1), b"m1");
    assert!(w.recv("c", 1).is_none(), "the second publish is held until the quota frees");
    w.send(HubCommand::PubAck { client: ClientId::new("c"), pkid: pkid_of(&p1) });
    assert_eq!(payload_of(&w.recv("c", 1).unwrap()), b"m2");
}

#[test]
fn qos0_is_not_subject_to_receive_maximum() {
    let mut w = World::new();
    w.attach_full("c", 1, true, 0, 1);
    w.subscribe_qos("c", "t", QoS::AtLeastOnce);
    w.publish_qos1("t", b"q1");
    assert_eq!(payload_of(&w.recv("c", 1).unwrap()), b"q1");
    w.publish("t", b"zero");
    assert_eq!(payload_of(&w.recv("c", 1).unwrap()), b"zero");
}

#[test]
fn quota_backlog_spills_to_store_on_persistent_detach() {
    let mut w = World::new();
    w.attach_full("c", 1, false, u32::MAX, 1);
    w.subscribe_qos("c", "t", QoS::AtLeastOnce);
    w.publish_qos1("t", b"m1");
    w.publish_qos1("t", b"m2");
    assert_eq!(payload_of(&w.recv("c", 1).unwrap()), b"m1");
    w.detach("c", 1);
    assert!(w.attach_full("c", 2, false, u32::MAX, 8));
    assert_eq!(payload_of(&w.recv("c", 2).unwrap()), b"m1", "resumed first");
    assert_eq!(payload_of(&w.recv("c", 2).unwrap()), b"m2", "then what waited");
}

#[test]
fn clean_session_attach_wipes_prior_persistent_state() {
    let mut w = World::new();
    w.attach("w", 1, false);
    w.subscribe("w", "w/t");
    w.detach("w", 1);
    assert!(!w.attach("w", 2, true), "clean attach must not report a session");
    w.detach("w", 2);
    w.publish("w/t", b"gone");
    assert!(!w.attach("w", 3, false), "the persistent session was wiped");
    assert!(w.recv("w", 3).is_none(), "nothing was queued");
}

#[test]
fn session_expiry_zero_discards_at_disconnect() {
    let mut w = World::new();
    w.attach_full("z", 1, false, 0, u16::MAX);
    w.subscribe("z", "z/t");
    w.detach("z", 1);
    w.publish("z/t", b"lost");
    assert!(!w.attach_full("z", 2, false, 0, u16::MAX));
    assert!(w.recv("z", 2).is_none(), "nothing was queued");
}

#[test]
fn session_expiry_finite_retains_then_expires() {
    let mut w = World::new();
    w.attach_full("e", 1, false, 1, u16::MAX);
    w.subscribe("e", "e/t");
    w.detach("e", 1);
    w.publish("e/t", b"m");
    w.now += 3;
    w.tick();
    assert!(!w.attach_full("e", 2, false, 1, u16::MAX), "the session must have expired");
    assert!(w.recv("e", 2).is_none(), "the expired session's queue is gone");
}

#[test]
fn session_expiry_reconnect_cancels_expiry() {
    let mut w = World::new();
    w.attach_full("r", 1, false, 100, u16::MAX);
    w.subscribe("r", "r/t");
    w.detach("r", 1);
    w.publish("r/t", b"kept");
    w.now += 5;
    w.tick();
    assert!(w.attach_full("r", 2, false, 100, u16::MAX));
    assert_eq!(payload_of(&w.recv("r", 2).unwrap()), b"kept");
    w.now += 200;
    w.tick();
    w.publish("r/t", b"still-here");
    assert_eq!(payload_of(&w.recv("r", 2).unwrap()), b"still-here");
}

#[test]
fn inherited_session_expiry_is_swept_after_takeover() {
    let mut w = World::new();
    w.store.sessions.insert(
        "orphan".to_string(),
        Stored { expiry: Some(1_000_050), ..Stored::default() },
    );
    for _ in 0..(EXPIRY_RECONCILE_EVERY + 2) {
        w.tick();
    }
    assert!(w.store.sessions.contains_key("orphan"), "kept before the deadline");
    w.now += 100;
    w.tick();
    assert!(!w.store.sessions.contains_key("orphan"), "expired at the original deadline");
}

#[test]
fn outbound_packet_ids_resume_past_the_durable_high_water() {
    let mut w = World::new();
    w.store
        .sessions
        .insert("sub".to_string(), Stored { packet_ids: 5000, ..Stored::default() });
    w.attach_full("sub", 1, false, 100, u16::MAX);
    w.subscribe_qos("sub", "t", QoS::AtLeastOnce);
    w.publish_qos1("t", b"m");
    let pkid = pkid_of(&w.recv("sub", 1).unwrap());
    assert!(pkid > 5000, "packet id {pkid} resumed past the inherited high-water");
}

#[test]
fn replay_is_bounded_and_resumes_on_next_connect() {
    let mut w = World::new();
    w.attach("r", 1, false);
    w.subscribe("r", "rl");
    w.detach("r", 1);
    for _ in 0..(REPLAY_LIMIT + 2) {
        w.publish("rl", b"m");
    }
    w.attach("r", 2, false);
    let mut replayed = 0;
    while w.recv("r", 2).is_some() {
        replayed += 1;
    }
    assert_eq!(replayed, REPLAY_LIMIT);
    w.detach("r", 2);
    w.attach("r", 3, false);
    let mut rest = 0;
    while w.recv("r", 3).is_some() {
        rest += 1;
    }
    assert_eq!(rest, 2, "unreplayed tail must survive for the next connect");
}

#[test]
fn offline_queue_is_bounded_and_replays_newest() {
    let mut w = World::new();
    w.store.queue_cap = Some(3);
    w.attach("p", 1, false);
    w.subscribe("p", "t");
    w.detach("p", 1);
    for n in [b"m1", b"m2", b"m3", b"m4", b"m5"] {
        w.publish("t", n);
    }
    assert!(w.attach("p", 2, false));
    let mut got: Vec<Vec<u8>> = Vec::new();
    while let Some(p) = w.recv("p", 2) {
        got.push(payload_of(&p));
    }
    assert_eq!(got, vec![b"m3".to_vec(), b"m4".to_vec(), b"m5".to_vec()]);
}

// A store that is not there.

#[test]
fn transient_lease_does_not_downgrade_a_persistent_attach() {
    let mut w = World::new();
    w.store.failing_claims = 3;
    assert_eq!(w.attach_outcome("c", "c", 1), AttachOutcome::Present(false));
    w.detach("c", 1);
    assert_eq!(w.attach_outcome("c", "c", 2), AttachOutcome::Present(true));
}

#[test]
fn permanently_unavailable_store_rejects_rather_than_downgrades() {
    let mut w = World::new();
    w.store.failing_claims = usize::MAX;
    assert_eq!(w.attach_outcome("c", "c", 1), AttachOutcome::Unavailable);
}

#[test]
fn recovery_wait_does_not_block_the_hub_loop() {
    let mut w = World::new();
    w.hub.dispatch(HubCommand::Attach {
        pending: PendingAttach {
            client: ClientId::new("a"),
            admission: admission("a"),
            conn_id: 1,
            session_expiry: u32::MAX,
            receive_maximum: u16::MAX,
            will: None,
            reply: 101,
        },
        clean_start: false,
    });
    let fetch = w.hub.take_effects();
    assert!(matches!(fetch[..], [Effect::Recover { .. }]));
    assert!(!w.attach("b", 2, true), "clean attach has no prior session");
    assert!(!w.attached.contains_key(&101), "the unresolved recovery must still be pending");
    for e in fetch {
        w.perform(e);
    }
    w.pump();
    assert_eq!(w.attached.get(&101), Some(&AttachOutcome::Present(false)));
}

#[test]
fn overlapping_connects_are_last_writer_wins() {
    let mut w = World::new();
    assert!(matches!(w.attach_outcome("c", "c", 1), AttachOutcome::Present(_)));
    assert!(matches!(w.attach_outcome("c", "c", 2), AttachOutcome::Present(_)));
    w.detach("c", 1);
    assert_eq!(w.attach_outcome("c", "c", 3), AttachOutcome::Present(true));
}

#[test]
fn a_fetch_that_was_overtaken_is_dropped() {
    let mut w = World::new();
    let pending = |conn_id: u64, reply: u64| PendingAttach {
        client: ClientId::new("c"),
        admission: admission("c"),
        conn_id,
        session_expiry: u32::MAX,
        receive_maximum: u16::MAX,
        will: None,
        reply,
    };
    w.hub.dispatch(HubCommand::Attach { pending: pending(1, 101), clean_start: false });
    w.hub.dispatch(HubCommand::Attach { pending: pending(2, 102), clean_start: false });
    let fetches = w.hub.take_effects();
    assert_eq!(fetches.len(), 2);
    for e in fetches.into_iter().rev() {
        w.perform(e);
    }
    w.pump();
    assert_eq!(w.attached.get(&102), Some(&AttachOutcome::Present(false)));
    assert!(!w.attached.contains_key(&101), "the older attach is told nothing");
    assert!(w.closed.contains(&1));
    assert_eq!(w.hub.conn_of(&ClientId::new("c")), Some(2));
}

// Retained messages that are committed.

#[test]
fn a_local_retained_publish_commits_to_the_durable_keyspace() {
    let mut w = World::durable(&[], &[("dev/1/state", "hub-test")]);
    w.attach("s", 1, true);
    w.subscribe("s", "dev/1/state");
    w.publish_retained("dev/1/state", b"open");
    assert_eq!(payload_of(&w.recv("s", 1).unwrap()), b"open");
    assert_eq!(w.keyspace["dev/1/state"], (b"open".to_vec(), 0, (0, 1)));
    w.publish_retained("dev/1/state", b"");
    assert_eq!(w.keyspace["dev/1/state"], (Vec::new(), 0, (0, 2)));
}

#[test]
fn a_foreign_topics_retained_publish_routes_the_commit_to_its_owner() {
    let mut w = World::durable(&["n"], &[("dev/7/state", "n")]);
    w.connect_peer("n", 1);
    w.remote_interest("n", &["dev/7/state"]);
    w.publish_quietly(publication("dev/7/state", b"v", QoS::AtLeastOnce, true));
    let mut saw_forward = false;
    loop {
        match w.frame("n") {
            Some(PeerMessage::Publish(p)) => saw_forward = p.retain,
            Some(PeerMessage::RetainedCommit { topic, payload, qos, .. }) => {
                assert_eq!(topic, "dev/7/state");
                assert_eq!(payload, b"v");
                assert_eq!(qos, 1);
                break;
            }
            Some(PeerMessage::Interest { .. } | PeerMessage::RetainedDigest { .. }) => {}
            other => panic!("unexpected frame {other:?}"),
        }
    }
    assert!(saw_forward, "the interested peer still gets the live forward");
    assert!(w.keyspace.is_empty());
}

#[test]
fn a_remote_retained_commit_is_committed_by_the_owner() {
    let mut w = World::durable(&[], &[("dev/9/state", "hub-test")]);
    w.routed_commit("n", "dev/9/state", b"shut", 1, 1);
    assert_eq!(w.keyspace["dev/9/state"], (b"shut".to_vec(), 1, (0, 1)));
    w.routed_commit("n", "dev/9/state", b"", 0, 2);
    assert_eq!(w.keyspace["dev/9/state"], (Vec::new(), 0, (0, 2)));
}

#[test]
fn a_remote_retained_update_applies_monotonically_per_topic() {
    let mut w = World::durable(&[], &[]);
    w.update("t", b"v1", 1, 1);
    assert_eq!(w.retained_replay("c1", "t").unwrap(), b"v1");
    w.update("t", b"v3", 1, 3);
    assert_eq!(w.retained_replay("c2", "t").unwrap(), b"v3");
    w.update("t", b"v2", 1, 2);
    assert_eq!(w.retained_replay("c3", "t").unwrap(), b"v3");
    w.update("t", b"dup", 1, 3);
    assert_eq!(w.retained_replay("c4", "t").unwrap(), b"v3");
    w.update("t", b"new-owner", 2, 1);
    assert_eq!(w.retained_replay("c5", "t").unwrap(), b"new-owner");
}

#[test]
fn a_stale_value_cannot_resurrect_a_committed_clear() {
    let mut w = World::durable(&[], &[]);
    w.update("t", b"v", 1, 4);
    assert_eq!(w.retained_replay("c1", "t").unwrap(), b"v");
    w.update("t", b"", 1, 5);
    assert!(w.retained_replay("c2", "t").is_none());
    w.update("t", b"zombie", 1, 4);
    assert!(w.retained_replay("c3", "t").is_none());
}

#[test]
fn a_committed_retained_publish_fans_out_with_its_token() {
    let mut w = World::durable(&[], &[("t", "hub-test")]);
    w.connect_peer("n", 1);
    assert!(matches!(w.frame("n"), Some(PeerMessage::Interest { .. })));
    w.publish_retained("t", b"v");
    match w.frame("n") {
        Some(PeerMessage::RetainedUpdate { topic, payload, qos, epoch, offset, .. }) => {
            assert_eq!(topic, "t");
            assert_eq!(payload, b"v");
            assert_eq!(qos, 0);
            assert_eq!((epoch, offset), (0, 1));
        }
        other => panic!("expected the tokened RetainedUpdate, got {other:?}"),
    }
    assert_eq!(w.retained_replay("late", "t").unwrap(), b"v");
}

#[test]
fn the_raw_broadcast_no_longer_warms_caches_under_durable() {
    let mut w = World::durable(&[], &[]);
    w.attach("live", 1, true);
    w.subscribe("live", "t");
    w.send(HubCommand::RemotePublish {
        publication: publication("t", b"x", QoS::AtMostOnce, true),
    });
    assert_eq!(payload_of(&w.recv("live", 1).unwrap()), b"x");
    assert!(w.retained_replay("late", "t").is_none());
}

#[test]
fn back_fill_takes_the_higher_token_value_per_topic() {
    let mut w = World::durable(&[], &[]);
    w.update("t", b"ours", 1, 2);
    w.snapshot_from("n", vec![snap("t", b"newer", 1, 5)]);
    assert_eq!(w.retained_replay("c1", "t").unwrap(), b"newer");
    w.snapshot_from("n", vec![snap("t", b"old", 1, 3)]);
    assert_eq!(w.retained_replay("c2", "t").unwrap(), b"newer");
}

#[test]
fn a_committed_clear_back_fills_as_a_tombstone_and_fences() {
    let mut w = World::durable(&[], &[]);
    w.update("t", b"v", 1, 3);
    assert_eq!(w.retained_replay("c1", "t").unwrap(), b"v");
    w.snapshot_from("n", vec![snap("t", b"", 1, 6)]);
    assert!(w.retained_replay("c2", "t").is_none());
    w.snapshot_from("n", vec![snap("t", b"zombie", 1, 5)]);
    assert!(w.retained_replay("c3", "t").is_none());
}

#[test]
fn the_snapshot_carries_tokens_and_tombstone_entries() {
    let mut w = World::durable(&[], &[("alive", "hub-test"), ("dead", "hub-test")]);
    w.publish_retained("alive", b"v");
    w.publish_retained("dead", b"x");
    w.publish_retained("dead", b"");
    w.connect_peer("n", 1);
    assert!(matches!(w.frame("n"), Some(PeerMessage::Interest { .. })));
    assert!(matches!(w.frame("n"), Some(PeerMessage::RetainedDigest { .. })));
    w.send(HubCommand::RemoteRetainedRequest { node: NodeId("n".to_string()) });
    match w.frame("n") {
        Some(PeerMessage::RetainedSnapshot { mut messages }) => {
            messages.sort_by(|a, b| a.topic.cmp(&b.topic));
            assert_eq!(messages.len(), 2, "the value AND the tombstone: {messages:?}");
            assert_eq!((messages[0].topic.as_str(), &messages[0].payload[..]), ("alive", &b"v"[..]));
            assert_eq!((messages[0].epoch, messages[0].offset), (0, 1));
            assert_eq!(messages[1].topic, "dead");
            assert!(messages[1].payload.is_empty());
            assert_eq!((messages[1].epoch, messages[1].offset), (0, 2));
        }
        other => panic!("expected the retained snapshot, got {other:?}"),
    }
}

#[test]
fn an_untokened_snapshot_entry_gap_fills_but_never_overwrites() {
    let mut w = World::durable(&[], &[]);
    w.snapshot_from("n", vec![snap("t", b"first", 0, 0)]);
    assert_eq!(w.retained_replay("c1", "t").unwrap(), b"first");
    w.snapshot_from("n", vec![snap("t", b"second", 0, 0)]);
    assert_eq!(w.retained_replay("c2", "t").unwrap(), b"first");
    w.snapshot_from("n", vec![snap("t", b"committed", 2, 1)]);
    assert_eq!(w.retained_replay("c3", "t").unwrap(), b"committed");
}

#[test]
fn a_tombstone_only_node_still_offers_its_digest() {
    let mut w = World::durable(&[], &[("t", "hub-test")]);
    w.publish_retained("t", b"v");
    w.publish_retained("t", b"");
    w.connect_peer("n", 1);
    assert!(matches!(w.frame("n"), Some(PeerMessage::Interest { .. })));
    assert!(matches!(w.frame("n"), Some(PeerMessage::RetainedDigest { .. })));
}

#[test]
fn an_unreachable_owner_queues_mutations_until_the_link_heals() {
    let mut w = World::durable(&["n"], &[("dev/7", "n")]);
    w.publish_retained("dev/7", b"v1");
    w.publish_retained("dev/7", b"v2");
    assert!(w.keyspace.is_empty());
    w.connect_peer("n", 1);
    let (t, first, _, seq) = w.next_commit("n").expect("the first handoff");
    assert_eq!(t, "dev/7");
    assert!(w.next_commit("n").is_none(), "one handoff at a time");
    w.commit_ack("n", seq, Some((1, 1)));
    let (_, second, _, seq) = w.next_commit("n").expect("the second handoff");
    w.commit_ack("n", seq, Some((1, 2)));
    assert_eq!(vec![first, second], vec![b"v1".to_vec(), b"v2".to_vec()], "queue order held");
}

#[test]
fn the_retained_queue_bound_drops_the_oldest_loudly() {
    let mut w = World::durable(&["n"], &[("dev/7", "n")]);
    for i in 0..(RETAINED_QUEUE_CAP + 3) {
        w.publish_retained("dev/7", format!("m{i}").as_bytes());
    }
    assert_eq!(w.given_up, ["dev/7", "dev/7", "dev/7"], "exactly three loud drops");
    assert_eq!(w.hub.retained.queue.len(), RETAINED_QUEUE_CAP);
    w.connect_peer("n", 1);
    let (_, payload, _, _) = w.next_commit("n").expect("a handoff");
    assert_eq!(payload, b"m3", "the oldest three must have been dropped");
}

#[test]
fn a_failed_local_commit_retries_until_heal_and_keeps_order() {
    let mut w = World::durable(&[], &[("t", "hub-test")]);
    w.keyspace_down = true;
    w.connect_peer("n", 1);
    w.publish_retained("t", b"v1");
    w.publish_retained("t", b"v2");
    w.publish_retained("t", b"");
    w.tick();
    w.tick();
    assert!(w.commits.is_empty());
    w.keyspace_down = false;
    w.tick();
    w.tick();
    w.tick();
    assert_eq!(
        w.commits,
        vec![
            ("t".to_string(), b"v1".to_vec()),
            ("t".to_string(), b"v2".to_vec()),
            ("t".to_string(), Vec::new()),
        ],
        "all queued mutations commit, in publish order"
    );
    let mut updates = Vec::new();
    while let Some(f) = w.frame("n") {
        if let PeerMessage::RetainedUpdate { payload, offset, .. } = f {
            updates.push((payload, offset));
        }
    }
    assert_eq!(updates.len(), 3);
    assert_eq!(updates[2], (Vec::new(), 3), "the clear fans out last, tokened");
}

#[test]
fn a_handoff_is_retransmitted_until_the_owner_acks() {
    let mut w = World::durable(&["n"], &[("dev/7", "n")]);
    w.connect_peer("n", 1);
    w.publish_retained("dev/7", b"v1");
    w.publish_retained("dev/7", b"v2");
    let (_, payload, _, first_seq) = w.next_commit("n").expect("the first handoff");
    assert_eq!(payload, b"v1");
    assert!(w.next_commit("n").is_none(), "the second mutation must wait for the first ack");
    w.tick();
    let (_, payload, _, seq) = w.next_commit("n").expect("the retransmission");
    assert_eq!((payload, seq), (b"v1".to_vec(), first_seq));
    w.commit_ack("n", first_seq, Some((1, 1)));
    let (_, payload, _, seq) = w.next_commit("n").expect("the second handoff");
    assert_eq!(payload, b"v2");
    assert_ne!(seq, first_seq);
}

#[test]
fn an_owner_dedups_a_retransmitted_handoff() {
    let mut w = World::durable(&[], &[("t", "hub-test")]);
    w.connect_peer("n", 1);
    assert!(matches!(w.frame("n"), Some(PeerMessage::Interest { .. })));
    w.routed_commit("n", "t", b"v", 0, 7);
    assert_eq!(w.keyspace["t"].2, (0, 1));
    let mut acked = 0;
    for _ in 0..2 {
        match w.frame("n") {
            Some(PeerMessage::RetainedUpdate { offset, .. }) => assert_eq!(offset, 1),
            Some(PeerMessage::RetainedCommitAck { seq, token }) => {
                assert_eq!((seq, token), (7, Some((0, 1))));
                acked += 1;
            }
            other => panic!("unexpected frame {other:?}"),
        }
    }
    assert_eq!(acked, 1);
    w.routed_commit("n", "t", b"v", 0, 7);
    match w.frame("n") {
        Some(PeerMessage::RetainedCommitAck { seq, token }) => {
            assert_eq!((seq, token), (7, Some((0, 1))));
        }
        other => panic!("expected the replayed ack, got {other:?}"),
    }
    assert_eq!(w.keyspace["t"].2, (0, 1), "the duplicate must not have recommitted");
}

#[test]
fn a_duplicate_that_overtakes_its_commit_is_swallowed() {
    let mut w = World::durable(&[], &[("t", "hub-test")]);
    w.keyspace_down = true;
    w.routed_commit("n", "t", b"v", 0, 7);
    w.routed_commit("n", "t", b"v", 0, 7);
    w.keyspace_down = false;
    w.tick();
    w.tick();
    assert_eq!(w.commits.len(), 1, "committed exactly once");
}

#[test]
fn a_moved_lease_owner_nacks_a_routed_commit() {
    let mut w = World::durable(&["n"], &[("dev/7", "n")]);
    w.connect_peer("n", 1);
    assert!(matches!(w.frame("n"), Some(PeerMessage::Interest { .. })));
    w.routed_commit("n", "dev/7", b"v", 0, 3);
    match w.frame("n") {
        Some(PeerMessage::RetainedCommitAck { seq, token }) => {
            assert_eq!((seq, token), (3, None), "a moved lease must NACK");
        }
        other => panic!("expected the NACK, got {other:?}"),
    }
    assert!(w.keyspace.is_empty());
}

#[test]
fn a_nacked_handoff_re_routes_once_placement_catches_up() {
    let mut w = World::durable(&["n"], &[("dev/7", "n")]);
    w.connect_peer("n", 1);
    w.publish_retained("dev/7", b"v");
    let (_, _, _, seq) = w.next_commit("n").expect("the handoff");
    w.commit_ack("n", seq, None);
    w.send(HubCommand::SetRing(Some(ring(&["hub-test"], &[("dev/7", "hub-test")]))));
    w.tick();
    w.tick();
    assert_eq!(w.keyspace["dev/7"].0, b"v", "the change must commit on the new owner");
}

#[test]
fn a_lost_link_reclaims_the_handoff_and_the_next_link_resends() {
    let mut w = World::durable(&["n"], &[("dev/7", "n")]);
    w.connect_peer("n", 1);
    w.publish_retained("dev/7", b"v");
    assert_eq!(w.next_commit("n").expect("the handoff").1, b"v");
    w.send(HubCommand::PeerDead { node: NodeId("n".to_string()) });
    w.connect_peer("n", 2);
    assert_eq!(w.next_commit("n").expect("the handoff again").1, b"v");
}

#[test]
fn durable_off_keeps_the_adr_0014_behaviour_with_no_retained_commit() {
    let mut w = World::new();
    w.connect_peer("n", 1);
    w.publish_retained("t", b"v");
    let mut saw_broadcast = false;
    while let Some(f) = w.frame("n") {
        match f {
            PeerMessage::Publish(p) => saw_broadcast = p.retain,
            PeerMessage::RetainedCommit { .. } => panic!("no keyspace, no commit"),
            _ => {}
        }
    }
    assert!(saw_broadcast);
    assert!(w.commits.is_empty());
}

// Numbers.

#[test]
fn gauge_refresh_snapshots_sessions_and_subscriptions() {
    let mut w = World::new();
    w.attach_full("c1", 1, false, u32::MAX, u16::MAX);
    w.subscribe("c1", "a/b");
    w.subscribe_qos("c1", "c/d", QoS::AtLeastOnce);
    let g = w.hub.gauges();
    assert_eq!((g.sessions, g.subscriptions), (1, 2));
    assert_eq!((g.inflight_messages, g.retained_messages, g.peer_links), (0, 0, 0));
    assert_eq!(g.cluster_members, None);
    w.publish_qos1("c/d", b"x");
    w.publish_retained("kept", b"v");
    w.connect_peer("n", 1);
    w.attach("c2", 2, true);
    w.send(HubCommand::SetRing(Some(ring(&["hub-test", "n"], &[]))));
    let g = w.hub.gauges();
    assert_eq!((g.sessions, g.inflight_messages, g.retained_messages), (2, 1, 1));
    assert_eq!((g.peer_links, g.cluster_members), (1, Some(2)));
    w.detach("c1", 1);
    w.detach("c2", 2);
    assert_eq!(w.hub.gauges().sessions, 1, "a kept session counts without its connection");
}

#[test]
fn a_ping_is_answered() {
    let mut w = World::new();
    w.send(HubCommand::Ping { asker: 77 });
    assert_eq!(w.pongs, [77]);
}

#[test]
fn the_session_cap_turns_strangers_away_and_lets_the_known_in() {
    let mut w = World::new();
    w.attach_outcome("known", "known", 1);
    w.detach("known", 1);
    w.send(HubCommand::SetQuotas(Quotas { max_sessions: Some(1), ..Quotas::default() }));
    assert_eq!(w.attach_outcome("stranger", "stranger", 2), AttachOutcome::QuotaExceeded);
    assert!(!w.store.sessions.contains_key("stranger"), "nothing of it stays in the store");
    assert_eq!(w.attach_outcome("known", "known", 3), AttachOutcome::Present(true));
}

#[test]
fn the_subscription_cap_holds_and_an_old_filter_may_be_renewed() {
    let mut w = World::new();
    w.attach("c", 1, false);
    w.send(HubCommand::SetQuotas(Quotas {
        max_subscriptions_per_client: Some(1),
        ..Quotas::default()
    }));
    let wish = |f: &str, qos: QoS| Wish {
        filter: f.to_string(),
        qos,
        no_local: false,
        retain_as_published: false,
    };
    let first = vec![wish("a", QoS::AtMostOnce), wish("b", QoS::AtMostOnce)];
    assert_eq!(w.subscribe_with("c", first), [true, false]);
    assert_eq!(w.subscribe_with("c", vec![wish("a", QoS::AtLeastOnce)]), [true]);
    assert_eq!(w.store.sessions["c"].subscriptions, [("a".to_string(), QoS::AtLeastOnce)]);
}

#[test]
fn a_subscription_that_was_not_stored_is_not_granted() {
    let mut w = World::new();
    w.attach("c", 1, false);
    let token = w.fresh_token();
    w.send(HubCommand::Subscribe {
        client: ClientId::new("c"),
        wishes: vec![Wish {
            filter: "t".to_string(),
            qos: QoS::AtLeastOnce,
            no_local: false,
            retain_as_published: false,
        }],
        reply: Some(token),
        stored: false,
    });
    assert_eq!(w.subscribed[&token], [false]);
    w.publish("t", b"x");
    assert!(w.recv("c", 1).is_none());
}

#[test]
fn no_local_keeps_a_clients_own_messages_from_it() {
    let mut w = World::new();
    w.attach("c", 1, true);
    w.subscribe_with(
        "c",
        vec![Wish {
            filter: "t".to_string(),
            qos: QoS::AtMostOnce,
            no_local: true,
            retain_as_published: false,
        }],
    );
    w.send(HubCommand::Publish {
        publication: publication("t", b"mine", QoS::AtMostOnce, false),
        publisher: Some(ClientId::new("c")),
        done: None,
        v5: false,
        relaxed: false,
    });
    assert!(w.recv("c", 1).is_none());
    w.publish("t", b"theirs");
    assert_eq!(payload_of(&w.recv("c", 1).unwrap()), b"theirs");
}

// Exactly once.

#[test]
fn an_exactly_once_delivery_runs_through_its_four_packets() {
    let mut w = World::new();
    w.attach("c", 1, false);
    w.subscribe_qos("c", "t", QoS::ExactlyOnce);
    let token = w.publish_from(publication("t", b"once", QoS::ExactlyOnce, false), true);
    assert_eq!(w.published[&token], PublishOutcome::Accepted);
    let p = w.recv("c", 1).unwrap();
    let pkid = pkid_of(&p);
    assert_eq!(w.store.sessions["c"].outbound.get(&pkid), Some(&1), "recorded before sent");
    w.send(HubCommand::PubRec { client: ClientId::new("c"), pkid });
    assert!(matches!(w.recv("c", 1), Some(Packet::PubRel(id)) if id == pkid));
    assert!(w.store.sessions["c"].released.contains(&pkid));
    w.send(HubCommand::PubComp { client: ClientId::new("c"), pkid });
    w.tick();
    let s = &w.store.sessions["c"];
    assert!(s.outbound.is_empty() && s.released.is_empty() && s.queue.is_empty());
    assert_eq!(w.hub.gauges().inflight_messages, 0);
}

#[test]
fn a_release_waits_until_it_is_recorded() {
    let mut w = World::new();
    w.attach("c", 1, false);
    w.subscribe_qos("c", "t", QoS::ExactlyOnce);
    w.publish_quietly(publication("t", b"once", QoS::ExactlyOnce, false));
    let pkid = pkid_of(&w.recv("c", 1).unwrap());
    w.lanes_held = true;
    w.send(HubCommand::PubRec { client: ClientId::new("c"), pkid });
    assert!(w.recv("c", 1).is_none(), "nothing is released before it is recorded");
    w.send(HubCommand::PubComp { client: ClientId::new("c"), pkid });
    w.release_lanes();
    assert!(matches!(w.recv("c", 1), Some(Packet::PubRel(id)) if id == pkid));
    w.tick();
    assert!(w.store.sessions["c"].outbound.is_empty(), "the held completion was applied");
}

#[test]
fn a_message_whose_id_cannot_be_recorded_is_not_sent() {
    let mut w = World::new();
    w.attach("c", 1, false);
    w.subscribe_qos("c", "t", QoS::ExactlyOnce);
    w.store.record_fails = true;
    w.publish_quietly(publication("t", b"once", QoS::ExactlyOnce, false));
    assert!(w.recv("c", 1).is_none());
    assert_eq!(w.store.sessions["c"].queue.len(), 1, "it stays in the queue");
}

#[test]
fn an_unacknowledged_message_is_sent_again_on_resume() {
    let mut w = World::new();
    w.attach("c", 1, false);
    w.subscribe_qos("c", "t", QoS::AtLeastOnce);
    w.publish_qos1("t", b"m");
    let first = pkid_of(&w.recv("c", 1).unwrap());
    w.detach("c", 1);
    w.attach("c", 2, false);
    match w.recv("c", 2) {
        Some(Packet::Publish(p)) => {
            assert!(p.dup);
            assert_eq!(p.pkid, Some(first));
            assert_eq!(p.payload.to_vec(), b"m");
        }
        other => panic!("expected the message again, got {other:?}"),
    }
    assert!(w.recv("c", 2).is_none(), "and once only");
    w.send(HubCommand::PubAck { client: ClientId::new("c"), pkid: first });
    w.detach("c", 2);
    w.attach("c", 3, false);
    assert!(w.recv("c", 3).is_none(), "an acknowledged message is gone");
}
