//! Publishes that other nodes have a part in, and who is told what about them.

use std::sync::Arc;

use mqtt_hub::assoc::Table;
use mqtt_hub::cluster::{Peer, Ring};
use mqtt_hub::dispatch::HubCommand;
use mqtt_hub::effects::Effect;
use mqtt_hub::hub::Hub;
use mqtt_hub::ids::{ClientId, NodeId};
use mqtt_hub::inflight::SubscriberLimits;
use mqtt_hub::lanes::{LaneJob, LaneOutcome};
use mqtt_hub::ledger::REROUTE_GRACE_TICKS;
use mqtt_hub::message::{AppProperties, Payload, Publication};
use mqtt_hub::outcome::{ForwardVerdict, PublishOutcome, PublishRefusal};
use mqtt_hub::packet::ProtocolVersion;
use mqtt_hub::policy::{AuthMethod, BrownoutAxis};
use mqtt_hub::qos::QoS;
use mqtt_hub::session::{Admission, Identity, PendingAttach, SessionRecovery};
use mqtt_hub::shared::RemoteSharedGroup;
use mqtt_hub::subscribing::Wish;
use mqtt_hub::wire::{PeerMessage, PROTO_FORWARD_ANSWERS, PROTO_MIN};

fn node(name: &str) -> NodeId {
    NodeId(name.to_string())
}

fn publication(topic: &str, qos: QoS) -> Publication {
    Publication {
        topic: topic.to_string(),
        payload: Payload::from_vec(b"payload".to_vec()),
        qos,
        retain: false,
        message_expiry: None,
        app: Arc::new(AppProperties::none()),
    }
}

fn link(h: &mut Hub, name: &str, proto: u32, filters: &[&str]) {
    h.dispatch(HubCommand::PeerConnected {
        node: node(name),
        peer: Peer { conn_id: 1, cert_serial: None, proto },
        ids: Vec::new(),
    });
    h.dispatch(HubCommand::RemoteInterest {
        node: node(name),
        filters: filters.iter().map(|f| (*f).to_string()).collect(),
    });
    h.take_effects();
}

fn linked(filters: &[(&str, &[&str])]) -> Hub {
    let mut h = Hub::with_config(node("here"));
    for (name, fs) in filters {
        link(&mut h, name, PROTO_FORWARD_ANSWERS, fs);
    }
    h
}

fn publish(h: &mut Hub, topic: &str, qos: QoS, token: u64) -> Vec<Effect> {
    h.dispatch(HubCommand::Publish {
        publication: publication(topic, qos),
        publisher: None,
        done: Some(token),
        v5: true,
        relaxed: false,
    });
    h.take_effects()
}

fn acked_seqs(effects: &[Effect], name: &str) -> Vec<u64> {
    effects
        .iter()
        .filter_map(|e| match e {
            Effect::Frame { node, frame: PeerMessage::PublishAcked { seq, .. } }
                if node.0 == name =>
            {
                Some(*seq)
            }
            _ => None,
        })
        .collect()
}

fn told(effects: &[Effect], token: u64) -> Option<PublishOutcome> {
    effects.iter().find_map(|e| match e {
        Effect::Published { token: t, outcome } if *t == token => Some(*outcome),
        _ => None,
    })
}

fn withheld(effects: &[Effect], token: u64) -> bool {
    effects.iter().any(|e| matches!(e, Effect::Withheld { token: t } if *t == token))
}

fn verdict(h: &mut Hub, name: &str, seq: u64, verdict: ForwardVerdict) -> Vec<Effect> {
    h.dispatch(HubCommand::RemotePublishVerdict { node: node(name), seq, verdict });
    h.take_effects()
}

fn attach(h: &mut Hub, client: &str, conn_id: u64, session_expiry: u32) {
    let pending = |reply: u64| PendingAttach {
        client: ClientId::new(client),
        admission: Admission {
            identity: Identity { subject: client.to_string(), groups: Vec::new() },
            method: AuthMethod::Password,
            cert_serial: None,
            protocol: ProtocolVersion::V5,
        },
        conn_id,
        session_expiry,
        receive_maximum: u16::MAX,
        will: None,
        reply,
    };
    h.dispatch(HubCommand::Attach { pending: pending(1), clean_start: false });
    h.dispatch(HubCommand::SessionRecovered {
        pending: pending(1),
        recovery: SessionRecovery::Ready { present: false, subscriptions: Vec::new() },
        queue: None,
        denied: Vec::new(),
    });
    h.take_effects();
}

fn subscribe(h: &mut Hub, client: &str, filter: &str, qos: QoS) {
    h.dispatch(HubCommand::Subscribe {
        client: ClientId::new(client),
        wishes: vec![Wish {
            filter: filter.to_string(),
            qos,
            no_local: false,
            retain_as_published: false,
        }],
        reply: None,
        stored: true,
    });
    h.take_effects();
}

fn finish_jobs(h: &mut Hub, effects: Vec<Effect>, outcome: LaneOutcome) -> Vec<Effect> {
    let mut jobs = 0;
    for e in effects {
        if let Effect::Lane { client, job: LaneJob::Deliver(job) } = e {
            h.dispatch(HubCommand::LaneStarted { client });
            h.dispatch(HubCommand::AppendDone { job: *job, outcome });
            jobs += 1;
        }
    }
    assert!(jobs > 0, "a job was due");
    h.take_effects()
}

#[test]
fn a_publisher_is_answered_once_every_node_has_answered() {
    let mut h = linked(&[("a", &["t/#"]), ("b", &["t/+"]), ("c", &["other"])]);
    let effects = publish(&mut h, "t/1", QoS::AtLeastOnce, 7);
    let (a, b) = (acked_seqs(&effects, "a"), acked_seqs(&effects, "b"));
    assert_eq!((a.len(), b.len(), acked_seqs(&effects, "c").len()), (1, 1, 0));
    assert_ne!(a[0], b[0], "every forward has its own number");
    assert_eq!(told(&effects, 7), None);
    let after = verdict(&mut h, "a", a[0], ForwardVerdict::Stored);
    assert_eq!(told(&after, 7), None, "one node still owes an answer");
    let after = verdict(&mut h, "b", b[0], ForwardVerdict::Stored);
    assert_eq!(told(&after, 7), Some(PublishOutcome::Accepted));
    assert_eq!(h.ledger.entries.len(), 0);
    assert_eq!(h.ledger.forward_index.len(), 0);
}

#[test]
fn a_forward_settles_once() {
    let mut h = linked(&[("a", &["t"])]);
    let effects = publish(&mut h, "t", QoS::AtLeastOnce, 7);
    let seq = acked_seqs(&effects, "a")[0];
    let after = verdict(&mut h, "a", seq, ForwardVerdict::Stored);
    assert_eq!(told(&after, 7), Some(PublishOutcome::Accepted));
    assert!(verdict(&mut h, "a", seq, ForwardVerdict::Failed).is_empty());
}

#[test]
fn an_answer_that_comes_late_settles_nothing() {
    let mut h = linked(&[("a", &["t"]), ("b", &["t"])]);
    let effects = publish(&mut h, "t", QoS::AtLeastOnce, 7);
    let to_a = acked_seqs(&effects, "a")[0];
    let to_b = acked_seqs(&effects, "b")[0];
    verdict(&mut h, "a", to_a, ForwardVerdict::Stored);
    let after = verdict(&mut h, "b", to_b, ForwardVerdict::Failed);
    assert!(withheld(&after, 7));
    for name in ["a", "b"] {
        for seq in [to_a, to_b] {
            assert!(verdict(&mut h, name, seq, ForwardVerdict::Stored).is_empty());
        }
    }
}

#[test]
fn an_answer_of_the_wrong_node_settles_nothing() {
    let mut h = linked(&[("a", &["t"]), ("b", &["other"])]);
    let effects = publish(&mut h, "t", QoS::AtLeastOnce, 7);
    let seq = acked_seqs(&effects, "a")[0];
    let after = verdict(&mut h, "b", seq, ForwardVerdict::Stored);
    assert_eq!(told(&after, 7), None);
    assert!(!withheld(&after, 7));
}

#[test]
fn a_node_that_failed_leaves_the_publisher_without_an_answer() {
    let mut h = linked(&[("a", &["t"])]);
    let effects = publish(&mut h, "t", QoS::AtLeastOnce, 7);
    let seq = acked_seqs(&effects, "a")[0];
    let after = verdict(&mut h, "a", seq, ForwardVerdict::Failed);
    assert!(withheld(&after, 7));
    assert_eq!(told(&after, 7), None);
    assert_eq!(h.ledger.entries.len(), 0);
}

#[test]
fn a_refusal_elsewhere_is_passed_on_where_nothing_was_kept() {
    let mut h = linked(&[("a", &["t"])]);
    let effects = publish(&mut h, "t", QoS::AtLeastOnce, 7);
    let seq = acked_seqs(&effects, "a")[0];
    let refused = ForwardVerdict::Refused { code: PublishRefusal::Brownout.code() };
    let after = verdict(&mut h, "a", seq, refused);
    assert_eq!(told(&after, 7), Some(PublishOutcome::Refused(PublishRefusal::Brownout)));
}

#[test]
fn a_refusal_elsewhere_is_not_passed_on_where_something_was_kept() {
    let mut h = linked(&[("a", &["t"]), ("b", &["t"])]);
    let effects = publish(&mut h, "t", QoS::AtLeastOnce, 7);
    let (a, b) = (acked_seqs(&effects, "a")[0], acked_seqs(&effects, "b")[0]);
    verdict(&mut h, "a", a, ForwardVerdict::Stored);
    let refused = ForwardVerdict::Refused { code: PublishRefusal::Brownout.code() };
    let after = verdict(&mut h, "b", b, refused);
    assert_eq!(told(&after, 7), None, "a refusal would claim that nothing was kept");
    assert!(withheld(&after, 7));
}

#[test]
fn a_node_that_knows_no_verdicts_answers_with_yes_or_no() {
    let mut h = linked(&[("a", &["t"])]);
    let seq = acked_seqs(&publish(&mut h, "t", QoS::AtLeastOnce, 7), "a")[0];
    h.dispatch(HubCommand::RemotePublishAck { node: node("a"), seq, ok: true });
    assert_eq!(told(&h.take_effects(), 7), Some(PublishOutcome::Accepted));
    let seq = acked_seqs(&publish(&mut h, "t", QoS::AtLeastOnce, 8), "a")[0];
    h.dispatch(HubCommand::RemotePublishAck { node: node("a"), seq, ok: false });
    assert!(withheld(&h.take_effects(), 8));
}

#[test]
fn a_sweep_repeats_the_frame_under_its_number() {
    let mut h = linked(&[("a", &["t"])]);
    let seq = acked_seqs(&publish(&mut h, "t", QoS::AtLeastOnce, 7), "a");
    h.dispatch(HubCommand::Tick);
    let again = h.take_effects();
    assert_eq!(acked_seqs(&again, "a"), seq);
    assert_eq!(told(&again, 7), None);
}

#[test]
fn a_publish_whose_node_died_finds_another_taker() {
    let mut h = linked(&[("a", &["t"])]);
    let first = acked_seqs(&publish(&mut h, "t", QoS::AtLeastOnce, 7), "a")[0];
    h.dispatch(HubCommand::PeerDead { node: node("a") });
    assert_eq!(told(&h.take_effects(), 7), None);
    link(&mut h, "b", PROTO_FORWARD_ANSWERS, &["t"]);
    h.dispatch(HubCommand::Tick);
    let again = acked_seqs(&h.take_effects(), "b");
    assert_eq!(again.len(), 1);
    assert_ne!(again[0], first);
    let after = verdict(&mut h, "b", again[0], ForwardVerdict::Stored);
    assert_eq!(told(&after, 7), Some(PublishOutcome::Accepted));
}

#[test]
fn a_publish_whose_node_died_is_accepted_once_nobody_is_left_to_find() {
    let mut h = linked(&[("a", &["t"])]);
    publish(&mut h, "t", QoS::AtLeastOnce, 7);
    h.dispatch(HubCommand::PeerDead { node: node("a") });
    let mut got = None;
    for _ in 0..=u32::from(REROUTE_GRACE_TICKS) {
        h.dispatch(HubCommand::Tick);
        got = told(&h.take_effects(), 7);
        if got.is_some() {
            break;
        }
    }
    assert_eq!(got, Some(PublishOutcome::Accepted));
}

#[test]
fn a_publish_without_a_guarantee_waits_for_nobody() {
    let mut h = linked(&[("a", &["t"])]);
    let effects = publish(&mut h, "t", QoS::AtMostOnce, 7);
    assert!(acked_seqs(&effects, "a").is_empty());
    assert!(effects
        .iter()
        .any(|e| matches!(e, Effect::Frame { frame: PeerMessage::Publish(_), .. })));
    assert_eq!(told(&effects, 7), Some(PublishOutcome::Accepted));
}

#[test]
fn a_publisher_content_with_less_is_answered_at_once() {
    let mut h = linked(&[("a", &["t"])]);
    h.dispatch(HubCommand::Publish {
        publication: publication("t", QoS::AtLeastOnce),
        publisher: None,
        done: Some(7),
        v5: true,
        relaxed: true,
    });
    assert_eq!(told(&h.take_effects(), 7), Some(PublishOutcome::Accepted));
    assert_eq!(h.ledger.entries.len(), 1, "the node still owes its answer");
}

#[test]
fn a_deep_lane_makes_every_publisher_wait_for_its_writes() {
    let mut h = linked(&[]);
    attach(&mut h, "c", 1, u32::MAX);
    subscribe(&mut h, "c", "t", QoS::AtLeastOnce);
    h.dispatch(HubCommand::SetLimits(SubscriberLimits {
        max_outbound_bytes: None,
        max_backlog_bytes: None,
        soft_lane_depth: Some(0),
    }));
    let mut relaxed = |token: u64| {
        h.dispatch(HubCommand::Publish {
            publication: publication("t", QoS::AtLeastOnce),
            publisher: None,
            done: Some(token),
            v5: true,
            relaxed: true,
        });
        h.take_effects()
    };
    let mut jobs = relaxed(7);
    assert_eq!(told(&jobs, 7), Some(PublishOutcome::Accepted), "the lane was idle");
    let effects = relaxed(8);
    assert_eq!(told(&effects, 8), None, "a job was in the lane already");
    jobs.extend(effects);
    let after = finish_jobs(&mut h, jobs, LaneOutcome::Stored(1));
    assert_eq!(told(&after, 7), None);
    assert_eq!(told(&after, 8), Some(PublishOutcome::Accepted));
}

#[test]
fn in_a_cluster_that_forms_an_acknowledgement_waits() {
    let mut h = linked(&[]);
    h.dispatch(HubCommand::SetRing(Some(Ring {
        members: vec![node("here"), node("a")],
        epoch: 1,
        owners: Table::new(),
    })));
    let effects = publish(&mut h, "t", QoS::AtLeastOnce, 7);
    assert_eq!(told(&effects, 7), None, "somebody may turn up who should have it");
    assert!(!withheld(&effects, 7));
}

#[test]
fn what_a_node_forwards_is_answered_once_it_is_recorded() {
    let mut h = linked(&[("a", &[])]);
    attach(&mut h, "c", 1, u32::MAX);
    subscribe(&mut h, "c", "t", QoS::AtLeastOnce);
    h.dispatch(HubCommand::RemotePublishAcked {
        node: node("a"),
        seq: 5,
        publication: publication("t", QoS::AtLeastOnce),
    });
    let effects = h.take_effects();
    let answers = |es: &[Effect]| -> Vec<(u64, ForwardVerdict)> {
        es.iter()
            .filter_map(|e| match e {
                Effect::Frame { frame: PeerMessage::PublishVerdict { seq, verdict }, .. } => {
                    Some((*seq, *verdict))
                }
                _ => None,
            })
            .collect()
    };
    assert!(answers(&effects).is_empty(), "nothing is recorded yet");
    let after = finish_jobs(&mut h, effects, LaneOutcome::Stored(1));
    assert_eq!(answers(&after), [(5, ForwardVerdict::Stored)]);
    h.dispatch(HubCommand::RemotePublishAcked {
        node: node("a"),
        seq: 6,
        publication: publication("t", QoS::AtLeastOnce),
    });
    let effects = h.take_effects();
    let after = finish_jobs(&mut h, effects, LaneOutcome::Failed);
    assert_eq!(answers(&after), [(6, ForwardVerdict::Failed)]);
    h.dispatch(HubCommand::SetBrownout { axis: BrownoutAxis::Memory, on: true });
    h.dispatch(HubCommand::RemotePublishAcked {
        node: node("a"),
        seq: 7,
        publication: publication("t", QoS::AtLeastOnce),
    });
    let refused = ForwardVerdict::Refused { code: PublishRefusal::Brownout.code() };
    assert_eq!(answers(&h.take_effects()), [(7, refused)]);
}

#[test]
fn a_node_is_answered_once_and_after_the_last_job() {
    for (outcomes, verdict) in [
        ([LaneOutcome::Stored(1), LaneOutcome::Stored(1)], ForwardVerdict::Stored),
        ([LaneOutcome::Dropped, LaneOutcome::Stored(1)], ForwardVerdict::Stored),
        ([LaneOutcome::Failed, LaneOutcome::Stored(1)], ForwardVerdict::Failed),
        ([LaneOutcome::Stored(1), LaneOutcome::Failed], ForwardVerdict::Failed),
    ] {
        let mut h = linked(&[("a", &[])]);
        for (i, c) in ["c", "d"].iter().enumerate() {
            attach(&mut h, c, i as u64 + 1, u32::MAX);
            subscribe(&mut h, c, "t", QoS::AtLeastOnce);
        }
        h.dispatch(HubCommand::RemotePublishAcked {
            node: node("a"),
            seq: 5,
            publication: publication("t", QoS::AtLeastOnce),
        });
        let mut jobs = Vec::new();
        for e in h.take_effects() {
            if let Effect::Lane { job: LaneJob::Deliver(job), .. } = e {
                jobs.push(job);
            }
        }
        assert_eq!(jobs.len(), 2);
        let mut said = Vec::new();
        for (job, outcome) in jobs.into_iter().zip(outcomes) {
            assert!(said.is_empty(), "answered before the last job is done");
            h.dispatch(HubCommand::AppendDone { job: *job, outcome });
            for e in h.take_effects() {
                if let Effect::Frame { frame: PeerMessage::PublishVerdict { seq, verdict }, .. } = e {
                    said.push((seq, verdict));
                }
            }
        }
        assert_eq!(said, [(5, verdict)]);
        assert_eq!(h.sessions.remote_appends.len(), 0);
    }
}

#[test]
fn a_retained_publish_that_a_node_forwards_is_answered_once_it_is_stored() {
    for ok in [true, false] {
        let mut h = linked(&[("a", &[])]);
        h.attach_retained_store(Vec::new());
        let mut retained = publication("t", QoS::AtLeastOnce);
        retained.retain = true;
        h.dispatch(HubCommand::RemotePublishAcked { node: node("a"), seq: 5, publication: retained });
        let mut writes = Vec::new();
        for e in h.take_effects() {
            match e {
                Effect::StoreRetained { write } => writes.push(write),
                Effect::Frame { frame: PeerMessage::PublishVerdict { .. }, .. } => {
                    panic!("answered before the store has")
                }
                _ => {}
            }
        }
        assert_eq!(writes.len(), 1);
        for write in writes {
            h.dispatch(HubCommand::RetainedStored { write, ok });
        }
        let verdict = if ok { ForwardVerdict::Stored } else { ForwardVerdict::Failed };
        assert!(h.take_effects().iter().any(|e| match e {
            Effect::Frame { frame: PeerMessage::PublishVerdict { seq, verdict: v }, .. } => {
                *seq == 5 && *v == verdict
            }
            _ => false,
        }));
    }
}

#[test]
fn a_node_of_an_old_protocol_is_answered_in_it() {
    let mut h = Hub::with_config(node("here"));
    link(&mut h, "old", PROTO_MIN, &["t"]);
    h.dispatch(HubCommand::RemotePublishAcked {
        node: node("old"),
        seq: 5,
        publication: publication("nobody/wants", QoS::AtLeastOnce),
    });
    assert!(h
        .take_effects()
        .iter()
        .any(|e| matches!(e, Effect::Frame { frame: PeerMessage::PublishAck { seq: 5, ok: true }, .. })));
}

#[test]
fn a_member_of_a_group_that_refuses_makes_way_for_another() {
    let mut h = linked(&[("a", &[]), ("b", &[])]);
    for (name, client) in [("a", "ca"), ("b", "cb")] {
        h.dispatch(HubCommand::RemoteSharedInterest {
            node: node(name),
            groups: vec![RemoteSharedGroup {
                group: "g".to_string(),
                filter: "t".to_string(),
                members: vec![(ClientId::new(client), QoS::AtLeastOnce, true)],
            }],
        });
    }
    h.take_effects();
    let sent = |es: &[Effect]| -> Vec<(String, String, u64)> {
        es.iter()
            .filter_map(|e| match e {
                Effect::Frame {
                    node,
                    frame: PeerMessage::SharedDeliverAcked { seq, client, .. },
                } => Some((node.0.clone(), client.clone(), *seq)),
                _ => None,
            })
            .collect()
    };
    let effects = publish(&mut h, "t", QoS::AtLeastOnce, 7);
    let first = sent(&effects);
    assert_eq!(first.len(), 1, "one member per message");
    let refused = ForwardVerdict::Refused { code: PublishRefusal::Brownout.code() };
    let after = verdict(&mut h, &first[0].0, first[0].2, refused);
    let second = sent(&after);
    assert_eq!(second.len(), 1);
    assert_ne!(second[0].0, first[0].0, "nobody is asked twice");
    let after = verdict(&mut h, &second[0].0, second[0].2, ForwardVerdict::Stored);
    assert_eq!(told(&after, 7), Some(PublishOutcome::Accepted));
}

#[test]
fn a_group_in_which_everybody_refuses_refuses() {
    let mut h = linked(&[("a", &[])]);
    h.dispatch(HubCommand::RemoteSharedInterest {
        node: node("a"),
        groups: vec![RemoteSharedGroup {
            group: "g".to_string(),
            filter: "t".to_string(),
            members: vec![(ClientId::new("ca"), QoS::AtLeastOnce, true)],
        }],
    });
    h.take_effects();
    let effects = publish(&mut h, "t", QoS::AtLeastOnce, 7);
    let seq = effects
        .iter()
        .find_map(|e| match e {
            Effect::Frame { frame: PeerMessage::SharedDeliverAcked { seq, .. }, .. } => Some(*seq),
            _ => None,
        })
        .expect("a member was asked");
    let refused = ForwardVerdict::Refused { code: PublishRefusal::Brownout.code() };
    let after = verdict(&mut h, "a", seq, refused);
    assert_eq!(told(&after, 7), Some(PublishOutcome::Refused(PublishRefusal::Brownout)));
}

#[test]
fn a_publish_refused_under_brownout_leaves_no_trace() {
    let mut h = linked(&[("a", &["t"])]);
    attach(&mut h, "c", 1, u32::MAX);
    subscribe(&mut h, "c", "t", QoS::AtLeastOnce);
    h.dispatch(HubCommand::SetBrownout { axis: BrownoutAxis::Disk, on: true });
    h.take_effects();
    let effects = publish(&mut h, "t", QoS::AtLeastOnce, 7);
    assert_eq!(effects.len(), 1, "nothing but the answer: {effects:?}");
    assert_eq!(told(&effects, 7), Some(PublishOutcome::Refused(PublishRefusal::Brownout)));
    assert_eq!(h.ledger.entries.len(), 0);
}

#[test]
fn a_durable_message_is_sent_after_it_was_recorded() {
    let mut h = linked(&[]);
    attach(&mut h, "c", 1, u32::MAX);
    subscribe(&mut h, "c", "t", QoS::AtLeastOnce);
    let effects = publish(&mut h, "t", QoS::AtLeastOnce, 7);
    assert!(!effects.iter().any(|e| matches!(e, Effect::Packet { .. })));
    assert_eq!(told(&effects, 7), None);
    let after = finish_jobs(&mut h, effects, LaneOutcome::Stored(1));
    assert_eq!(told(&after, 7), Some(PublishOutcome::Accepted));
    assert!(after.iter().any(|e| matches!(e, Effect::ReservePacketIds { .. })));
    h.dispatch(HubCommand::PkidBlockReserved { client: ClientId::new("c"), result: Ok(0) });
    assert!(h.take_effects().iter().any(|e| matches!(e, Effect::Packet { conn: 1, .. })));
}

#[test]
fn a_message_that_was_shed_by_the_store_is_not_owed() {
    let mut h = linked(&[]);
    attach(&mut h, "c", 1, u32::MAX);
    subscribe(&mut h, "c", "t", QoS::AtLeastOnce);
    let effects = publish(&mut h, "t", QoS::AtLeastOnce, 7);
    let after = finish_jobs(&mut h, effects, LaneOutcome::Dropped);
    assert_eq!(told(&after, 7), Some(PublishOutcome::Accepted));
}

fn accounted(h: &Hub, log: &[Effect], token: u64) -> usize {
    let settled = log.iter().filter(|e| match e {
        Effect::Published { token: t, .. } | Effect::Withheld { token: t } => *t == token,
        _ => false,
    });
    let waiting = (0..h.ledger.entries.len())
        .filter(|i| h.ledger.entries.value_at(*i).done == Some(token));
    settled.count() + waiting.count()
}

#[test]
fn every_publisher_is_settled_with_once() {
    let mut h = linked(&[("a", &["t"]), ("b", &["u"])]);
    attach(&mut h, "c", 1, u32::MAX);
    subscribe(&mut h, "c", "v", QoS::AtLeastOnce);
    let mut log = Vec::new();
    for (token, topic) in [(1, "nobody"), (2, "t"), (3, "u"), (4, "t"), (5, "v")] {
        log.extend(publish(&mut h, topic, QoS::AtLeastOnce, token));
    }
    let seqs = acked_seqs(&log, "a");
    assert_eq!(seqs.len(), 2);
    log.extend(verdict(&mut h, "a", seqs[0], ForwardVerdict::Stored));
    log.extend(verdict(&mut h, "a", seqs[0], ForwardVerdict::Stored));
    log.extend(verdict(&mut h, "a", seqs[1], ForwardVerdict::Failed));
    h.dispatch(HubCommand::SetBrownout { axis: BrownoutAxis::Disk, on: true });
    log.extend(publish(&mut h, "v", QoS::AtLeastOnce, 6));
    h.dispatch(HubCommand::SetBrownout { axis: BrownoutAxis::Disk, on: false });
    h.dispatch(HubCommand::PeerDead { node: node("b") });
    log.extend(h.take_effects());
    for token in 1..=6 {
        assert_eq!(accounted(&h, &log, token), 1, "publisher {token}");
    }
    assert_eq!(accounted(&h, &log, 7), 0);
    assert_eq!(told(&log, 2), Some(PublishOutcome::Accepted));
    assert!(withheld(&log, 4));
    assert_eq!(told(&log, 6), Some(PublishOutcome::Refused(PublishRefusal::Brownout)));
    assert_eq!(h.ledger.entries.keys(), [3, 5], "those that wait stand in order");
    let jobs: Vec<Effect> = log.drain(..).collect();
    let after = finish_jobs(&mut h, jobs, LaneOutcome::Stored(1));
    assert_eq!(told(&after, 5), Some(PublishOutcome::Accepted));
}
