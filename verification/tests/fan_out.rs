//! The fan-out to other nodes, and the publishes that wait for it.

use std::sync::Arc;

use mqtt_hub::cluster::Peer;
use mqtt_hub::effects::Effect;
use mqtt_hub::hub::Hub;
use mqtt_hub::ids::NodeId;
use mqtt_hub::ledger::{
    ForwardObligation, PendingPublish, PENDING_PUBLISH_CAP, PENDING_PUBLISH_MAX_AGE,
};
use mqtt_hub::message::{AppProperties, Payload, Publication};
use mqtt_hub::outcome::{PublishOutcome, PublishRefusal};
use mqtt_hub::qos::QoS;
use mqtt_hub::wire::{PeerMessage, PROTO_FORWARD_ANSWERS};

fn hub() -> Hub {
    Hub::with_config(NodeId("fwd-proofs".to_string()))
}

fn publication(topic: &str, qos: QoS, retain: bool) -> Publication {
    Publication {
        topic: topic.to_string(),
        payload: Payload::from_vec(b"payload".to_vec()),
        qos,
        retain,
        message_expiry: None,
        app: Arc::new(AppProperties::none()),
    }
}

fn attach_peers(hub: &mut Hub, n: usize, filter: &str) -> Vec<NodeId> {
    let nodes: Vec<NodeId> = (0..n)
        .map(|i| {
            let node = NodeId(format!("p{i}"));
            hub.peer_connected(
                node.clone(),
                Peer { conn_id: i as u64, cert_serial: None, proto: PROTO_FORWARD_ANSWERS },
            );
            hub.remote_interest(node.clone(), vec![filter.to_string()]);
            node
        })
        .collect();
    hub.take_effects();
    nodes
}

fn fan_out(hub: &mut Hub, topic: &str, qos: QoS, retain: bool, gate: Option<u64>) {
    hub.forward_to_peers(&publication(topic, qos, retain), gate);
}

fn publishes_to(effects: &[Effect], node: &NodeId) -> usize {
    effects
        .iter()
        .filter(|e| match e {
            Effect::Frame { node: n, frame: PeerMessage::Publish(_) } => n.0 == node.0,
            _ => false,
        })
        .count()
}

fn register(hub: &mut Hub, token: u64, topic: &str) -> Option<u64> {
    hub.register_pending(token, &publication(topic, QoS::AtLeastOnce, false))
}

#[derive(Debug, PartialEq)]
enum Heard {
    Nothing,
    Outcome(PublishOutcome),
    Closed,
}

fn heard(effects: &[Effect], token: u64) -> Heard {
    for e in effects {
        match e {
            Effect::Published { token: t, outcome } if *t == token => {
                return Heard::Outcome(*outcome);
            }
            Effect::Withheld { token: t } if *t == token => return Heard::Closed,
            _ => {}
        }
    }
    Heard::Nothing
}

#[test]
fn a_pending_publish_stays_small() {
    const BUDGETED: usize = 216;
    let actual = std::mem::size_of::<PendingPublish>();
    assert!(actual <= BUDGETED, "PendingPublish grew to {actual} bytes (budget {BUDGETED})");
}

#[test]
fn a_forward_obligation_stays_small() {
    const BUDGETED: usize = 120;
    let actual = std::mem::size_of::<ForwardObligation>();
    assert!(actual <= BUDGETED, "ForwardObligation grew to {actual} bytes (budget {BUDGETED})");
}

#[test]
fn a_qos0_publish_nobody_wants_does_not_walk_the_peer_map() {
    let mut h = hub();
    attach_peers(&mut h, 64, "other/#");
    fan_out(&mut h, "t/1", QoS::AtMostOnce, false, None);
    assert_eq!(h.cluster.fanout_visits, 0);
}

#[test]
fn the_early_return_does_not_change_who_receives_a_publish() {
    let mut h = hub();
    let peers = attach_peers(&mut h, 64, "other/#");
    let wanted = NodeId("p7".to_string());
    h.remote_interest(wanted.clone(), vec!["t/#".to_string()]);
    h.take_effects();
    fan_out(&mut h, "t/1", QoS::AtMostOnce, false, None);
    assert_eq!(h.cluster.fanout_visits, 64, "one interested peer must not skip the loop");
    let effects = h.take_effects();
    for p in &peers {
        let got = publishes_to(&effects, p);
        if p.0 == wanted.0 {
            assert_eq!(got, 1, "the interested peer got {got}");
        } else {
            assert_eq!(got, 0, "an uninterested peer got {got}");
        }
    }
}

#[test]
fn the_early_return_never_swallows_a_retained_broadcast() {
    let mut h = hub();
    assert!(!h.retained.durable);
    let peers = attach_peers(&mut h, 8, "other/#");
    fan_out(&mut h, "t/1", QoS::AtMostOnce, true, None);
    assert_eq!(h.cluster.fanout_visits, 8, "a retained broadcast must walk every peer");
    let effects = h.take_effects();
    for p in &peers {
        assert_eq!(publishes_to(&effects, p), 1, "peer {} missed a retained broadcast", p.0);
    }
}

#[test]
fn the_interest_buffer_is_reused_across_publishes() {
    let mut h = hub();
    attach_peers(&mut h, 8, "t/#");
    fan_out(&mut h, "t/1", QoS::AtMostOnce, false, None);
    let (ptr, cap) = (
        h.cluster.interest_scratch.as_ptr(),
        h.cluster.interest_scratch.capacity(),
    );
    assert_eq!(h.cluster.interest_scratch.len(), 8, "the buffer was not restored");
    assert!(cap >= 8);
    fan_out(&mut h, "t/2", QoS::AtMostOnce, false, None);
    assert!(
        std::ptr::eq(h.cluster.interest_scratch.as_ptr(), ptr),
        "the second publish re-allocated the interested-node buffer"
    );
    assert_eq!(h.cluster.interest_scratch.capacity(), cap);
}

#[test]
fn every_exit_from_the_fan_out_restores_the_buffer() {
    let mut h = hub();
    attach_peers(&mut h, 8, "t/#");

    fan_out(&mut h, "t/1", QoS::AtMostOnce, false, None);
    let ptr = h.cluster.interest_scratch.as_ptr();
    assert!(h.cluster.interest_scratch.capacity() >= 8);

    fan_out(&mut h, "nobody/wants/this", QoS::AtMostOnce, false, None);
    assert!(
        std::ptr::eq(h.cluster.interest_scratch.as_ptr(), ptr),
        "the emptiness guard lost the buffer"
    );
    assert!(h.cluster.interest_scratch.is_empty());

    let id = register(&mut h, 1, "t/3").expect("an empty ledger admits");
    fan_out(&mut h, "t/3", QoS::AtLeastOnce, false, Some(id));
    assert!(
        std::ptr::eq(h.cluster.interest_scratch.as_ptr(), ptr),
        "the gated return lost the buffer"
    );
    assert_eq!(
        h.cluster.interest_scratch.len(),
        8,
        "the gated return restored an emptied buffer"
    );
}

#[test]
fn releasing_the_ack_hold_does_not_shrink_the_settle_work_set() {
    let mut h = hub();
    h.cluster.cluster_configured = true;
    assert!(h.cluster.routing_unsettled());
    let id = register(&mut h, 1, "t/x").expect("an empty ledger admits");
    {
        let p = h.ledger.entries.get(&id).unwrap();
        assert!(p.awaiting_settle, "registration holds the replay obligation");
        assert!(p.ack_awaits_settle, "registration holds the ack, fail-safe");
    }

    h.pending_fan_out_reached(id);

    let p = h.ledger.entries.get(&id).unwrap();
    assert!(!p.ack_awaits_settle);
    assert!(p.awaiting_settle);
    assert_eq!(
        h.ledger
            .entries
            .entries
            .iter()
            .filter(|(_, p)| p.awaiting_settle || p.reroute_grace.is_some())
            .count(),
        1
    );
}

#[test]
fn the_ack_hold_clear_is_one_way_and_narrow() {
    let mut h = hub();
    h.cluster.cluster_configured = true;
    let id = register(&mut h, 1, "t/x").expect("an empty ledger admits");
    h.pending_fan_out_reached(id);
    h.pending_fan_out_reached(id);
    h.pending_fan_out_reached(id + 9_999);
    let p = h.ledger.entries.get(&id).unwrap();
    assert!(!p.ack_awaits_settle);
    assert!(p.awaiting_settle);
}

#[test]
fn closing_the_window_clears_both_holds_and_acks() {
    let mut h = hub();
    h.cluster.cluster_configured = true;
    assert!(h.cluster.routing_unsettled());
    let id = register(&mut h, 1, "t/x").expect("an empty ledger admits");
    h.pending_local_done(id);
    assert!(
        h.ledger.entries.contains_key(&id),
        "a held publish is not completed while the window is open"
    );
    assert_eq!(
        heard(&h.take_effects(), 1),
        Heard::Nothing,
        "a zero-evidence publish on an unsettled view must NOT be acked"
    );

    h.cluster.cluster_configured = false;
    assert!(!h.cluster.routing_unsettled());
    h.settle_pending_publishes();

    assert!(
        !h.ledger.entries.contains_key(&id),
        "the entry must retire once the window has no further claim on it"
    );
    assert_eq!(
        heard(&h.take_effects(), 1),
        Heard::Outcome(PublishOutcome::Accepted),
        "the ack held for the window must be released when it closes"
    );
}

#[test]
fn an_already_acknowledged_entry_is_never_refused_or_withheld() {
    for withhold in [false, true] {
        let mut h = hub();
        let id = register(&mut h, 1, "t/x").expect("an empty ledger admits");
        let mut out = Vec::new();
        assert!(h
            .ledger
            .entries
            .get_mut(&id)
            .expect("just registered")
            .answer(PublishOutcome::Accepted, &mut out));
        assert!(h.ledger.entries.get(&id).unwrap().ack_released());
        assert_eq!(heard(&out, 1), Heard::Outcome(PublishOutcome::Accepted));

        if withhold {
            h.drop_pending(id);
        } else {
            h.refuse_pending(id, PublishRefusal::Brownout);
        }

        assert!(!h.ledger.entries.contains_key(&id));
        assert_eq!(
            heard(&h.take_effects(), 1),
            Heard::Nothing,
            "the publisher was answered a SECOND time (withhold={withhold})"
        );
    }
}

#[test]
fn the_answer_is_at_most_once() {
    let mut h = hub();
    let id = register(&mut h, 1, "t/x").expect("an empty ledger admits");
    let mut out = Vec::new();
    let p = h.ledger.entries.get_mut(&id).expect("just registered");
    assert!(!p.ack_released());
    assert!(p.answer(PublishOutcome::Accepted, &mut out), "the first answer lands");
    assert!(p.ack_released());
    assert_eq!(out.len(), 1);
    assert!(
        !p.answer(PublishOutcome::Refused(PublishRefusal::Brownout), &mut out),
        "a second answer must say nothing at all"
    );
    assert_eq!(out.len(), 1);
    assert_eq!(heard(&out, 1), Heard::Outcome(PublishOutcome::Accepted));
}

fn fill_to_cap(hub: &mut Hub) {
    for i in 0..PENDING_PUBLISH_CAP {
        let id = register(hub, i as u64, &format!("fill/{i}"));
        assert!(id.is_some(), "the fill loop must be admitted");
    }
    assert_eq!(hub.ledger.entries.len(), PENDING_PUBLISH_CAP);
}

fn ids(hub: &Hub) -> Vec<u64> {
    hub.ledger.entries.keys()
}

const ARRIVING: u64 = 1_000_000;

#[test]
fn at_the_cap_the_arriving_publish_is_refused_not_the_oldest_evicted() {
    let mut h = hub();
    fill_to_cap(&mut h);
    let first_id = ids(&h)[0];

    let id = register(&mut h, ARRIVING, "arriving");
    assert!(id.is_none(), "the arrival must be refused, not admitted");
    let effects = h.take_effects();
    assert_eq!(
        heard(&effects, ARRIVING),
        Heard::Outcome(PublishOutcome::Refused(PublishRefusal::PendingCap)),
        "the refused publisher must be TOLD, with a reason it can act on"
    );
    assert!(
        h.ledger.entries.contains_key(&first_id),
        "the oldest entry was evicted anyway"
    );
    assert_eq!(heard(&effects, 0), Heard::Nothing);
    assert_eq!(h.ledger.entries.len(), PENDING_PUBLISH_CAP, "the ledger must stay bounded");
}

#[test]
fn refusing_an_arrival_stores_nothing_anywhere() {
    let mut h = hub();
    fill_to_cap(&mut h);
    let before_ids = ids(&h);
    let before_publish_ids = h.ledger.publish_ids;
    let before_forward_index = h.ledger.forward_index.len();

    assert!(register(&mut h, ARRIVING, "arriving").is_none());

    assert_eq!(h.ledger.publish_ids, before_publish_ids, "a refused publish burned an id");
    assert_eq!(ids(&h), before_ids, "a refused publish changed the ledger");
    assert_eq!(h.ledger.forward_index.len(), before_forward_index);
}

#[test]
fn at_the_cap_an_already_acked_replay_entry_is_evicted_before_refusing() {
    let mut h = hub();
    fill_to_cap(&mut h);
    let victim = ids(&h)[17];
    let mut out = Vec::new();
    assert!(h
        .ledger
        .entries
        .get_mut(&victim)
        .expect("in the ledger")
        .answer(PublishOutcome::Accepted, &mut out));

    assert!(
        register(&mut h, ARRIVING, "arriving").is_some(),
        "a slot was held by an entry nobody is waiting on"
    );
    let effects = h.take_effects();
    assert_eq!(
        heard(&effects, ARRIVING),
        Heard::Nothing,
        "the arriving publisher must not be refused"
    );
    assert!(
        !h.ledger.entries.contains_key(&victim),
        "the already-answered entry must be the one evicted"
    );
    assert_eq!(h.ledger.entries.len(), PENDING_PUBLISH_CAP);
    for i in 0..PENDING_PUBLISH_CAP {
        if i == 17 {
            continue;
        }
        assert_eq!(
            heard(&effects, i as u64),
            Heard::Nothing,
            "an unanswered publisher at index {i} lost its ack"
        );
    }
}

#[test]
fn the_cap_still_evicts_an_abandoned_entry() {
    let mut h = hub();
    fill_to_cap(&mut h);
    let oldest = ids(&h)[0];

    h.set_time(0, PENDING_PUBLISH_MAX_AGE + 1_000);

    assert!(
        register(&mut h, ARRIVING, "arriving").is_some(),
        "the backstop must admit the arrival"
    );
    let effects = h.take_effects();
    assert_eq!(
        heard(&effects, ARRIVING),
        Heard::Nothing,
        "the arrival must not be refused once the backstop fires"
    );
    assert!(
        !h.ledger.entries.contains_key(&oldest),
        "the abandoned oldest entry must be evicted"
    );
    assert_eq!(
        heard(&effects, 0),
        Heard::Closed,
        "the evicted entry's ack is withheld, never refused"
    );
    assert_eq!(h.ledger.entries.len(), PENDING_PUBLISH_CAP);
}

#[test]
fn below_the_cap_every_publish_is_admitted() {
    let mut h = hub();
    for i in 0..64u64 {
        assert!(register(&mut h, i, &format!("t/{i}")).is_some());
    }
    assert_eq!(h.ledger.entries.len(), 64);
    let effects = h.take_effects();
    for i in 0..64u64 {
        assert_eq!(heard(&effects, i), Heard::Nothing);
    }
}
