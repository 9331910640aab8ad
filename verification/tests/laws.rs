//! The laws of the parts, on concrete values.

use std::sync::Arc;

use mqtt_hub::assoc::Table;
use mqtt_hub::ids::{ClientId, NodeId};
use mqtt_hub::inflight::{Inflight, OutState, PendingOut, PKID_BLOCK};
use mqtt_hub::lanes::{Lane, LANE_CONTROL_HEADROOM, LANE_QUEUE_CAP};
use mqtt_hub::ledger::{admit_pending, PendingAdmission};
use mqtt_hub::message::{
    app_from_wire, app_to_wire, message_bytes, AppProperties, Message, Payload,
};
use mqtt_hub::outcome::{DurableOutcome, ForwardVerdict, PublishRefusal};
use mqtt_hub::packet::{publish_packet, Packet, Property};
use mqtt_hub::policy::{BrownoutAxes, BrownoutAxis};
use mqtt_hub::qos::{min_qos, qos_from_num, qos_num, QoS};
use mqtt_hub::qos2::Qos2RetirePlan;
use mqtt_hub::recovery::{
    recovery_step, FetchAnswer, FetchCall, RecoveryStep, SessionFetch,
    ATTACH_RECOVERY_BACKOFF_MAX, ATTACH_RECOVERY_TIMEOUT,
};
use mqtt_hub::retained::token_above;
use mqtt_hub::retire::{RetireAnswer, RetireCall, RetireRun};
use mqtt_hub::session::SessionRecovery;
use mqtt_hub::subscriptions::{strongest_grant, SubscriptionTable};
use mqtt_hub::topic::{parse_shared, topic_matches, valid_filter};

const LEVELS: [QoS; 3] = [QoS::AtMostOnce, QoS::AtLeastOnce, QoS::ExactlyOnce];

fn message(topic: &str, payload: &[u8], qos: QoS) -> Message {
    Message {
        topic: topic.to_string(),
        payload: Payload::from_vec(payload.to_vec()),
        qos,
        retain: false,
        app: Arc::new(AppProperties::none()),
        expires_at: None,
    }
}

#[test]
fn a_guarantee_is_the_weaker_of_two() {
    for a in LEVELS {
        for b in LEVELS {
            let m = min_qos(a, b);
            assert_eq!(qos_num(m), qos_num(a).min(qos_num(b)));
        }
    }
    for q in LEVELS {
        assert_eq!(qos_from_num(qos_num(q)), q);
    }
    assert_eq!(LEVELS.map(qos_num), [0, 1, 2]);
}

#[test]
fn an_outcome_survives_the_trip_to_another_node() {
    let all = [
        DurableOutcome::Met,
        DurableOutcome::Failed,
        DurableOutcome::Refused(PublishRefusal::Brownout),
        DurableOutcome::Refused(PublishRefusal::RetainedQuota),
        DurableOutcome::Refused(PublishRefusal::PendingCap),
    ];
    for o in all {
        assert_eq!(DurableOutcome::from_verdict(o.to_verdict()), o);
    }
    assert_eq!(
        DurableOutcome::from_verdict(ForwardVerdict::Refused { code: 99 }),
        DurableOutcome::Failed,
        "a refusal that is not known is no refusal"
    );
    assert_eq!(PublishRefusal::Brownout.as_str(), "brownout");
    assert_eq!(PublishRefusal::RetainedQuota.as_str(), "retained-quota");
    assert_eq!(PublishRefusal::PendingCap.as_str(), "pending-cap");
}

#[test]
fn a_fan_out_is_met_where_every_part_is() {
    let refused = DurableOutcome::Refused(PublishRefusal::Brownout);
    assert_eq!(DurableOutcome::Met.and(DurableOutcome::Met), DurableOutcome::Met);
    assert_eq!(DurableOutcome::Met.and(DurableOutcome::Failed), DurableOutcome::Failed);
    assert_ne!(refused.and(DurableOutcome::Met), DurableOutcome::Met);
    assert_ne!(DurableOutcome::Met.and(refused), DurableOutcome::Met);
}

#[test]
fn brownout_ends_when_every_axis_is_back() {
    let mut axes = BrownoutAxes { disk: false, memory: false };
    axes.set(BrownoutAxis::Disk, true);
    axes.set(BrownoutAxis::Memory, true);
    axes.set(BrownoutAxis::Disk, false);
    assert!(axes.is_over());
    axes.set(BrownoutAxis::Memory, false);
    assert!(!axes.is_over());
    assert_eq!(BrownoutAxis::Disk.as_str(), "disk");
    assert_eq!(BrownoutAxis::Memory.as_str(), "memory");
}

#[test]
fn filters_admit_topics() {
    for (filter, topic, admits) in [
        ("a/b", "a/b", true),
        ("a/b", "a/c", false),
        ("a/+", "a/b", true),
        ("a/+", "a/b/c", false),
        ("a/#", "a", true),
        ("a/#", "a/b/c", true),
        ("#", "a/b", true),
        ("#", "$SYS/x", false),
        ("+/x", "$SYS/x", false),
        ("$SYS/#", "$SYS/x", true),
        ("+", "", true),
        ("a/+/c", "a//c", true),
    ] {
        assert_eq!(topic_matches(filter, topic), admits, "{filter} {topic}");
    }
    assert!(valid_filter("a/+/#"));
    assert!(!valid_filter("a/#/b"));
    assert!(!valid_filter("a+"));
    assert!(!valid_filter(""));
    assert_eq!(parse_shared("$share/g/a/b"), Some(("g".to_string(), "a/b".to_string())));
    assert_eq!(parse_shared("a/b"), None);
}

#[test]
fn a_client_is_found_once_however_often_it_subscribes() {
    let mut table = SubscriptionTable::new();
    table.subscribe(ClientId::new("c"), "t/#".to_string());
    table.subscribe(ClientId::new("c"), "t/1".to_string());
    table.subscribe(ClientId::new("d"), "t/+".to_string());
    let found: Vec<String> =
        table.matching_clients("t/1").iter().map(|c| c.as_str().to_string()).collect();
    assert_eq!(found, ["c", "d"]);
    let mut grants: Table<String, QoS> = Table::new();
    grants.insert("t/#".to_string(), QoS::AtMostOnce);
    grants.insert("t/1".to_string(), QoS::ExactlyOnce);
    grants.insert("t/2".to_string(), QoS::AtLeastOnce);
    assert_eq!(strongest_grant(&grants, "t/1"), QoS::ExactlyOnce);
    assert_eq!(strongest_grant(&grants, "t/3"), QoS::AtMostOnce);
}

#[test]
fn packet_ids_are_fresh_and_never_zero() {
    let mut inf = Inflight::new();
    assert_eq!(inf.alloc_pkid(), None, "nothing is reserved");
    inf.banked_base = Some(65_533);
    let hold = |inf: &mut Inflight, pkid: u16| {
        inf.pending.insert(
            pkid,
            PendingOut {
                message: message("t", b"x", QoS::AtLeastOnce),
                state: OutState::AwaitingPubAck,
                offset: None,
            },
        );
    };
    hold(&mut inf, 1);
    assert_eq!(inf.alloc_pkid(), Some(65_534));
    assert_eq!(inf.alloc_pkid(), Some(65_535));
    assert_eq!(inf.alloc_pkid(), Some(2), "0 is no packet id, and 1 is taken");
    assert_eq!(inf.block_remaining, PKID_BLOCK - 4);
}

#[test]
fn a_queue_is_truncated_up_to_what_is_owed() {
    let mut inf = Inflight::new();
    for o in [3, 4, 5] {
        inf.track(o);
    }
    assert_eq!(inf.safe_ack(), 2);
    inf.release(4);
    assert_eq!(inf.safe_ack(), 2);
    inf.release(3);
    assert_eq!(inf.safe_ack(), 4);
    inf.release(5);
    assert_eq!(inf.safe_ack(), 5);
}

#[test]
fn a_lane_keeps_room_for_what_ends_a_session() {
    let mut lane = Lane::new();
    for _ in 0..LANE_QUEUE_CAP {
        assert!(lane.has_room());
        lane.take_in();
    }
    assert!(!lane.has_room());
    for _ in 0..LANE_CONTROL_HEADROOM {
        assert!(lane.has_headroom());
        lane.take_in();
    }
    assert!(!lane.has_headroom());
    lane.start();
    assert!(lane.has_headroom());
    assert_eq!(lane.outstanding, LANE_QUEUE_CAP + LANE_CONTROL_HEADROOM);
    lane.finish();
    assert_eq!(lane.outstanding, LANE_QUEUE_CAP + LANE_CONTROL_HEADROOM - 1);
}

#[test]
fn at_the_cap_victims_come_in_order() {
    assert_eq!(admit_pending(1, 2, false, None, 10), PendingAdmission::Admit);
    assert_eq!(admit_pending(2, 2, true, Some(99), 10), PendingAdmission::EvictReplayOnly);
    assert_eq!(admit_pending(2, 2, false, Some(11), 10), PendingAdmission::EvictOldest);
    assert_eq!(admit_pending(2, 2, false, Some(10), 10), PendingAdmission::Refuse);
}

#[test]
fn tokens_are_ordered_by_epoch_first() {
    assert!(token_above((2, 1), (1, 9)));
    assert!(token_above((1, 2), (1, 1)));
    assert!(!token_above((1, 1), (1, 1)));
    assert!(!token_above((1, 9), (2, 1)));
}

#[test]
fn payloads_hold_what_they_were_given() {
    let p = Payload::from_vec(vec![1, 2, 3]);
    let q = p.clone();
    assert_eq!(q.to_vec(), [1, 2, 3]);
    assert_eq!((p.len(), p.is_empty()), (3, false));
    assert_eq!(&p.0[..], &[1, 2, 3]);
    assert!(Payload::empty().is_empty());
    assert_eq!(message_bytes(&message("h\u{e9}", b"xyz", QoS::AtMostOnce)), 6);
}

#[test]
fn properties_survive_the_trip_to_another_node() {
    let a = AppProperties {
        payload_format: Some(1),
        content_type: Some("text/plain".to_string()),
        response_topic: Some("r".to_string()),
        correlation_data: Some(Payload::from_vec(vec![7, 8])),
        user_properties: vec![("k".to_string(), "v".to_string())],
    };
    assert!(!a.is_empty());
    let w = app_to_wire(&a);
    assert_eq!(w.correlation_data, Some(vec![7, 8]));
    let b = app_from_wire(w);
    assert_eq!(b.payload_format, a.payload_format);
    assert_eq!(b.content_type, a.content_type);
    assert_eq!(b.response_topic, a.response_topic);
    assert_eq!(b.correlation_data.map(|p| p.to_vec()), Some(vec![7, 8]));
    assert_eq!(b.user_properties, a.user_properties);
    assert!(AppProperties::none().is_empty());
}

#[test]
fn a_packet_carries_the_properties_in_order() {
    let mut m = message("t", b"x", QoS::AtLeastOnce);
    m.app = Arc::new(AppProperties {
        payload_format: Some(1),
        content_type: Some("c".to_string()),
        response_topic: Some("r".to_string()),
        correlation_data: Some(Payload::from_vec(vec![9])),
        user_properties: vec![("a".to_string(), "1".to_string()), ("b".to_string(), "2".to_string())],
    });
    match publish_packet(&m, Some(5), true, true, Some(60)) {
        Packet::Publish(p) => {
            assert_eq!((p.pkid, p.dup, p.retain, p.qos), (Some(5), true, true, QoS::AtLeastOnce));
            let names: Vec<String> = p
                .properties
                .iter()
                .map(|x| match x {
                    Property::MessageExpiryInterval(n) => format!("expiry {n}"),
                    Property::PayloadFormatIndicator(n) => format!("format {n}"),
                    Property::ContentType(s) => format!("content {s}"),
                    Property::ResponseTopic(s) => format!("response {s}"),
                    Property::CorrelationData(b) => format!("correlation {:?}", b.to_vec()),
                    Property::UserProperty(k, v) => format!("user {k} {v}"),
                })
                .collect();
            assert_eq!(
                names,
                [
                    "expiry 60",
                    "format 1",
                    "content c",
                    "response r",
                    "correlation [9]",
                    "user a 1",
                    "user b 2"
                ]
            );
        }
        other => panic!("expected a publish, got {other:?}"),
    }
}

#[test]
fn packet_ids_are_retired_after_their_queue() {
    let plan = Qos2RetirePlan {
        client: ClientId::new("c"),
        epoch: 4,
        up_to: Some(7),
        candidates: vec![(1, Some(6)), (2, Some(8)), (3, None)],
        orphans: vec![(9, 5), (10, 50)],
    };
    assert!(!plan.is_empty());
    let mut run = RetireRun::new(plan);
    assert_eq!(run.call(), Some(RetireCall::Truncate { up_to: 7 }));
    run.answer(RetireAnswer::Done);
    assert_eq!(run.call(), Some(RetireCall::Clear { pkid: 1 }));
    run.answer(RetireAnswer::Done);
    assert_eq!(run.call(), Some(RetireCall::Head), "2 is not covered, 3 stands nowhere");
    run.answer(RetireAnswer::Head(Some(8)));
    assert_eq!(run.call(), Some(RetireCall::Truncate { up_to: 5 }));
    run.answer(RetireAnswer::Done);
    assert_eq!(run.call(), Some(RetireCall::Clear { pkid: 9 }));
    run.answer(RetireAnswer::Done);
    assert_eq!(run.call(), Some(RetireCall::Head));
    run.answer(RetireAnswer::Head(Some(8)));
    assert_eq!(run.call(), None);
    let r = run.finish();
    assert_eq!((r.epoch, r.durable), (4, Some(7)));
    assert_eq!(r.cleared, [1, 3]);
    assert_eq!(r.orphans_cleared, [9]);
}

#[test]
fn nothing_is_retired_where_the_queue_was_not_truncated() {
    let mut run = RetireRun::new(Qos2RetirePlan {
        client: ClientId::new("c"),
        epoch: 0,
        up_to: Some(7),
        candidates: vec![(1, Some(6))],
        orphans: vec![(9, 5)],
    });
    run.answer(RetireAnswer::Failed);
    assert_eq!(run.call(), Some(RetireCall::Head));
    run.answer(RetireAnswer::Failed);
    let r = run.finish();
    assert_eq!(r.durable, None);
    assert!(r.cleared.is_empty() && r.orphans_cleared.is_empty());
}

#[test]
fn a_fetch_waits_longer_each_time_and_gives_up_in_the_end() {
    assert_eq!(recovery_step(true, false, 0, 50), RecoveryStep::Done);
    assert_eq!(recovery_step(false, true, 0, 50), RecoveryStep::Again { wait: 50, next: 100 });
    assert_eq!(
        recovery_step(false, true, 4_999, 200),
        RecoveryStep::Again { wait: 200, next: ATTACH_RECOVERY_BACKOFF_MAX }
    );
    assert_eq!(recovery_step(false, true, ATTACH_RECOVERY_TIMEOUT, 50), RecoveryStep::GiveUp);
    assert_eq!(recovery_step(false, false, 0, 50), RecoveryStep::GiveUp);
    let mut run = SessionFetch::new();
    let mut waits = Vec::new();
    let mut elapsed = 0;
    while let Some(call) = run.call() {
        run = match call {
            FetchCall::Claim => run.answer(FetchAnswer::Failed { transient: true }, elapsed),
            FetchCall::Wait(ms) => {
                waits.push(ms);
                elapsed += ms;
                run.answer(FetchAnswer::Waited, elapsed)
            }
            other => panic!("nothing was claimed: {other:?}"),
        };
    }
    assert_eq!(&waits[..4], &[50, 100, 200, 250]);
    assert!(elapsed >= ATTACH_RECOVERY_TIMEOUT);
    assert!(matches!(run.finish(), Some(SessionRecovery::Unavailable)));
}

#[test]
fn a_denied_claim_is_final_and_a_session_is_ready_once_its_queue_can_be_read() {
    let run = SessionFetch::new().answer(FetchAnswer::Denied { owner: "o".to_string() }, 0);
    assert_eq!(run.call(), None);
    assert!(matches!(run.finish(), Some(SessionRecovery::Denied { owner }) if owner == "o"));
    let run = SessionFetch::new().answer(FetchAnswer::Granted { present: true }, 0);
    assert_eq!(run.call(), Some(FetchCall::Subscriptions));
    let run = run.answer(FetchAnswer::Subscriptions(Vec::new()), 0);
    assert_eq!(run.call(), Some(FetchCall::Probe));
    let run = run.answer(FetchAnswer::Failed { transient: true }, 0);
    assert_eq!(run.call(), Some(FetchCall::Wait(50)), "the queue cannot be read yet");
    let run = run.answer(FetchAnswer::Waited, 50);
    let run = run.answer(FetchAnswer::Granted { present: true }, 50);
    let run = run.answer(FetchAnswer::Subscriptions(Vec::new()), 50);
    let run = run.answer(FetchAnswer::Probed, 50);
    assert_eq!(run.call(), None);
    assert!(matches!(run.finish(), Some(SessionRecovery::Ready { present: true, .. })));
}

#[test]
fn names_are_compared_by_what_they_say() {
    assert_eq!(ClientId::new("c").as_str(), "c");
    assert_eq!(NodeId("n".to_string()).clone().0, "n");
}
