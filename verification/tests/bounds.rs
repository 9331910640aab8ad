//! Bounds and names.

use std::sync::Arc;

use mqtt_hub::inflight::{BacklogEntry, Inflight, SubscriberLimits, MAX_BACKLOG};
use mqtt_hub::message::{AppProperties, Message, Payload};
use mqtt_hub::qos::QoS;
use mqtt_hub::session::{durable_failure_reason, StorageError};

#[test]
fn durable_failure_reasons_are_bounded() {
    assert_eq!(durable_failure_reason(&StorageError::NoQuorum), "no-quorum");
    assert_eq!(durable_failure_reason(&StorageError::NotOwner), "not-owner");
    assert_eq!(
        durable_failure_reason(&StorageError::Unavailable("x".to_string())),
        "unavailable"
    );
    assert_eq!(durable_failure_reason(&StorageError::Backend("x".to_string())), "backend");
    assert_eq!(durable_failure_reason(&StorageError::NotFound), "not-found");
}

#[test]
fn flow_control_backlog_is_bounded_drop_oldest() {
    let limits = SubscriberLimits {
        max_outbound_bytes: None,
        max_backlog_bytes: None,
        soft_lane_depth: None,
    };
    let mut inf = Inflight::new();
    let entry = |topic: String| {
        let message = Message {
            topic,
            payload: Payload::from_vec(b"x".to_vec()),
            qos: QoS::AtLeastOnce,
            retain: false,
            app: Arc::new(AppProperties::none()),
            expires_at: None,
        };
        BacklogEntry::new(&message, false, None, None)
    };
    for i in 0..MAX_BACKLOG {
        assert!(
            inf.push_backlog(entry(format!("t{i}")), &limits).is_empty(),
            "no eviction under the cap"
        );
    }
    let gone = inf.push_backlog(entry("overflow".to_string()), &limits);
    assert_eq!(gone.len(), 1, "eviction at the cap");
    assert_eq!(gone[0].message.topic, "t0");
    assert_eq!(inf.backlog.len(), MAX_BACKLOG, "backlog stays bounded");
    assert_eq!(inf.backlog.front().unwrap().message.topic, "t1", "oldest was dropped");
    assert_eq!(inf.backlog.back().unwrap().message.topic, "overflow");
}
