//! The packets that the broker writes to a client.

use vstd::prelude::*;

use crate::assoc::push_item;
use crate::message::{AppView, Message, MessageView, Payload};
use crate::qos::QoS;

verus! {

/// The reason code of a connection that is closed because its holder lost the right to it.
pub const NOT_AUTHORIZED: u8 = 0x87;

/// The version of the protocol that a connection speaks.
#[derive(Debug, Clone, Copy, PartialEq, Eq, Structural)]
pub enum ProtocolVersion {
    /// 3.1.1
    V311,
    /// 5.0
    V5,
}

/// A property of a PUBLISH packet.
#[derive(Debug)]
pub enum Property {
    MessageExpiryInterval(u32),
    PayloadFormatIndicator(u8),
    ContentType(String),
    ResponseTopic(String),
    CorrelationData(Payload),
    UserProperty(String, String),
}

/// Model of [`Property`].
pub enum PropertyView {
    MessageExpiryInterval(u32),
    PayloadFormatIndicator(u8),
    ContentType(Seq<char>),
    ResponseTopic(Seq<char>),
    CorrelationData(Seq<u8>),
    UserProperty(Seq<char>, Seq<char>),
}

impl DeepView for Property {
    type V = PropertyView;

    open spec fn deep_view(&self) -> PropertyView {
        match *self {
            Property::MessageExpiryInterval(n) => PropertyView::MessageExpiryInterval(n),
            Property::PayloadFormatIndicator(n) => PropertyView::PayloadFormatIndicator(n),
            Property::ContentType(s) => PropertyView::ContentType(s@),
            Property::ResponseTopic(s) => PropertyView::ResponseTopic(s@),
            Property::CorrelationData(b) => PropertyView::CorrelationData(b.deep_view()),
            Property::UserProperty(k, v) => PropertyView::UserProperty(k@, v@),
        }
    }
}

/// A PUBLISH packet.
#[derive(Debug)]
pub struct Publish {
    pub properties: Vec<Property>,
    pub dup: bool,
    pub qos: QoS,
    pub retain: bool,
    pub topic: String,
    pub pkid: Option<u16>,
    pub payload: Payload,
}

/// A packet for a client.
#[derive(Debug)]
pub enum Packet {
    Publish(Publish),
    PubRel(u16),
    Disconnect {
        reason: u8,
    },
}

/// Model of [`Packet`].
pub enum PacketView {
    Publish {
        properties: Seq<PropertyView>,
        dup: bool,
        qos: QoS,
        retain: bool,
        topic: Seq<char>,
        pkid: Option<u16>,
        payload: Seq<u8>,
    },
    PubRel(u16),
    Disconnect {
        reason: u8,
    },
}

impl DeepView for Packet {
    type V = PacketView;

    open spec fn deep_view(&self) -> PacketView {
        match *self {
            Packet::Publish(p) => PacketView::Publish {
                properties: p.properties.deep_view(),
                dup: p.dup,
                qos: p.qos,
                retain: p.retain,
                topic: p.topic@,
                pkid: p.pkid,
                payload: p.payload.deep_view(),
            },
            Packet::PubRel(pkid) => PacketView::PubRel(pkid),
            Packet::Disconnect { reason } => PacketView::Disconnect { reason },
        }
    }
}

/// `s`, with `x` at the end where there is one.
pub open spec fn with_entry(s: Seq<PropertyView>, x: Option<PropertyView>) -> Seq<PropertyView> {
    match x {
        Some(p) => s.push(p),
        None => s,
    }
}

/// The application's own pairs as entries of a packet.
pub open spec fn user_entries(pairs: Seq<(Seq<char>, Seq<char>)>) -> Seq<PropertyView> {
    Seq::new(pairs.len(), |i: int| PropertyView::UserProperty(pairs[i].0, pairs[i].1))
}

/// The properties of a packet in the order of the wire: what is left of the message's life,
/// then the application's.
pub open spec fn packet_properties(message_expiry: Option<u32>, app: AppView) -> Seq<PropertyView> {
    let s0 = with_entry(
        Seq::empty(),
        match message_expiry {
            Some(n) => Some(PropertyView::MessageExpiryInterval(n)),
            None => None,
        },
    );
    let s1 = with_entry(
        s0,
        match app.payload_format {
            Some(n) => Some(PropertyView::PayloadFormatIndicator(n)),
            None => None,
        },
    );
    let s2 = with_entry(
        s1,
        match app.content_type {
            Some(s) => Some(PropertyView::ContentType(s)),
            None => None,
        },
    );
    let s3 = with_entry(
        s2,
        match app.response_topic {
            Some(s) => Some(PropertyView::ResponseTopic(s)),
            None => None,
        },
    );
    let s4 = with_entry(
        s3,
        match app.correlation_data {
            Some(b) => Some(PropertyView::CorrelationData(b)),
            None => None,
        },
    );
    s4 + user_entries(app.user_properties)
}

/// The PUBLISH packet that carries `m`.
pub open spec fn publish_of(
    m: MessageView,
    pkid: Option<u16>,
    dup: bool,
    retain: bool,
    message_expiry: Option<u32>,
) -> PacketView {
    PacketView::Publish {
        properties: packet_properties(message_expiry, m.app),
        dup,
        qos: m.qos,
        retain,
        topic: m.topic,
        pkid,
        payload: m.payload,
    }
}

/// See [`publish_of`].
pub fn publish_packet(
    m: &Message,
    pkid: Option<u16>,
    dup: bool,
    retain: bool,
    message_expiry: Option<u32>,
) -> (r: Packet)
    ensures
        r.deep_view() == publish_of(m.deep_view(), pkid, dup, retain, message_expiry),
{
    let app = &m.app;
    let ghost pairs = app.user_properties.deep_view();
    let mut properties: Vec<Property> = Vec::new();
    assert(properties.deep_view() =~= Seq::empty());
    if let Some(secs) = message_expiry {
        push_item(&mut properties, Property::MessageExpiryInterval(secs));
    }
    if let Some(n) = app.payload_format {
        push_item(&mut properties, Property::PayloadFormatIndicator(n));
    }
    if let Some(s) = &app.content_type {
        push_item(&mut properties, Property::ContentType(s.clone()));
    }
    if let Some(s) = &app.response_topic {
        push_item(&mut properties, Property::ResponseTopic(s.clone()));
    }
    if let Some(b) = &app.correlation_data {
        push_item(&mut properties, Property::CorrelationData(b.clone()));
    }
    let ghost fixed = properties.deep_view();
    let mut i: usize = 0;
    assert(fixed + user_entries(pairs.take(0)) =~= fixed);
    while i < app.user_properties.len()
        invariant
            i <= app.user_properties@.len(),
            pairs == app.user_properties.deep_view(),
            properties.deep_view() == fixed + user_entries(pairs.take(i as int)),
        decreases app.user_properties@.len() - i,
    {
        let (k, v) = &app.user_properties[i];
        push_item(&mut properties, Property::UserProperty(k.clone(), v.clone()));
        i += 1;
        assert(properties.deep_view() =~= fixed + user_entries(pairs.take(i as int)));
    }
    assert(pairs.take(i as int) =~= pairs);
    Packet::Publish(
        Publish {
            properties,
            dup,
            qos: m.qos,
            retain,
            topic: m.topic.clone(),
            pkid,
            payload: m.payload.clone(),
        },
    )
}

} // verus!
