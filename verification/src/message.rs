//! Messages: payloads, application properties, and what a publisher hands in.

use std::sync::Arc;

use bytes::Bytes;
use vstd::prelude::*;
use vstd::utf8::encode_utf8;

use crate::assoc::copy_keys;
use crate::ids::deadline;
use crate::qos::QoS;

verus! {

/// `bytes::Bytes`: a cheaply copyable slice of memory.
#[verifier::external_type_specification]
#[verifier::external_body]
pub struct ExBytes(Bytes);

/// The bytes that a `bytes::Bytes` holds.
pub uninterp spec fn bytes_held(b: Bytes) -> Seq<u8>;

/// `Bytes::clone`: the copy holds the same bytes.
#[verifier::external_body]
fn bytes_clone(b: &Bytes) -> (r: Bytes)
    ensures
        bytes_held(r) == bytes_held(*b),
{
    b.clone()
}

/// `Bytes::len`: how many bytes are held.
#[verifier::external_body]
fn bytes_len(b: &Bytes) -> (r: usize)
    ensures
        r == bytes_held(*b).len(),
{
    b.len()
}

/// `Bytes::from(Vec<u8>)`: holds the bytes of the vector.
#[verifier::external_body]
fn bytes_from(v: Vec<u8>) -> (r: Bytes)
    ensures
        bytes_held(r) == v@,
{
    Bytes::from(v)
}

/// `Bytes::to_vec` (of the slice that a `Bytes` dereferences to): a vector of the bytes held.
#[verifier::external_body]
fn bytes_to_vec(b: &Bytes) -> (r: Vec<u8>)
    ensures
        r@ == bytes_held(*b),
{
    b.to_vec()
}

/// The payload of a message.
#[derive(Debug)]
pub struct Payload(pub Bytes);

impl DeepView for Payload {
    type V = Seq<u8>;

    open spec fn deep_view(&self) -> Seq<u8> {
        bytes_held(self.0)
    }
}

impl Clone for Payload {
    fn clone(&self) -> (r: Self)
        ensures
            r.deep_view() == self.deep_view(),
    {
        Payload(bytes_clone(&self.0))
    }
}

impl Payload {
    /// The payload that holds the bytes of `v`.
    pub fn from_vec(v: Vec<u8>) -> (r: Self)
        ensures
            r.deep_view() == v@,
    {
        Payload(bytes_from(v))
    }

    /// The payload of no bytes.
    pub fn empty() -> (r: Self)
        ensures
            r.deep_view() == Seq::<u8>::empty(),
    {
        Payload(bytes_from(Vec::new()))
    }

    /// Number of bytes.
    pub fn len(&self) -> (r: usize)
        ensures
            r == self.deep_view().len(),
    {
        bytes_len(&self.0)
    }

    /// Whether there are no bytes.
    pub fn is_empty(&self) -> (r: bool)
        ensures
            r == (self.deep_view().len() == 0),
    {
        bytes_len(&self.0) == 0
    }

    /// The bytes.
    pub fn to_vec(&self) -> (r: Vec<u8>)
        ensures
            r@ == self.deep_view(),
    {
        bytes_to_vec(&self.0)
    }
}

/// A copy of an optional string.
pub fn copy_text(s: &Option<String>) -> (r: Option<String>)
    ensures
        r.deep_view() == s.deep_view(),
{
    match s {
        Some(t) => Some(t.clone()),
        None => None,
    }
}

/// The properties that an application attaches to a message, and that reach its subscribers
/// as they are.
#[derive(Debug)]
pub struct AppProperties {
    /// What the payload is: text or bytes.
    pub payload_format: Option<u8>,
    /// What the payload contains.
    pub content_type: Option<String>,
    /// Where to answer.
    pub response_topic: Option<String>,
    /// What to answer with.
    pub correlation_data: Option<Payload>,
    /// Free pairs, in order.
    pub user_properties: Vec<(String, String)>,
}

/// Model of [`AppProperties`].
#[verifier::ext_equal]
pub struct AppView {
    pub payload_format: Option<u8>,
    pub content_type: Option<Seq<char>>,
    pub response_topic: Option<Seq<char>>,
    pub correlation_data: Option<Seq<u8>>,
    pub user_properties: Seq<(Seq<char>, Seq<char>)>,
}

impl DeepView for AppProperties {
    type V = AppView;

    open spec fn deep_view(&self) -> AppView {
        AppView {
            payload_format: self.payload_format,
            content_type: self.content_type.deep_view(),
            response_topic: self.response_topic.deep_view(),
            correlation_data: self.correlation_data.deep_view(),
            user_properties: self.user_properties.deep_view(),
        }
    }
}

/// The properties of a message that has none.
pub open spec fn no_properties() -> AppView {
    AppView {
        payload_format: None,
        content_type: None,
        response_topic: None,
        correlation_data: None,
        user_properties: Seq::empty(),
    }
}

impl AppProperties {
    /// No properties.
    pub fn none() -> (r: Self)
        ensures
            r.deep_view() == no_properties(),
    {
        let r = AppProperties {
            payload_format: None,
            content_type: None,
            response_topic: None,
            correlation_data: None,
            user_properties: Vec::new(),
        };
        assert(r.deep_view() =~= no_properties());
        r
    }

    /// Whether there are none.
    pub fn is_empty(&self) -> (r: bool)
        ensures
            r == (self.deep_view() == no_properties()),
    {
        let r = self.payload_format.is_none() && self.content_type.is_none()
            && self.response_topic.is_none() && self.correlation_data.is_none()
            && self.user_properties.len() == 0;
        assert(r ==> self.deep_view() =~= no_properties());
        assert(self.deep_view() == no_properties() ==> self.user_properties.deep_view().len() == 0);
        r
    }
}

/// [`AppProperties`] as they travel between nodes.
#[derive(Debug)]
pub struct WireAppProps {
    pub payload_format: Option<u8>,
    pub content_type: Option<String>,
    pub response_topic: Option<String>,
    pub correlation_data: Option<Vec<u8>>,
    pub user_properties: Vec<(String, String)>,
}

impl DeepView for WireAppProps {
    type V = AppView;

    open spec fn deep_view(&self) -> AppView {
        AppView {
            payload_format: self.payload_format,
            content_type: self.content_type.deep_view(),
            response_topic: self.response_topic.deep_view(),
            correlation_data: self.correlation_data.deep_view(),
            user_properties: self.user_properties.deep_view(),
        }
    }
}

/// The form in which properties travel between nodes; nothing is lost.
pub fn app_to_wire(a: &AppProperties) -> (r: WireAppProps)
    ensures
        r.deep_view() == a.deep_view(),
{
    let correlation_data: Option<Vec<u8>> = match &a.correlation_data {
        Some(b) => {
            let v = b.to_vec();
            assert(v.deep_view() =~= v@);
            Some(v)
        },
        None => None,
    };
    WireAppProps {
        payload_format: a.payload_format,
        content_type: copy_text(&a.content_type),
        response_topic: copy_text(&a.response_topic),
        correlation_data,
        user_properties: copy_keys(&a.user_properties),
    }
}

/// The properties that arrived from another node; nothing is lost.
pub fn app_from_wire(w: WireAppProps) -> (r: AppProperties)
    ensures
        r.deep_view() == w.deep_view(),
{
    let correlation_data: Option<Payload> = match w.correlation_data {
        Some(v) => {
            assert(v.deep_view() =~= v@);
            Some(Payload::from_vec(v))
        },
        None => None,
    };
    AppProperties {
        payload_format: w.payload_format,
        content_type: w.content_type,
        response_topic: w.response_topic,
        correlation_data,
        user_properties: w.user_properties,
    }
}

/// A message on its way to a subscriber, or kept for one.
#[derive(Debug)]
pub struct Message {
    /// Where it was published.
    pub topic: String,
    /// What was published.
    pub payload: Payload,
    /// The guarantee it is delivered under.
    pub qos: QoS,
    /// Whether it is delivered as a retained message.
    pub retain: bool,
    /// The application's properties.
    pub app: Arc<AppProperties>,
    /// When it stops being worth delivering.
    pub expires_at: Option<u64>,
}

/// Model of [`Message`].
#[verifier::ext_equal]
pub struct MessageView {
    pub topic: Seq<char>,
    pub payload: Seq<u8>,
    pub qos: QoS,
    pub retain: bool,
    pub app: AppView,
    pub expires_at: Option<u64>,
}

impl DeepView for Message {
    type V = MessageView;

    open spec fn deep_view(&self) -> MessageView {
        MessageView {
            topic: self.topic@,
            payload: self.payload.deep_view(),
            qos: self.qos,
            retain: self.retain,
            app: self.app.deep_view(),
            expires_at: self.expires_at,
        }
    }
}

impl Clone for Message {
    fn clone(&self) -> (r: Self)
        ensures
            r.deep_view() == self.deep_view(),
    {
        Message {
            topic: self.topic.clone(),
            payload: self.payload.clone(),
            qos: self.qos,
            retain: self.retain,
            app: self.app.clone(),
            expires_at: self.expires_at,
        }
    }
}

/// The room that a message takes: the bytes of its topic and of its payload.
pub open spec fn message_size(m: MessageView) -> nat {
    encode_utf8(m.topic).len() + m.payload.len()
}

/// See [`message_size`]; held at the largest `usize`.
pub fn message_bytes(m: &Message) -> (r: usize)
    ensures
        r == (if message_size(m.deep_view()) > usize::MAX {
            usize::MAX as nat
        } else {
            message_size(m.deep_view())
        }),
{
    m.topic.as_str().as_bytes().len().saturating_add(m.payload.len())
}

/// What a publisher hands in.
#[derive(Debug)]
pub struct Publication {
    /// Where to publish.
    pub topic: String,
    /// What to publish.
    pub payload: Payload,
    /// The guarantee asked for.
    pub qos: QoS,
    /// Whether the broker is to keep it for later subscribers.
    pub retain: bool,
    /// For how many seconds it is worth delivering.
    pub message_expiry: Option<u32>,
    /// The application's properties.
    pub app: Arc<AppProperties>,
}

/// Model of [`Publication`].
#[verifier::ext_equal]
pub struct PublicationView {
    pub topic: Seq<char>,
    pub payload: Seq<u8>,
    pub qos: QoS,
    pub retain: bool,
    pub message_expiry: Option<u32>,
    pub app: AppView,
}

impl DeepView for Publication {
    type V = PublicationView;

    open spec fn deep_view(&self) -> PublicationView {
        PublicationView {
            topic: self.topic@,
            payload: self.payload.deep_view(),
            qos: self.qos,
            retain: self.retain,
            message_expiry: self.message_expiry,
            app: self.app.deep_view(),
        }
    }
}

impl Clone for Publication {
    fn clone(&self) -> (r: Self)
        ensures
            r.deep_view() == self.deep_view(),
    {
        Publication {
            topic: self.topic.clone(),
            payload: self.payload.clone(),
            qos: self.qos,
            retain: self.retain,
            message_expiry: self.message_expiry,
            app: self.app.clone(),
        }
    }
}

impl PublicationView {
    /// The message that carries this publication under guarantee `qos`, from time `now` on.
    pub open spec fn message(self, qos: QoS, retain: bool, now: u64) -> MessageView {
        MessageView {
            topic: self.topic,
            payload: self.payload,
            qos,
            retain,
            app: self.app,
            expires_at: deadline(now, self.message_expiry),
        }
    }
}

impl Publication {
    /// See [`PublicationView::message`].
    pub fn message(&self, qos: QoS, retain: bool, now: u64) -> (r: Message)
        ensures
            r.deep_view() == self.deep_view().message(qos, retain, now),
    {
        Message {
            topic: self.topic.clone(),
            payload: self.payload.clone(),
            qos,
            retain,
            app: self.app.clone(),
            expires_at: crate::ids::deadline_of(now, self.message_expiry),
        }
    }
}

} // verus!
