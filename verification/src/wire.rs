//! The frames that the nodes of a cluster exchange.

use vstd::prelude::*;

use crate::message::{app_to_wire, AppView, Publication, PublicationView, WireAppProps};
use crate::outcome::ForwardVerdict;
use crate::qos::{level, qos_num, QoS};

verus! {

/// The oldest protocol between nodes.
pub const PROTO_MIN: u32 = 1;

/// The first protocol between nodes in which the answer to a forwarded publish says what became
/// of it.
pub const PROTO_FORWARD_ANSWERS: u32 = 7;

/// A publication as it travels between nodes.
#[derive(Debug)]
pub struct WirePublication {
    pub topic: String,
    pub payload: Vec<u8>,
    pub qos: u8,
    pub retain: bool,
    pub message_expiry: Option<u32>,
    pub app: WireAppProps,
}

/// Model of [`WirePublication`].
#[verifier::ext_equal]
pub struct WirePublicationView {
    pub topic: Seq<char>,
    pub payload: Seq<u8>,
    pub qos: u8,
    pub retain: bool,
    pub message_expiry: Option<u32>,
    pub app: AppView,
}

impl DeepView for WirePublication {
    type V = WirePublicationView;

    open spec fn deep_view(&self) -> WirePublicationView {
        WirePublicationView {
            topic: self.topic@,
            payload: self.payload@,
            qos: self.qos,
            retain: self.retain,
            message_expiry: self.message_expiry,
            app: self.app.deep_view(),
        }
    }
}

/// `p` as it travels, under guarantee `qos`.
pub open spec fn on_wire(p: PublicationView, qos: QoS, retain: bool) -> WirePublicationView {
    WirePublicationView {
        topic: p.topic,
        payload: p.payload,
        qos: level(qos),
        retain,
        message_expiry: p.message_expiry,
        app: p.app,
    }
}

/// See [`on_wire`].
pub fn to_wire(p: &Publication, qos: QoS, retain: bool) -> (r: WirePublication)
    ensures
        r.deep_view() == on_wire(p.deep_view(), qos, retain),
{
    WirePublication {
        topic: p.topic.clone(),
        payload: p.payload.to_vec(),
        qos: qos_num(qos),
        retain,
        message_expiry: p.message_expiry,
        app: app_to_wire(&p.app),
    }
}

/// One member of a shared group, and whether it is connected to the node that tells of it.
#[derive(Debug)]
pub struct SharedMemberWire {
    pub client: String,
    pub qos: u8,
    pub online: bool,
}

/// Model of [`SharedMemberWire`].
pub struct SharedMemberWireView {
    pub client: Seq<char>,
    pub qos: u8,
    pub online: bool,
}

impl DeepView for SharedMemberWire {
    type V = SharedMemberWireView;

    open spec fn deep_view(&self) -> SharedMemberWireView {
        SharedMemberWireView { client: self.client@, qos: self.qos, online: self.online }
    }
}

/// One shared group of a node.
#[derive(Debug)]
pub struct SharedGroupWire {
    pub group: String,
    pub filter: String,
    pub members: Vec<SharedMemberWire>,
}

/// Model of [`SharedGroupWire`].
pub struct SharedGroupWireView {
    pub group: Seq<char>,
    pub filter: Seq<char>,
    pub members: Seq<SharedMemberWireView>,
}

impl DeepView for SharedGroupWire {
    type V = SharedGroupWireView;

    open spec fn deep_view(&self) -> SharedGroupWireView {
        SharedGroupWireView {
            group: self.group@,
            filter: self.filter@,
            members: self.members.deep_view(),
        }
    }
}

/// One retained message of a snapshot, with the token of the commit that made it. An empty
/// payload tells of a topic that was cleared.
#[derive(Debug)]
pub struct RetainedWireEntry {
    pub topic: String,
    pub payload: Vec<u8>,
    pub qos: u8,
    pub epoch: u64,
    pub offset: u64,
    pub props: WireAppProps,
}

/// Model of [`RetainedWireEntry`].
#[verifier::ext_equal]
pub struct RetainedEntryView {
    pub topic: Seq<char>,
    pub payload: Seq<u8>,
    pub qos: u8,
    pub epoch: u64,
    pub offset: u64,
    pub props: AppView,
}

impl DeepView for RetainedWireEntry {
    type V = RetainedEntryView;

    open spec fn deep_view(&self) -> RetainedEntryView {
        RetainedEntryView {
            topic: self.topic@,
            payload: self.payload@,
            qos: self.qos,
            epoch: self.epoch,
            offset: self.offset,
            props: self.props.deep_view(),
        }
    }
}

/// A frame between two nodes.
#[derive(Debug)]
pub enum PeerMessage {
    /// Deliver this; no answer is expected.
    Publish(WirePublication),
    /// Deliver this and answer under `seq`.
    PublishAcked {
        seq: u64,
        publication: WirePublication,
    },
    /// The answer of a node that knows no verdicts.
    PublishAck {
        seq: u64,
        ok: bool,
    },
    /// The answer to a forwarded publish.
    PublishVerdict {
        seq: u64,
        verdict: ForwardVerdict,
    },
    /// Deliver this to one client; no answer is expected.
    SharedDeliver {
        client: String,
        publication: WirePublication,
    },
    /// Deliver this to one client and answer under `seq`.
    SharedDeliverAcked {
        seq: u64,
        client: String,
        publication: WirePublication,
    },
    /// Every filter that the sender's clients subscribe to.
    Interest {
        filters: Vec<String>,
    },
    /// Every shared group of the sender.
    SharedInterest {
        groups: Vec<SharedGroupWire>,
    },
    /// A fingerprint of the sender's retained messages.
    RetainedDigest {
        count: u64,
        hash: u64,
        value_hash: u64,
    },
    /// Asks for the receiver's retained messages.
    RetainedRequest,
    /// Retained messages of the sender.
    RetainedSnapshot {
        messages: Vec<RetainedWireEntry>,
    },
    /// Asks the owner of a topic to commit a retained message.
    RetainedCommit {
        topic: String,
        payload: Vec<u8>,
        qos: u8,
        props: WireAppProps,
        seq: u64,
    },
    /// The answer to a commit: its token, or nothing when it was not committed.
    RetainedCommitAck {
        seq: u64,
        token: Option<(u64, u64)>,
    },
    /// A retained message that its owner has committed.
    RetainedUpdate {
        topic: String,
        payload: Vec<u8>,
        qos: u8,
        epoch: u64,
        offset: u64,
        props: WireAppProps,
    },
}

/// Model of [`PeerMessage`].
pub enum FrameView {
    Publish(WirePublicationView),
    PublishAcked {
        seq: u64,
        publication: WirePublicationView,
    },
    PublishAck {
        seq: u64,
        ok: bool,
    },
    PublishVerdict {
        seq: u64,
        verdict: ForwardVerdict,
    },
    SharedDeliver {
        client: Seq<char>,
        publication: WirePublicationView,
    },
    SharedDeliverAcked {
        seq: u64,
        client: Seq<char>,
        publication: WirePublicationView,
    },
    Interest {
        filters: Seq<Seq<char>>,
    },
    SharedInterest {
        groups: Seq<SharedGroupWireView>,
    },
    RetainedDigest {
        count: u64,
        hash: u64,
        value_hash: u64,
    },
    RetainedRequest,
    RetainedSnapshot {
        messages: Seq<RetainedEntryView>,
    },
    RetainedCommit {
        topic: Seq<char>,
        payload: Seq<u8>,
        qos: u8,
        props: AppView,
        seq: u64,
    },
    RetainedCommitAck {
        seq: u64,
        token: Option<(u64, u64)>,
    },
    RetainedUpdate {
        topic: Seq<char>,
        payload: Seq<u8>,
        qos: u8,
        epoch: u64,
        offset: u64,
        props: AppView,
    },
}

impl DeepView for PeerMessage {
    type V = FrameView;

    open spec fn deep_view(&self) -> FrameView {
        match *self {
            PeerMessage::Publish(p) => FrameView::Publish(p.deep_view()),
            PeerMessage::PublishAcked { seq, publication } => FrameView::PublishAcked {
                seq,
                publication: publication.deep_view(),
            },
            PeerMessage::PublishAck { seq, ok } => FrameView::PublishAck { seq, ok },
            PeerMessage::PublishVerdict { seq, verdict } => FrameView::PublishVerdict {
                seq,
                verdict,
            },
            PeerMessage::SharedDeliver { client, publication } => FrameView::SharedDeliver {
                client: client@,
                publication: publication.deep_view(),
            },
            PeerMessage::SharedDeliverAcked { seq, client, publication } =>
                FrameView::SharedDeliverAcked {
                seq,
                client: client@,
                publication: publication.deep_view(),
            },
            PeerMessage::Interest { filters } => FrameView::Interest {
                filters: filters.deep_view(),
            },
            PeerMessage::SharedInterest { groups } => FrameView::SharedInterest {
                groups: groups.deep_view(),
            },
            PeerMessage::RetainedDigest { count, hash, value_hash } => FrameView::RetainedDigest {
                count,
                hash,
                value_hash,
            },
            PeerMessage::RetainedRequest => FrameView::RetainedRequest,
            PeerMessage::RetainedSnapshot { messages } => FrameView::RetainedSnapshot {
                messages: messages.deep_view(),
            },
            PeerMessage::RetainedCommit { topic, payload, qos, props, seq } =>
                FrameView::RetainedCommit {
                topic: topic@,
                payload: payload@,
                qos,
                props: props.deep_view(),
                seq,
            },
            PeerMessage::RetainedCommitAck { seq, token } => FrameView::RetainedCommitAck {
                seq,
                token,
            },
            PeerMessage::RetainedUpdate { topic, payload, qos, epoch, offset, props } =>
                FrameView::RetainedUpdate {
                topic: topic@,
                payload: payload@,
                qos,
                epoch,
                offset,
                props: props.deep_view(),
            },
        }
    }
}

} // verus!
