//! What the hub asks of the world around it, in order.

use vstd::prelude::*;

use crate::ids::{ClientId, NodeId};
use crate::lanes::{LaneJob, LaneJobView};
use crate::outcome::PublishOutcome;
use crate::packet::{Packet, PacketView};
use crate::qos::QoS;
use crate::policy::BrownoutAxis;
use crate::retained::{MutationView, RetainedMutation, RetainedWrite, WriteView};
use crate::session::{AttachOutcome, AttachView, PendingAttach};
use crate::subscriptions::Subscription;
use crate::wire::{FrameView, PeerMessage};

verus! {

/// One thing to do.
#[derive(Debug)]
pub enum Effect {
    /// Write a packet to a connection.
    Packet {
        conn: u64,
        packet: Packet,
    },
    /// Close a connection once it has written what it was handed.
    Close {
        conn: u64,
    },
    /// Send a frame to a node.
    Frame {
        node: NodeId,
        frame: PeerMessage,
    },
    /// Close the link to a node.
    CloseLink {
        node: NodeId,
    },
    /// Tell a client how its attach went.
    Attached {
        token: u64,
        result: AttachOutcome,
    },
    /// Tell a client which of its filters were granted.
    Subscribed {
        token: u64,
        verdicts: Vec<bool>,
    },
    /// Tell a publisher what became of its publish.
    Published {
        token: u64,
        outcome: PublishOutcome,
    },
    /// Let a publisher wait in vain, so that it publishes again.
    Withheld {
        token: u64,
    },
    /// Answer a ping.
    Pong {
        token: u64,
    },
    /// Hand a job to a session's lane.
    Lane {
        client: ClientId,
        job: LaneJob,
    },
    /// Fetch the session of a client that attaches.
    Recover {
        pending: PendingAttach,
    },
    /// Remove the session of a client that starts anew, then go on with the attach.
    Discard {
        pending: PendingAttach,
    },
    /// Remove a session from the store.
    RemoveSession {
        client: ClientId,
    },
    /// Remove a session that was just created from the store, then tell its client that no new
    /// session is taken.
    Reap {
        client: ClientId,
        token: u64,
    },
    /// Store the subscriptions of a session.
    SetSubscriptions {
        client: ClientId,
        subscriptions: Vec<Subscription>,
    },
    /// Store when a session expires.
    SetSessionExpiry {
        client: ClientId,
        deadline: Option<u64>,
    },
    /// Truncate the queue of a session.
    Ack {
        client: ClientId,
        up_to: u64,
    },
    /// Reserve packet ids for a session.
    ReservePacketIds {
        client: ClientId,
        count: u16,
    },
    /// Read every stored session.
    ScanSessions,
    /// Commit a retained message; an empty payload clears the topic.
    CommitRetained {
        mutation: RetainedMutation,
    },
    /// Write a retained message to the store behind them; an empty payload clears the topic.
    StoreRetained {
        write: RetainedWrite,
    },
    /// Tell that the oldest retained change, of this topic, was given up.
    RetainedGivenUp {
        topic: String,
    },
    /// Show whether a resource is over its watermark.
    ShowAxis {
        axis: BrownoutAxis,
        on: bool,
    },
    /// Show that growth is refused from now on, or taken again.
    ShowBrownout {
        over: bool,
    },
}

/// Model of [`Effect`].
pub enum EffectView {
    Packet {
        conn: u64,
        packet: PacketView,
    },
    Close {
        conn: u64,
    },
    Frame {
        node: Seq<char>,
        frame: FrameView,
    },
    CloseLink {
        node: Seq<char>,
    },
    Attached {
        token: u64,
        result: AttachOutcome,
    },
    Subscribed {
        token: u64,
        verdicts: Seq<bool>,
    },
    Published {
        token: u64,
        outcome: PublishOutcome,
    },
    Withheld {
        token: u64,
    },
    Pong {
        token: u64,
    },
    Lane {
        client: Seq<char>,
        job: LaneJobView,
    },
    Recover {
        pending: AttachView,
    },
    Discard {
        pending: AttachView,
    },
    RemoveSession {
        client: Seq<char>,
    },
    Reap {
        client: Seq<char>,
        token: u64,
    },
    SetSubscriptions {
        client: Seq<char>,
        subscriptions: Seq<(Seq<char>, QoS)>,
    },
    SetSessionExpiry {
        client: Seq<char>,
        deadline: Option<u64>,
    },
    Ack {
        client: Seq<char>,
        up_to: u64,
    },
    ReservePacketIds {
        client: Seq<char>,
        count: u16,
    },
    ScanSessions,
    CommitRetained {
        mutation: MutationView,
    },
    StoreRetained {
        write: WriteView,
    },
    RetainedGivenUp {
        topic: Seq<char>,
    },
    ShowAxis {
        axis: BrownoutAxis,
        on: bool,
    },
    ShowBrownout {
        over: bool,
    },
}

impl DeepView for Effect {
    type V = EffectView;

    open spec fn deep_view(&self) -> EffectView {
        match *self {
            Effect::Packet { conn, packet } => EffectView::Packet {
                conn,
                packet: packet.deep_view(),
            },
            Effect::Close { conn } => EffectView::Close { conn },
            Effect::Frame { node, frame } => EffectView::Frame {
                node: node.deep_view(),
                frame: frame.deep_view(),
            },
            Effect::CloseLink { node } => EffectView::CloseLink { node: node.deep_view() },
            Effect::Attached { token, result } => EffectView::Attached { token, result },
            Effect::Subscribed { token, verdicts } => EffectView::Subscribed {
                token,
                verdicts: verdicts@,
            },
            Effect::Published { token, outcome } => EffectView::Published { token, outcome },
            Effect::Withheld { token } => EffectView::Withheld { token },
            Effect::Pong { token } => EffectView::Pong { token },
            Effect::Lane { client, job } => EffectView::Lane {
                client: client.deep_view(),
                job: job.deep_view(),
            },
            Effect::Recover { pending } => EffectView::Recover { pending: pending.deep_view() },
            Effect::Discard { pending } => EffectView::Discard { pending: pending.deep_view() },
            Effect::RemoveSession { client } => EffectView::RemoveSession {
                client: client.deep_view(),
            },
            Effect::Reap { client, token } => EffectView::Reap {
                client: client.deep_view(),
                token,
            },
            Effect::SetSubscriptions { client, subscriptions } => EffectView::SetSubscriptions {
                client: client.deep_view(),
                subscriptions: subscriptions.deep_view(),
            },
            Effect::SetSessionExpiry { client, deadline } => EffectView::SetSessionExpiry {
                client: client.deep_view(),
                deadline,
            },
            Effect::Ack { client, up_to } => EffectView::Ack { client: client.deep_view(), up_to },
            Effect::ReservePacketIds { client, count } => EffectView::ReservePacketIds {
                client: client.deep_view(),
                count,
            },
            Effect::ScanSessions => EffectView::ScanSessions,
            Effect::CommitRetained { mutation } => EffectView::CommitRetained {
                mutation: mutation.deep_view(),
            },
            Effect::StoreRetained { write } => EffectView::StoreRetained {
                write: write.deep_view(),
            },
            Effect::RetainedGivenUp { topic } => EffectView::RetainedGivenUp { topic: topic@ },
            Effect::ShowAxis { axis, on } => EffectView::ShowAxis { axis, on },
            Effect::ShowBrownout { over } => EffectView::ShowBrownout { over },
        }
    }
}

} // verus!
