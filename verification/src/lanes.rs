//! Lanes: one bounded queue of durable work per session.
//!
//! The work of a session is done in order, away from the hub. A job carries everything that
//! the work needs, decided when the job was made; what comes back is what the store did.

use vstd::prelude::*;

use crate::ids::{ClientId, NodeId};
use crate::message::{no_properties, AppProperties, Message, MessageView, Payload};
use crate::outcome::DurableOutcome;
use crate::qos::QoS;
use crate::qos2::{Qos2LaneOp, Qos2OpView};
use crate::session::{AttachView, PendingAttach, StorageError};
use std::sync::Arc;

verus! {

/// How many jobs of delivery a lane takes.
pub const LANE_QUEUE_CAP: usize = 256;

/// How many jobs a lane takes beyond that, for work that ends or tidies a session.
pub const LANE_CONTROL_HEADROOM: usize = 32;

/// What the store did with a job.
#[derive(Debug, Clone, Copy, PartialEq, Eq, Structural)]
pub enum LaneOutcome {
    /// Recorded at this offset.
    Stored(u64),
    /// Turned away by the session's own cap: shed, as asked.
    Dropped,
    /// The write failed.
    Failed,
    /// There was nothing to write.
    Passed,
}

/// Who is owed an answer when a job is done.
#[derive(Debug)]
pub enum AppendThen {
    /// The publish of this number.
    Gate(u64),
    /// The node that forwarded the publish of this number.
    Peer(NodeId, u64),
    /// Nobody.
    Ungated,
}

/// Model of [`AppendThen`].
pub enum ThenView {
    Gate(u64),
    Peer(Seq<char>, u64),
    Ungated,
}

impl DeepView for AppendThen {
    type V = ThenView;

    open spec fn deep_view(&self) -> ThenView {
        match *self {
            AppendThen::Gate(id) => ThenView::Gate(id),
            AppendThen::Peer(node, seq) => ThenView::Peer(node.deep_view(), seq),
            AppendThen::Ungated => ThenView::Ungated,
        }
    }
}

/// The work of a job.
#[derive(Debug)]
pub enum LaneWork {
    /// Append the message to the session's queue.
    Append {
        expiry_at: Option<u64>,
    },
    /// Nothing: the job keeps its place in the order of the session.
    Passthrough,
    /// Record that the packet id stands for the message at the offset.
    RecordOutbound {
        pkid: u16,
        offset: u64,
    },
    /// Append what was never sent, each message with its deadline.
    Spill {
        entries: Vec<(Message, Option<u64>)>,
    },
}

/// Model of [`LaneWork`].
pub enum WorkView {
    Append {
        expiry_at: Option<u64>,
    },
    Passthrough,
    RecordOutbound {
        pkid: u16,
        offset: u64,
    },
    Spill {
        entries: Seq<(MessageView, Option<u64>)>,
    },
}

impl DeepView for LaneWork {
    type V = WorkView;

    open spec fn deep_view(&self) -> WorkView {
        match *self {
            LaneWork::Append { expiry_at } => WorkView::Append { expiry_at },
            LaneWork::Passthrough => WorkView::Passthrough,
            LaneWork::RecordOutbound { pkid, offset } => WorkView::RecordOutbound { pkid, offset },
            LaneWork::Spill { entries } => WorkView::Spill { entries: entries.deep_view() },
        }
    }
}

/// One piece of work of a session's lane.
#[derive(Debug)]
pub struct AppendJob {
    /// The session.
    pub client: ClientId,
    /// The message.
    pub message: Message,
    /// What to do.
    pub work: LaneWork,
    /// Who is owed an answer.
    pub owed: AppendThen,
    /// The connection that the delivery was planned for.
    pub planned_conn: Option<u64>,
    /// Whether to deliver it as a retained message.
    pub retain: bool,
    /// The interval to tell the subscriber.
    pub message_expiry: Option<u32>,
}

/// Model of [`AppendJob`].
#[verifier::ext_equal]
pub struct JobView {
    pub client: Seq<char>,
    pub message: MessageView,
    pub work: WorkView,
    pub owed: ThenView,
    pub planned_conn: Option<u64>,
    pub retain: bool,
    pub message_expiry: Option<u32>,
}

impl DeepView for AppendJob {
    type V = JobView;

    open spec fn deep_view(&self) -> JobView {
        JobView {
            client: self.client.deep_view(),
            message: self.message.deep_view(),
            work: self.work.deep_view(),
            owed: self.owed.deep_view(),
            planned_conn: self.planned_conn,
            retain: self.retain,
            message_expiry: self.message_expiry,
        }
    }
}

/// The message of a job that has none.
pub open spec fn blank_message() -> MessageView {
    MessageView {
        topic: Seq::empty(),
        payload: Seq::empty(),
        qos: QoS::AtMostOnce,
        retain: false,
        app: no_properties(),
        expires_at: None,
    }
}

/// A job that delivers nothing and owes nobody.
pub open spec fn control_job(client: Seq<char>, work: WorkView) -> JobView {
    JobView {
        client,
        message: blank_message(),
        work,
        owed: ThenView::Ungated,
        planned_conn: None,
        retain: false,
        message_expiry: None,
    }
}

impl AppendJob {
    /// See [`control_job`].
    pub fn control(client: ClientId, work: LaneWork) -> (r: Self)
        ensures
            r.deep_view() == control_job(client.deep_view(), work.deep_view()),
    {
        AppendJob {
            client,
            message: Message {
                topic: String::new(),
                payload: Payload::empty(),
                qos: QoS::AtMostOnce,
                retain: false,
                app: Arc::new(AppProperties::none()),
                expires_at: None,
            },
            work,
            owed: AppendThen::Ungated,
            planned_conn: None,
            retain: false,
            message_expiry: None,
        }
    }

    /// The job that stands for a finished removal.
    pub fn discard_mark(client: ClientId) -> (r: Self)
        ensures
            r.deep_view() == control_job(client.deep_view(), WorkView::Passthrough),
    {
        AppendJob::control(client, LaneWork::Passthrough)
    }
}

/// What a lane is handed.
#[derive(Debug)]
pub enum LaneJob {
    /// Do the work and report.
    Deliver(Box<AppendJob>),
    /// Remove what is stored of the session, then go on with the attach.
    Discard(Box<PendingAttach>),
    /// Remove what is stored of the session.
    Remove {
        client: ClientId,
    },
    /// Do a step of the exactly-once bookkeeping.
    Qos2Op {
        client: ClientId,
        op: Qos2LaneOp,
    },
}

/// Model of [`LaneJob`].
pub enum LaneJobView {
    Deliver(JobView),
    Discard(AttachView),
    Remove {
        client: Seq<char>,
    },
    Qos2Op {
        client: Seq<char>,
        op: Qos2OpView,
    },
}

impl DeepView for LaneJob {
    type V = LaneJobView;

    open spec fn deep_view(&self) -> LaneJobView {
        match *self {
            LaneJob::Deliver(job) => LaneJobView::Deliver(job.deep_view()),
            LaneJob::Discard(p) => LaneJobView::Discard(p.deep_view()),
            LaneJob::Remove { client } => LaneJobView::Remove { client: client.deep_view() },
            LaneJob::Qos2Op { client, op } => LaneJobView::Qos2Op {
                client: client.deep_view(),
                op: op.deep_view(),
            },
        }
    }
}

/// One session's lane.
#[derive(Debug, Clone, Copy, PartialEq, Eq, Structural)]
pub struct Lane {
    /// Jobs that were taken in and are not done.
    pub outstanding: usize,
    /// Jobs that were taken in and not started.
    pub queued: usize,
}

impl DeepView for Lane {
    type V = Lane;

    open spec fn deep_view(&self) -> Lane {
        *self
    }
}

impl Lane {
    /// A lane without jobs.
    pub open spec fn idle() -> Lane {
        Lane { outstanding: 0, queued: 0 }
    }

    /// Whether the lane takes a job of delivery.
    pub open spec fn takes_delivery(self) -> bool {
        self.queued < LANE_QUEUE_CAP
    }

    /// Whether the lane takes a job at all.
    pub open spec fn takes_control(self) -> bool {
        self.queued < LANE_QUEUE_CAP + LANE_CONTROL_HEADROOM
    }

    /// Whether more than `soft` jobs of the lane were not started.
    pub open spec fn deeper_than(self, soft: Option<usize>) -> bool {
        soft matches Some(n) && self.queued > n
    }

    /// The lane after it took a job in.
    pub open spec fn taken_in(self) -> Lane {
        Lane {
            outstanding: if self.outstanding == usize::MAX {
                usize::MAX
            } else {
                (self.outstanding + 1) as usize
            },
            queued: if self.queued == usize::MAX {
                usize::MAX
            } else {
                (self.queued + 1) as usize
            },
        }
    }

    /// The lane after a job was done.
    pub open spec fn done(self) -> Lane {
        Lane {
            outstanding: if self.outstanding == 0 {
                0
            } else {
                (self.outstanding - 1) as usize
            },
            ..self
        }
    }

    /// The lane after a job was started.
    pub open spec fn started(self) -> Lane {
        Lane {
            queued: if self.queued == 0 {
                0
            } else {
                (self.queued - 1) as usize
            },
            ..self
        }
    }

    /// See [`Lane::idle`].
    pub fn new() -> (r: Self)
        ensures
            r == Lane::idle(),
    {
        Lane { outstanding: 0, queued: 0 }
    }

    /// See [`Lane::takes_delivery`].
    pub fn has_room(&self) -> (r: bool)
        ensures
            r == self.takes_delivery(),
    {
        self.queued < LANE_QUEUE_CAP
    }

    /// See [`Lane::takes_control`].
    pub fn has_headroom(&self) -> (r: bool)
        ensures
            r == self.takes_control(),
    {
        self.queued < LANE_QUEUE_CAP + LANE_CONTROL_HEADROOM
    }

    /// See [`Lane::deeper_than`].
    pub fn is_deeper_than(&self, soft: Option<usize>) -> (r: bool)
        ensures
            r == self.deeper_than(soft),
    {
        match soft {
            Some(n) => self.queued > n,
            None => false,
        }
    }

    /// See [`Lane::taken_in`].
    pub fn take_in(&mut self)
        ensures
            *final(self) == old(self).taken_in(),
    {
        self.outstanding = self.outstanding.saturating_add(1);
        self.queued = self.queued.saturating_add(1);
    }

    /// See [`Lane::done`].
    pub fn finish(&mut self)
        ensures
            *final(self) == old(self).done(),
    {
        self.outstanding = self.outstanding.saturating_sub(1);
    }

    /// See [`Lane::started`].
    pub fn start(&mut self)
        ensures
            *final(self) == old(self).started(),
    {
        self.queued = self.queued.saturating_sub(1);
    }
}

/// The jobs of one forwarded publish that a node waits for.
#[derive(Debug, Clone, Copy, PartialEq, Eq, Structural)]
pub struct RemoteAppendGate {
    /// How many are not done.
    pub awaiting: usize,
    /// The worst of those that are.
    pub worst: DurableOutcome,
}

impl DeepView for RemoteAppendGate {
    type V = RemoteAppendGate;

    open spec fn deep_view(&self) -> RemoteAppendGate {
        *self
    }
}

/// Who is told what becomes of a delivery.
#[derive(Debug)]
pub enum AppendGate {
    /// The publisher of this number.
    Pending(u64),
    /// The node that forwarded it.
    Peer {
        node: NodeId,
        seq: u64,
    },
    /// Nobody.
    Nobody,
}

/// Model of [`AppendGate`].
pub enum GateView {
    Pending(u64),
    Peer {
        node: Seq<char>,
        seq: u64,
    },
    Nobody,
}

impl DeepView for AppendGate {
    type V = GateView;

    open spec fn deep_view(&self) -> GateView {
        match *self {
            AppendGate::Pending(id) => GateView::Pending(id),
            AppendGate::Peer { node, seq } => GateView::Peer { node: node.deep_view(), seq },
            AppendGate::Nobody => GateView::Nobody,
        }
    }
}

impl GateView {
    /// Whether somebody is told.
    pub open spec fn answered(self) -> bool {
        !(self is Nobody)
    }

    /// Who is owed an answer by the jobs of the delivery.
    pub open spec fn owed(self) -> ThenView {
        match self {
            GateView::Pending(id) => ThenView::Gate(id),
            GateView::Peer { node, seq } => ThenView::Peer(node, seq),
            GateView::Nobody => ThenView::Ungated,
        }
    }
}

impl AppendGate {
    /// See [`GateView::answered`].
    pub fn answerable(&self) -> (r: bool)
        ensures
            r == self.deep_view().answered(),
    {
        match self {
            AppendGate::Nobody => false,
            _ => true,
        }
    }

    /// See [`GateView::owed`].
    pub fn owes(&self) -> (r: AppendThen)
        ensures
            r.deep_view() == self.deep_view().owed(),
    {
        match self {
            AppendGate::Pending(id) => AppendThen::Gate(*id),
            AppendGate::Peer { node, seq } => AppendThen::Peer(node.clone(), *seq),
            AppendGate::Nobody => AppendThen::Ungated,
        }
    }
}

/// What a store said of an append.
#[derive(Debug)]
pub enum Enqueued {
    /// Recorded, at the cost of `evicted` older messages.
    Stored {
        offset: u64,
        evicted: u64,
    },
    /// Turned away by the cap of the queue.
    Rejected,
}

/// The call to the store that a job asks for.
#[derive(Debug)]
pub enum StoreCall<'a> {
    /// None.
    Nothing,
    /// Append the message.
    Enqueue {
        message: &'a Message,
        expiry_at: Option<u64>,
    },
    /// Record a packet id.
    Record {
        pkid: u16,
        offset: u64,
    },
    /// Append each of these, come what may.
    EnqueueAll {
        entries: &'a Vec<(Message, Option<u64>)>,
    },
}

/// What the store said.
#[derive(Debug)]
pub enum StoreAnswer {
    /// Nothing was asked, or the answers do not matter.
    Nothing,
    /// The answer to an append.
    Enqueued(Result<Enqueued, StorageError>),
    /// The answer to a record.
    Recorded(Result<(), StorageError>),
}

/// The call that `job` asks for.
pub fn lane_call(job: &AppendJob) -> (r: StoreCall<'_>)
    ensures
        match r {
            StoreCall::Nothing => job.work is Passthrough,
            StoreCall::Enqueue { message, expiry_at } => job.work == (LaneWork::Append {
                expiry_at,
            }) && *message == job.message,
            StoreCall::Record { pkid, offset } => job.work == (LaneWork::RecordOutbound {
                pkid,
                offset,
            }),
            StoreCall::EnqueueAll { entries } => job.work == (LaneWork::Spill {
                entries: *entries,
            }),
        },
{
    match &job.work {
        LaneWork::Passthrough => StoreCall::Nothing,
        LaneWork::RecordOutbound { pkid, offset } => StoreCall::Record {
            pkid: *pkid,
            offset: *offset,
        },
        LaneWork::Spill { entries } => StoreCall::EnqueueAll { entries },
        LaneWork::Append { expiry_at } => StoreCall::Enqueue {
            message: &job.message,
            expiry_at: *expiry_at,
        },
    }
}

/// What a job came to. An answer to another question than the job's is a failure.
pub open spec fn work_outcome(work: WorkView, answer: StoreAnswer) -> LaneOutcome {
    match work {
        WorkView::Passthrough => LaneOutcome::Passed,
        WorkView::Spill { .. } => LaneOutcome::Passed,
        WorkView::RecordOutbound { pkid, offset } => match answer {
            StoreAnswer::Recorded(Ok(_)) => LaneOutcome::Stored(offset),
            _ => LaneOutcome::Failed,
        },
        WorkView::Append { .. } => match answer {
            StoreAnswer::Enqueued(Ok(Enqueued::Stored { offset, .. })) => LaneOutcome::Stored(
                offset,
            ),
            StoreAnswer::Enqueued(Ok(Enqueued::Rejected)) => LaneOutcome::Dropped,
            _ => LaneOutcome::Failed,
        },
    }
}

/// See [`work_outcome`].
pub fn lane_outcome(job: &AppendJob, answer: &StoreAnswer) -> (r: LaneOutcome)
    ensures
        r == work_outcome(job.work.deep_view(), *answer),
{
    match &job.work {
        LaneWork::Passthrough => LaneOutcome::Passed,
        LaneWork::Spill { .. } => LaneOutcome::Passed,
        LaneWork::RecordOutbound { offset, .. } => match answer {
            StoreAnswer::Recorded(Ok(_)) => LaneOutcome::Stored(*offset),
            _ => LaneOutcome::Failed,
        },
        LaneWork::Append { .. } => match answer {
            StoreAnswer::Enqueued(Ok(Enqueued::Stored { offset, .. })) => LaneOutcome::Stored(
                *offset,
            ),
            StoreAnswer::Enqueued(Ok(Enqueued::Rejected)) => LaneOutcome::Dropped,
            _ => LaneOutcome::Failed,
        },
    }
}

} // verus!
