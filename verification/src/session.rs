//! Sessions: who is connected, under what right, and what an attach asks for.

use vstd::prelude::*;

use crate::ids::ClientId;
use crate::message::{Message, MessageView, Publication, PublicationView};
use crate::packet::ProtocolVersion;
use crate::policy::AuthMethod;
use crate::qos::QoS;
use crate::subscriptions::Subscription;

verus! {

/// The session expiry interval of a session that never expires.
pub const SESSION_EXPIRY_NEVER: u32 = u32::MAX;

/// How many queued messages an attach replays at most.
pub const REPLAY_LIMIT: usize = 10_000;

/// An authenticated principal.
#[derive(Debug)]
pub struct Identity {
    pub subject: String,
    pub groups: Vec<String>,
}

/// Model of [`Identity`].
#[verifier::ext_equal]
pub struct IdentityView {
    pub subject: Seq<char>,
    pub groups: Seq<Seq<char>>,
}

impl DeepView for Identity {
    type V = IdentityView;

    open spec fn deep_view(&self) -> IdentityView {
        IdentityView { subject: self.subject@, groups: self.groups.deep_view() }
    }
}

/// The facts under which a connection was let in.
#[derive(Debug)]
pub struct Admission {
    pub identity: Identity,
    pub method: AuthMethod,
    pub cert_serial: Option<Vec<u8>>,
    pub protocol: ProtocolVersion,
}

/// Model of [`Admission`].
#[verifier::ext_equal]
pub struct AdmissionView {
    pub identity: IdentityView,
    pub method: AuthMethod,
    pub cert_serial: Option<Seq<u8>>,
    pub protocol: ProtocolVersion,
}

impl DeepView for Admission {
    type V = AdmissionView;

    open spec fn deep_view(&self) -> AdmissionView {
        AdmissionView {
            identity: self.identity.deep_view(),
            method: self.method,
            cert_serial: self.cert_serial.deep_view(),
            protocol: self.protocol,
        }
    }
}

/// A connected client.
#[derive(Debug)]
pub struct Online {
    /// The connection.
    pub conn_id: u64,
    /// What to publish should the connection end without a goodbye.
    pub will: Option<Publication>,
    /// The facts it was let in under.
    pub admission: Admission,
    /// When it attached.
    pub attached_at: u64,
    /// Packets that were handed to the connection and not written yet.
    pub queued: usize,
    /// The room that those packets take.
    pub queued_bytes: usize,
}

/// Model of [`Online`].
#[verifier::ext_equal]
pub struct OnlineView {
    pub conn_id: u64,
    pub will: Option<PublicationView>,
    pub admission: AdmissionView,
    pub attached_at: u64,
    pub queued: usize,
    pub queued_bytes: usize,
}

impl DeepView for Online {
    type V = OnlineView;

    open spec fn deep_view(&self) -> OnlineView {
        OnlineView {
            conn_id: self.conn_id,
            will: self.will.deep_view(),
            admission: self.admission.deep_view(),
            attached_at: self.attached_at,
            queued: self.queued,
            queued_bytes: self.queued_bytes,
        }
    }
}

/// What a client that attaches is told.
#[derive(Debug, Clone, Copy, PartialEq, Eq, Structural)]
pub enum AttachOutcome {
    /// Attached; whether there was a session to resume.
    Present(bool),
    /// The session could not be read in time: try again.
    Unavailable,
    /// The session belongs to somebody else.
    OwnerMismatch,
    /// No new session is taken.
    QuotaExceeded,
}

/// An attach whose session is being fetched.
#[derive(Debug)]
pub struct PendingAttach {
    pub client: ClientId,
    pub admission: Admission,
    pub conn_id: u64,
    pub session_expiry: u32,
    pub receive_maximum: u16,
    pub will: Option<Publication>,
    /// Names the client that waits for the outcome.
    pub reply: u64,
}

/// Model of [`PendingAttach`].
#[verifier::ext_equal]
pub struct AttachView {
    pub client: Seq<char>,
    pub admission: AdmissionView,
    pub conn_id: u64,
    pub session_expiry: u32,
    pub receive_maximum: u16,
    pub will: Option<PublicationView>,
    pub reply: u64,
}

impl DeepView for PendingAttach {
    type V = AttachView;

    open spec fn deep_view(&self) -> AttachView {
        AttachView {
            client: self.client.deep_view(),
            admission: self.admission.deep_view(),
            conn_id: self.conn_id,
            session_expiry: self.session_expiry,
            receive_maximum: self.receive_maximum,
            will: self.will.deep_view(),
            reply: self.reply,
        }
    }
}

/// A message in the durable queue of a session.
#[derive(Debug)]
pub struct QueuedMessage {
    pub offset: u64,
    pub message: Message,
    pub expiry_at: Option<u64>,
}

/// Model of [`QueuedMessage`].
#[verifier::ext_equal]
pub struct QueuedView {
    pub offset: u64,
    pub message: MessageView,
    pub expiry_at: Option<u64>,
}

impl DeepView for QueuedMessage {
    type V = QueuedView;

    open spec fn deep_view(&self) -> QueuedView {
        QueuedView {
            offset: self.offset,
            message: self.message.deep_view(),
            expiry_at: self.expiry_at,
        }
    }
}

/// What the store said of a session.
#[derive(Debug)]
pub enum SessionRecovery {
    /// The session is the claimant's, and its queue can be read; its subscriptions.
    Ready {
        present: bool,
        subscriptions: Vec<Subscription>,
    },
    /// Whatever was stored is gone.
    Cleaned,
    /// The store did not answer in time.
    Unavailable,
    /// The session is somebody else's.
    Denied {
        owner: String,
    },
}

/// Model of [`SessionRecovery`].
pub enum RecoveryView {
    Ready {
        present: bool,
        subscriptions: Seq<(Seq<char>, QoS)>,
    },
    Cleaned,
    Unavailable,
    Denied {
        owner: Seq<char>,
    },
}

impl DeepView for SessionRecovery {
    type V = RecoveryView;

    open spec fn deep_view(&self) -> RecoveryView {
        match *self {
            SessionRecovery::Ready { present, subscriptions } => RecoveryView::Ready {
                present,
                subscriptions: subscriptions.deep_view(),
            },
            SessionRecovery::Cleaned => RecoveryView::Cleaned,
            SessionRecovery::Unavailable => RecoveryView::Unavailable,
            SessionRecovery::Denied { owner } => RecoveryView::Denied { owner: owner@ },
        }
    }
}

/// A fault of the store.
#[derive(Debug)]
pub enum StorageError {
    NoQuorum,
    NotOwner,
    Unavailable(String),
    Backend(String),
    NotFound,
}

/// The class of a fault, for counting.
pub fn durable_failure_reason(e: &StorageError) -> (r: &'static str)
    ensures
        r@ == (match *e {
            StorageError::NoQuorum => "no-quorum"@,
            StorageError::NotOwner => "not-owner"@,
            StorageError::Unavailable(_) => "unavailable"@,
            StorageError::Backend(_) => "backend"@,
            StorageError::NotFound => "not-found"@,
        }),
{
    match e {
        StorageError::NoQuorum => "no-quorum",
        StorageError::NotOwner => "not-owner",
        StorageError::Unavailable(_) => "unavailable",
        StorageError::Backend(_) => "backend",
        StorageError::NotFound => "not-found",
    }
}

} // verus!
