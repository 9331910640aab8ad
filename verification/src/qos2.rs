//! The durable half of exactly-once delivery: advancing a packet id past its release, and
//! retiring it once the subscriber is done with it.

use vstd::prelude::*;

use crate::assoc::{Roster, Table};
use crate::ids::ClientId;

verus! {

/// A step for a session's lane.
#[derive(Debug)]
pub enum Qos2LaneOp {
    /// Record that the subscriber has the message of this packet id.
    Advance {
        pkid: u16,
        epoch: u64,
    },
    /// Retire packet ids.
    Retire(Qos2RetirePlan),
}

/// Model of [`Qos2LaneOp`].
pub enum Qos2OpView {
    Advance {
        pkid: u16,
        epoch: u64,
    },
    Retire(RetirePlanView),
}

impl DeepView for Qos2LaneOp {
    type V = Qos2OpView;

    open spec fn deep_view(&self) -> Qos2OpView {
        match *self {
            Qos2LaneOp::Advance { pkid, epoch } => Qos2OpView::Advance { pkid, epoch },
            Qos2LaneOp::Retire(plan) => Qos2OpView::Retire(plan.deep_view()),
        }
    }
}

/// What to retire.
#[derive(Debug)]
pub struct Qos2RetirePlan {
    pub client: ClientId,
    /// Tells a session apart from an earlier one of the same client.
    pub epoch: u64,
    /// How far the queue may be truncated.
    pub up_to: Option<u64>,
    /// Packet ids that are done, and where their messages stand.
    pub candidates: Vec<(u16, Option<u64>)>,
    /// Packet ids whose delivery an earlier session left behind.
    pub orphans: Vec<(u16, u64)>,
}

/// Model of [`Qos2RetirePlan`].
#[verifier::ext_equal]
pub struct RetirePlanView {
    pub client: Seq<char>,
    pub epoch: u64,
    pub up_to: Option<u64>,
    pub candidates: Seq<(u16, Option<u64>)>,
    pub orphans: Seq<(u16, u64)>,
}

impl DeepView for Qos2RetirePlan {
    type V = RetirePlanView;

    open spec fn deep_view(&self) -> RetirePlanView {
        RetirePlanView {
            client: self.client.deep_view(),
            epoch: self.epoch,
            up_to: self.up_to,
            candidates: self.candidates.deep_view(),
            orphans: self.orphans.deep_view(),
        }
    }
}

impl Qos2RetirePlan {
    /// Whether there is nothing to retire.
    pub fn is_empty(&self) -> (r: bool)
        ensures
            r == (self.deep_view().candidates.len() == 0 && self.deep_view().orphans.len() == 0),
    {
        self.candidates.len() == 0 && self.orphans.len() == 0
    }
}

/// What a step came to.
#[derive(Debug)]
pub enum Qos2OpOutcome {
    Advance {
        pkid: u16,
        epoch: u64,
        ok: bool,
    },
    Retire(Qos2RetireResult),
}

/// What was retired.
#[derive(Debug)]
pub struct Qos2RetireResult {
    pub client: ClientId,
    pub epoch: u64,
    /// How far the queue is known to be truncated.
    pub durable: Option<u64>,
    /// Packet ids that are free again.
    pub cleared: Vec<u16>,
    /// Orphans that are gone.
    pub orphans_cleared: Vec<u16>,
}

/// Model of [`Qos2RetireResult`].
#[verifier::ext_equal]
pub struct RetireResultView {
    pub client: Seq<char>,
    pub epoch: u64,
    pub durable: Option<u64>,
    pub cleared: Seq<u16>,
    pub orphans_cleared: Seq<u16>,
}

impl DeepView for Qos2RetireResult {
    type V = RetireResultView;

    open spec fn deep_view(&self) -> RetireResultView {
        RetireResultView {
            client: self.client.deep_view(),
            epoch: self.epoch,
            durable: self.durable,
            cleared: self.cleared.deep_view(),
            orphans_cleared: self.orphans_cleared.deep_view(),
        }
    }
}

/// What is under way about exactly-once deliveries.
#[derive(Debug)]
pub struct Qos2State {
    /// The clients with packet ids to retire.
    pub cleanup: Roster<ClientId>,
    /// The clients for which a retirement is under way.
    pub retire_inflight: Roster<ClientId>,
    /// The packet ids that are being advanced.
    pub advance_inflight: Roster<(ClientId, u16)>,
    /// Completions that arrived while their packet id was being advanced.
    pub held_pubcomp: Roster<(ClientId, u16)>,
    /// Tells the sessions of a client apart.
    pub epoch: Table<ClientId, u64>,
}

/// Model of [`Qos2State`].
#[verifier::ext_equal]
pub struct Qos2View {
    pub cleanup: Seq<Seq<char>>,
    pub retire_inflight: Seq<Seq<char>>,
    pub advance_inflight: Seq<(Seq<char>, u16)>,
    pub held_pubcomp: Seq<(Seq<char>, u16)>,
    pub epoch: Seq<(Seq<char>, u64)>,
}

impl DeepView for Qos2State {
    type V = Qos2View;

    open spec fn deep_view(&self) -> Qos2View {
        Qos2View {
            cleanup: self.cleanup.deep_view(),
            retire_inflight: self.retire_inflight.deep_view(),
            advance_inflight: self.advance_inflight.deep_view(),
            held_pubcomp: self.held_pubcomp.deep_view(),
            epoch: self.epoch.deep_view(),
        }
    }
}

impl Qos2View {
    /// Nothing is under way.
    pub open spec fn blank() -> Qos2View {
        Qos2View {
            cleanup: Seq::empty(),
            retire_inflight: Seq::empty(),
            advance_inflight: Seq::empty(),
            held_pubcomp: Seq::empty(),
            epoch: Seq::empty(),
        }
    }
}

impl Qos2State {
    /// See [`Qos2View::blank`].
    pub fn new() -> (r: Self)
        ensures
            r.deep_view() == Qos2View::blank(),
    {
        Qos2State {
            cleanup: Roster::new(),
            retire_inflight: Roster::new(),
            advance_inflight: Roster::new(),
            held_pubcomp: Roster::new(),
            epoch: Table::new(),
        }
    }
}

} // verus!
