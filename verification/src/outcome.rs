//! What becomes of a publish, and how it is told.

use vstd::prelude::*;

verus! {

/// Why a publish was turned away, with nothing of it kept anywhere.
#[derive(Debug, Clone, Copy, PartialEq, Eq, Structural)]
pub enum PublishRefusal {
    /// The broker is over a watermark and takes no growth.
    Brownout,
    /// The retained messages are at their cap.
    RetainedQuota,
    /// Too many publishes are in flight.
    PendingCap,
}

impl PublishRefusal {
    /// The number of a refusal between nodes.
    pub open spec fn number(self) -> u8 {
        match self {
            PublishRefusal::Brownout => 1,
            PublishRefusal::RetainedQuota => 2,
            PublishRefusal::PendingCap => 3,
        }
    }

    /// See [`PublishRefusal::number`].
    pub fn code(self) -> (r: u8)
        ensures
            r == self.number(),
    {
        match self {
            PublishRefusal::Brownout => 1,
            PublishRefusal::RetainedQuota => 2,
            PublishRefusal::PendingCap => 3,
        }
    }

    /// The refusal's name in logs.
    pub fn as_str(self) -> (r: &'static str)
        ensures
            r@ == (match self {
                PublishRefusal::Brownout => "brownout"@,
                PublishRefusal::RetainedQuota => "retained-quota"@,
                PublishRefusal::PendingCap => "pending-cap"@,
            }),
    {
        match self {
            PublishRefusal::Brownout => "brownout",
            PublishRefusal::RetainedQuota => "retained-quota",
            PublishRefusal::PendingCap => "pending-cap",
        }
    }
}

/// What a publisher is told. A publisher that is told nothing publishes again.
#[derive(Debug, Clone, Copy, PartialEq, Eq, Structural)]
pub enum PublishOutcome {
    /// Every obligation of the publish is met.
    Accepted,
    /// A new retained topic is over the quota.
    RetainedQuotaExceeded,
    /// Turned away; nothing was kept, so publishing again is safe.
    Refused(PublishRefusal),
}

/// What a node answers about a publish that was forwarded to it.
#[derive(Debug, Clone, Copy, PartialEq, Eq, Structural)]
pub enum ForwardVerdict {
    Stored,
    Failed,
    Refused {
        code: u8,
    },
}

/// What one part of a fan-out came to.
#[derive(Debug, Clone, Copy, PartialEq, Eq, Structural)]
pub enum DurableOutcome {
    /// Nothing stands in the way of the acknowledgement.
    Met,
    /// A durable write failed: the acknowledgement is withheld.
    Failed,
    /// Turned away before anything was kept.
    Refused(PublishRefusal),
}

impl DurableOutcome {
    /// The worse of two: a failure outranks a refusal, since a refusal claims that nothing
    /// was kept; the first of two refusals stands.
    pub open spec fn worse(self, other: DurableOutcome) -> DurableOutcome {
        if self is Failed || other is Failed {
            DurableOutcome::Failed
        } else if self is Refused {
            self
        } else {
            other
        }
    }

    /// See [`DurableOutcome::worse`].
    pub fn and(self, other: DurableOutcome) -> (r: DurableOutcome)
        ensures
            r == self.worse(other),
    {
        match (self, other) {
            (DurableOutcome::Failed, _) => DurableOutcome::Failed,
            (_, DurableOutcome::Failed) => DurableOutcome::Failed,
            (DurableOutcome::Refused(r), _) => DurableOutcome::Refused(r),
            (DurableOutcome::Met, o) => o,
        }
    }

    /// The verdict that tells this outcome to another node.
    pub open spec fn verdict(self) -> ForwardVerdict {
        match self {
            DurableOutcome::Met => ForwardVerdict::Stored,
            DurableOutcome::Failed => ForwardVerdict::Failed,
            DurableOutcome::Refused(r) => ForwardVerdict::Refused { code: r.number() },
        }
    }

    /// See [`DurableOutcome::verdict`].
    pub fn to_verdict(self) -> (r: ForwardVerdict)
        ensures
            r == self.verdict(),
    {
        match self {
            DurableOutcome::Met => ForwardVerdict::Stored,
            DurableOutcome::Failed => ForwardVerdict::Failed,
            DurableOutcome::Refused(r) => ForwardVerdict::Refused { code: r.code() },
        }
    }

    /// The outcome that a verdict tells. A refusal code that is not known claims nothing, so
    /// it reads as a failure.
    pub open spec fn of_verdict(verdict: ForwardVerdict) -> DurableOutcome {
        match verdict {
            ForwardVerdict::Stored => DurableOutcome::Met,
            ForwardVerdict::Failed => DurableOutcome::Failed,
            ForwardVerdict::Refused { code } => if code == 1 {
                DurableOutcome::Refused(PublishRefusal::Brownout)
            } else if code == 2 {
                DurableOutcome::Refused(PublishRefusal::RetainedQuota)
            } else if code == 3 {
                DurableOutcome::Refused(PublishRefusal::PendingCap)
            } else {
                DurableOutcome::Failed
            },
        }
    }

    /// See [`DurableOutcome::of_verdict`].
    pub fn from_verdict(verdict: ForwardVerdict) -> (r: DurableOutcome)
        ensures
            r == Self::of_verdict(verdict),
    {
        match verdict {
            ForwardVerdict::Stored => DurableOutcome::Met,
            ForwardVerdict::Failed => DurableOutcome::Failed,
            ForwardVerdict::Refused { code } => {
                if code == 1 {
                    DurableOutcome::Refused(PublishRefusal::Brownout)
                } else if code == 2 {
                    DurableOutcome::Refused(PublishRefusal::RetainedQuota)
                } else if code == 3 {
                    DurableOutcome::Refused(PublishRefusal::PendingCap)
                } else {
                    DurableOutcome::Failed
                }
            },
        }
    }
}

/// What a node is told of an outcome is the outcome.
pub proof fn law_verdict_reads_back(o: DurableOutcome)
    ensures
        DurableOutcome::of_verdict(o.verdict()) == o,
{
}

/// An acknowledgement needs every part of the fan-out: the worse of two outcomes is good
/// exactly when both are.
pub proof fn law_all_or_nothing(a: DurableOutcome, b: DurableOutcome)
    ensures
        a.worse(b) == DurableOutcome::Met <==> a == DurableOutcome::Met && b == DurableOutcome::Met,
{
}

} // verus!
