//! Quotas, and the watermarks above which the broker takes no growth.

use vstd::prelude::*;

verus! {

/// A resource with a watermark.
#[derive(Debug, Clone, Copy, PartialEq, Eq, Hash, Structural)]
pub enum BrownoutAxis {
    /// Space on disk.
    Disk,
    /// Memory in use.
    Memory,
}

impl BrownoutAxis {
    /// The name of the axis.
    pub fn as_str(self) -> (r: &'static str)
        ensures
            r@ == (match self {
                BrownoutAxis::Disk => "disk"@,
                BrownoutAxis::Memory => "memory"@,
            }),
    {
        match self {
            BrownoutAxis::Disk => "disk",
            BrownoutAxis::Memory => "memory",
        }
    }
}

/// The resources that are over their watermark.
#[derive(Debug, Clone, Copy, PartialEq, Eq, Structural)]
pub struct BrownoutAxes {
    pub disk: bool,
    pub memory: bool,
}

impl BrownoutAxes {
    /// No resource is over its watermark.
    pub open spec fn clear() -> BrownoutAxes {
        BrownoutAxes { disk: false, memory: false }
    }

    /// These axes with `axis` over its watermark, or under it.
    pub open spec fn with(self, axis: BrownoutAxis, on: bool) -> BrownoutAxes {
        match axis {
            BrownoutAxis::Disk => BrownoutAxes { disk: on, ..self },
            BrownoutAxis::Memory => BrownoutAxes { memory: on, ..self },
        }
    }

    /// Whether some resource is over its watermark.
    pub open spec fn any(self) -> bool {
        self.disk || self.memory
    }

    /// See [`BrownoutAxes::with`].
    pub fn set(&mut self, axis: BrownoutAxis, on: bool)
        ensures
            *final(self) == old(self).with(axis, on),
    {
        match axis {
            BrownoutAxis::Disk => {
                self.disk = on;
            },
            BrownoutAxis::Memory => {
                self.memory = on;
            },
        }
    }

    /// See [`BrownoutAxes::any`].
    pub fn is_over(&self) -> (r: bool)
        ensures
            r == self.any(),
    {
        self.disk || self.memory
    }
}

/// How much clients may take.
#[derive(Debug, Clone, Copy, PartialEq, Eq)]
pub struct Quotas {
    /// Subscriptions of one client.
    pub max_subscriptions_per_client: Option<usize>,
    /// Retained messages of the broker.
    pub max_retained_messages: Option<usize>,
    /// Sessions of the broker.
    pub max_sessions: Option<usize>,
}

impl Default for Quotas {
    fn default() -> (r: Self)
        ensures
            r == (Quotas {
                max_subscriptions_per_client: None,
                max_retained_messages: None,
                max_sessions: None,
            }),
    {
        Quotas {
            max_subscriptions_per_client: None,
            max_retained_messages: None,
            max_sessions: None,
        }
    }
}

/// How a client was let in.
#[derive(Debug, Clone, Copy, PartialEq, Eq, Structural)]
pub enum AuthMethod {
    Anonymous,
    Password,
    Token,
    Certificate,
    Enhanced,
}

/// The broker stays in brownout until every resource is back under its watermark.
pub proof fn law_brownout_is_any_axis(axes: BrownoutAxes, axis: BrownoutAxis)
    ensures
        axes.with(axis, true).any(),
        axes.with(BrownoutAxis::Disk, false).with(BrownoutAxis::Memory, false)
            == BrownoutAxes::clear(),
        !BrownoutAxes::clear().any(),
        axes.with(axis, false).any() <==> (match axis {
            BrownoutAxis::Disk => axes.memory,
            BrownoutAxis::Memory => axes.disk,
        }),
{
}

} // verus!
