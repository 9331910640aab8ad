//! The names of clients and of cluster nodes, and the counters that mint numbers.

use std::sync::Arc;

use vstd::prelude::*;

use crate::assoc::{Key, RankedKey};
use crate::text::text_below;

verus! {

/// A client identifier. Copies share one allocation.
#[derive(Debug)]
pub struct ClientId(pub Arc<String>);

impl DeepView for ClientId {
    type V = Seq<char>;

    open spec fn deep_view(&self) -> Seq<char> {
        self.0@
    }
}

impl Clone for ClientId {
    fn clone(&self) -> (r: Self)
        ensures
            r == *self,
    {
        ClientId(self.0.clone())
    }
}

impl ClientId {
    /// The client named `name`.
    pub fn new(name: &str) -> (r: Self)
        ensures
            r.deep_view() == name@,
    {
        ClientId(Arc::new(name.to_owned()))
    }

    /// The name.
    pub fn as_str(&self) -> (r: &str)
        ensures
            r@ == self.deep_view(),
    {
        self.0.as_str()
    }
}

impl Key for ClientId {
    fn same(&self, other: &Self) -> (r: bool) {
        *self.0 == *other.0
    }

    fn copied(&self) -> (r: Self) {
        self.clone()
    }
}

/// The name of a cluster node.
#[derive(Debug)]
pub struct NodeId(pub String);

impl DeepView for NodeId {
    type V = Seq<char>;

    open spec fn deep_view(&self) -> Seq<char> {
        self.0@
    }
}

impl Clone for NodeId {
    fn clone(&self) -> (r: Self)
        ensures
            r == *self,
    {
        NodeId(self.0.clone())
    }
}

impl NodeId {
    /// The node named `name`.
    pub fn new(name: &str) -> (r: Self)
        ensures
            r.deep_view() == name@,
    {
        NodeId(name.to_owned())
    }
}

impl Key for NodeId {
    fn same(&self, other: &Self) -> (r: bool) {
        self.0 == other.0
    }

    fn copied(&self) -> (r: Self) {
        self.clone()
    }
}

impl RankedKey for NodeId {
    open spec fn below(a: Seq<char>, b: Seq<char>) -> bool {
        text_below(a, b)
    }

    fn is_below(&self, other: &Self) -> (r: bool) {
        self.0.is_below(&other.0)
    }
}

/// The number that follows `n` on a counter, which starts over at its end.
pub open spec fn next_number(n: u64) -> u64 {
    if n == u64::MAX {
        0
    } else {
        (n + 1) as u64
    }
}

/// Moves a counter on and returns its new value.
pub fn advance(counter: &mut u64) -> (r: u64)
    ensures
        *final(counter) == next_number(*old(counter)),
        r == *final(counter),
{
    if *counter == u64::MAX {
        *counter = 0;
    } else {
        *counter = *counter + 1;
    }
    *counter
}

/// The number that follows `n` on a counter that stops at its end.
pub open spec fn number_above(n: u64) -> u64 {
    if n == u64::MAX {
        u64::MAX
    } else {
        (n + 1) as u64
    }
}

/// The point in time `secs` after `now`, held at the end of time.
pub open spec fn later(now: u64, secs: u32) -> u64 {
    if now + secs > u64::MAX {
        u64::MAX
    } else {
        (now + secs) as u64
    }
}

/// The deadline of an interval that starts at `now`.
pub open spec fn deadline(now: u64, interval: Option<u32>) -> Option<u64> {
    match interval {
        Some(secs) => Some(later(now, secs)),
        None => None,
    }
}

/// See [`deadline`].
pub fn deadline_of(now: u64, interval: Option<u32>) -> (r: Option<u64>)
    ensures
        r == deadline(now, interval),
{
    match interval {
        Some(secs) => Some(now.saturating_add(secs as u64)),
        None => None,
    }
}

} // verus!
