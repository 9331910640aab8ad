//! Quality of service.

use vstd::prelude::*;

verus! {

/// The delivery guarantee of a message or of a subscription.
#[derive(Debug, Clone, Copy, PartialEq, Eq, Structural)]
pub enum QoS {
    /// Delivered at most once.
    AtMostOnce,
    /// Delivered at least once.
    AtLeastOnce,
    /// Delivered exactly once.
    ExactlyOnce,
}

impl DeepView for QoS {
    type V = QoS;

    open spec fn deep_view(&self) -> QoS {
        *self
    }
}

/// The number that stands for a guarantee on the wire.
pub open spec fn level(qos: QoS) -> u8 {
    match qos {
        QoS::AtMostOnce => 0,
        QoS::AtLeastOnce => 1,
        QoS::ExactlyOnce => 2,
    }
}

/// The weaker of two guarantees.
pub open spec fn weaker(a: QoS, b: QoS) -> QoS {
    if level(a) <= level(b) {
        a
    } else {
        b
    }
}

/// The guarantee that a wire number stands for; a number that stands for none reads as the
/// weakest.
pub open spec fn of_level(n: u8) -> QoS {
    if n == 1 {
        QoS::AtLeastOnce
    } else if n == 2 {
        QoS::ExactlyOnce
    } else {
        QoS::AtMostOnce
    }
}

/// See [`level`].
pub fn qos_num(qos: QoS) -> (r: u8)
    ensures
        r == level(qos),
{
    match qos {
        QoS::AtMostOnce => 0,
        QoS::AtLeastOnce => 1,
        QoS::ExactlyOnce => 2,
    }
}

/// The guarantee under which a message of guarantee `a` reaches a subscription that was
/// granted `b`: the weaker of the two.
pub fn min_qos(a: QoS, b: QoS) -> (r: QoS)
    ensures
        r == weaker(a, b),
{
    if qos_num(a) <= qos_num(b) {
        a
    } else {
        b
    }
}

/// See [`of_level`].
pub fn qos_from_num(n: u8) -> (r: QoS)
    ensures
        r == of_level(n),
{
    if n == 1 {
        QoS::AtLeastOnce
    } else if n == 2 {
        QoS::ExactlyOnce
    } else {
        QoS::AtMostOnce
    }
}

/// A delivery is never stronger than the message, nor than the grant, and is one of the two.
pub proof fn law_downgrade(message: QoS, granted: QoS)
    ensures
        level(weaker(message, granted)) <= level(message),
        level(weaker(message, granted)) <= level(granted),
        weaker(message, granted) == message || weaker(message, granted) == granted,
        weaker(message, granted) == weaker(granted, message),
{
}

/// Wire numbers read back as the guarantee they were written for.
pub proof fn law_level_reads_back(qos: QoS)
    ensures
        of_level(level(qos)) == qos,
{
}

} // verus!
