use vstd::prelude::*;

verus! {

/// Quality-of-service level of a packet; the numeric value is the wire value.
#[derive(Debug, Clone, Copy, PartialEq, Eq, PartialOrd, Ord, Structural)]
pub enum Qos {
    FireAndForget,
    AcknowledgedDeliver,
    AssuredDelivery,
}

/// The QoS level that a two-bit wire value stands for, if any.
pub open spec fn qos_of(v: int) -> Option<Qos> {
    if v == 0 {
        Some(Qos::FireAndForget)
    } else if v == 1 {
        Some(Qos::AcknowledgedDeliver)
    } else if v == 2 {
        Some(Qos::AssuredDelivery)
    } else {
        None
    }
}

impl Qos {
    /// The on-wire value of this level.
    pub open spec fn spec_value(self) -> u8 {
        match self {
            Qos::FireAndForget => 0,
            Qos::AcknowledgedDeliver => 1,
            Qos::AssuredDelivery => 2,
        }
    }

    pub fn value(&self) -> (r: u8)
        ensures
            r == self.spec_value(),
    {
        match self {
            Qos::FireAndForget => 0,
            Qos::AcknowledgedDeliver => 1,
            Qos::AssuredDelivery => 2,
        }
    }
}

} // verus!
