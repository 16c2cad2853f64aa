//! The policy of the accept loop.
use vstd::prelude::*;

verus! {

/// The longest wait between two accept attempts, in seconds.
pub const MAX_BACKOFF_SECS: u64 = 60;

pub open spec fn pow2(k: nat) -> nat
    decreases k,
{
    if k == 0 {
        1
    } else {
        2 * pow2((k - 1) as nat)
    }
}

/// How long to wait after the accept error that follows `k` failed attempts
/// in a row, in seconds: doubling from one second up to a minute; after a
/// wait of a minute the next error is given up on.
pub open spec fn backoff_delay(k: nat) -> Option<u64> {
    if k < 6 {
        Some(pow2(k) as u64)
    } else if k == 6 {
        Some(MAX_BACKOFF_SECS)
    } else {
        None
    }
}

/// Counts the accept errors in a row since the accept loop last waited
/// successfully.
pub struct AcceptBackoff {
    failures: u64,
}

impl View for AcceptBackoff {
    type V = nat;

    closed spec fn view(&self) -> nat {
        self.failures as nat
    }
}

impl AcceptBackoff {
    pub fn new() -> (r: AcceptBackoff)
        ensures
            r@ == 0,
    {
        AcceptBackoff { failures: 0 }
    }

    /// Records an accept error: how long to wait before trying again, or
    /// `None` when the error is to be surfaced.
    pub fn on_error(&mut self) -> (r: Option<u64>)
        ensures
            r == backoff_delay(old(self)@),
            final(self)@ == if old(self)@ < 7 {
                old(self)@ + 1
            } else {
                7
            },
    {
        proof {
            reveal_with_fuel(pow2, 6);
        }
        let r = match self.failures {
            0 => Some(1),
            1 => Some(2),
            2 => Some(4),
            3 => Some(8),
            4 => Some(16),
            5 => Some(32),
            6 => Some(MAX_BACKOFF_SECS),
            _ => None,
        };
        if self.failures < 7 {
            self.failures = self.failures + 1;
        } else {
            self.failures = 7;
        }
        r
    }
}

} // verus!
