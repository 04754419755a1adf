//! Limits of the server, and the retry schedule of the accept loop.
use vstd::prelude::*;

verus! {

/// The most connections served at once.
pub const MAX_CONNECTIONS: usize = 250;

/// How many messages a channel buffers for its slowest subscriber.
pub const CHANNEL_CAPACITY: usize = 1024;

/// The initial size of a connection's read buffer.
pub const READ_BUFFER_SIZE: usize = 4096;

/// The longest pause, in seconds, between two failed accepts; after it the
/// accept loop gives up.
pub const BACKOFF_CEILING: u64 = 64;

/// The pauses between failed accepts: 1, 2, 4, ... seconds, up to the
/// ceiling.
pub struct Backoff {
    secs: u64,
}

impl View for Backoff {
    type V = nat;

    closed spec fn view(&self) -> nat {
        self.secs as nat
    }
}

impl Backoff {
    pub closed spec fn wf(&self) -> bool {
        1 <= self.secs <= 2 * BACKOFF_CEILING
    }

    /// The schedule before any failure: the first pause is one second.
    pub fn new() -> (r: Backoff)
        ensures
            r.wf(),
            r@ == 1,
    {
        Backoff { secs: 1 }
    }

    /// After a failed accept: the pause to take before the next try, or
    /// `None` once the pause would pass the ceiling. Each pause doubles the
    /// one before.
    pub fn next_delay(&mut self) -> (r: Option<u64>)
        requires
            old(self).wf(),
        ensures
            final(self).wf(),
            old(self)@ <= BACKOFF_CEILING ==> r == Some(old(self)@ as u64) && final(self)@ == 2
                * old(self)@,
            old(self)@ > BACKOFF_CEILING ==> r is None && final(self)@ == old(self)@,
    {
        if self.secs > BACKOFF_CEILING {
            return None;
        }
        let d = self.secs;
        self.secs = self.secs * 2;
        Some(d)
    }
}

} // verus!
