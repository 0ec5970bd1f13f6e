//! Cooperative cancellation: an explicit token polled at every
//! traversal step and at least once per chunk of file content. Tests
//! and proofs pick the poll at which it fires; the surrounding program
//! backs it with the process-wide interrupt flag.

use vstd::prelude::*;

verus! {

/// A deterministic cancellation token: it fires on every poll from the
/// `fires_after`-th one (counting from zero) onwards, or never.
pub struct CancelToken {
    pub fires_after: Option<u64>,
    pub polls: u64,
}

impl CancelToken {
    /// Whether the next poll reports cancellation.
    pub open spec fn fired(self) -> bool {
        match self.fires_after {
            Option::Some(n) => self.polls >= n,
            Option::None => false,
        }
    }

    /// A token that fires from the given poll on (`None`: never).
    pub fn new(fires_after: Option<u64>) -> (r: Self)
        ensures
            r.fires_after == fires_after,
            r.polls == 0,
    {
        CancelToken { fires_after, polls: 0 }
    }

    /// Polls the token once.
    pub fn poll(&mut self) -> (r: bool)
        ensures
            r == old(self).fired(),
            final(self).fires_after == old(self).fires_after,
            final(self).polls == if old(self).polls < u64::MAX {
                (old(self).polls + 1) as u64
            } else {
                old(self).polls
            },
    {
        let r = match self.fires_after {
            Option::Some(n) => self.polls >= n,
            Option::None => false,
        };
        if self.polls < u64::MAX {
            self.polls = self.polls + 1;
        }
        r
    }
}

} // verus!
