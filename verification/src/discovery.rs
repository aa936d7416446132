//! Discovery backoff: repeated empty results from the discovery
//! sources back the polling interval off exponentially up to a
//! ceiling; any successful peer connection resets it. Failure to reach
//! a source is reported and non-fatal — the swarm keeps the peers it
//! has and retries.

use vstd::prelude::*;

verus! {

/// Polling backoff for one torrent's discovery.
#[derive(Clone, Copy, Debug, PartialEq, Eq, Structural)]
pub struct Backoff {
    pub base: u64,
    pub ceiling: u64,
    pub current: u64,
}

impl Backoff {
    /// The interval stays between the base and the ceiling.
    pub open spec fn wf(self) -> bool {
        0 < self.base <= self.current <= self.ceiling
    }

    /// A fresh backoff polling at the base interval.
    pub fn new(base: u64, ceiling: u64) -> (r: Backoff)
        requires
            0 < base <= ceiling,
        ensures
            r.wf(),
            r.base == base,
            r.ceiling == ceiling,
            r.current == base,
    {
        Backoff { base, ceiling, current: base }
    }

    /// An empty round of results: the interval doubles, capped at the
    /// ceiling.
    pub fn on_empty(&mut self)
        requires
            old(self).wf(),
        ensures
            final(self).wf(),
            final(self).base == old(self).base,
            final(self).ceiling == old(self).ceiling,
            final(self).current == (if 2 * old(self).current <= old(self).ceiling {
                2 * old(self).current
            } else {
                old(self).ceiling as int
            }),
    {
        if self.current <= self.ceiling / 2 {
            self.current = 2 * self.current;
        } else {
            self.current = self.ceiling;
        }
    }

    /// A peer connection succeeded: the interval resets to the base.
    pub fn on_success(&mut self)
        requires
            old(self).wf(),
        ensures
            final(self).wf(),
            final(self).base == old(self).base,
            final(self).ceiling == old(self).ceiling,
            final(self).current == old(self).base,
    {
        self.current = self.base;
    }

    /// A discovery source could not be reached: reported to the caller
    /// as a non-fatal error while the interval backs off exactly as on
    /// an empty round — the swarm keeps the peers it has.
    pub fn on_source_unreachable(&mut self) -> (r: crate::errors::EngineError)
        requires
            old(self).wf(),
        ensures
            final(self).wf(),
            r == crate::errors::EngineError::DiscoverySourceUnreachable,
            final(self).base == old(self).base,
            final(self).ceiling == old(self).ceiling,
            final(self).current == (if 2 * old(self).current <= old(self).ceiling {
                2 * old(self).current
            } else {
                old(self).ceiling as int
            }),
    {
        self.on_empty();
        crate::errors::EngineError::DiscoverySourceUnreachable
    }

    /// Whether a new poll is due after `elapsed` time units.
    pub fn poll_due(&self, elapsed: u64) -> (r: bool)
        ensures
            r == (elapsed >= self.current),
    {
        elapsed >= self.current
    }
}

} // verus!
