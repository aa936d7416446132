//! The rate limiter: two independent token buckets (download and
//! upload) shared across every swarm's connections. Tokens are
//! consulted before every byte transfer, never before protocol
//! control messages; a rate of zero means unlimited.

use vstd::prelude::*;

verus! {

/// One token bucket. `rate` tokens arrive per tick, the level is
/// capped at `burst`, and a rate of zero disables limiting.
#[derive(Clone, Copy, Debug, PartialEq, Eq, Structural)]
pub struct TokenBucket {
    pub rate: u64,
    pub burst: u64,
    pub tokens: u64,
}

/// One step of bucket history: a clock tick or an acquire of so many
/// bytes.
#[derive(Clone, Copy, Debug, PartialEq, Eq, Structural)]
pub enum LimiterEvent {
    Tick,
    Acquire(u64),
}

impl TokenBucket {
    /// The level never exceeds the burst capacity.
    pub open spec fn wf(self) -> bool {
        self.tokens <= self.burst
    }

    /// The bucket after one refill tick.
    pub open spec fn tick_spec(self) -> TokenBucket {
        TokenBucket {
            tokens: if self.tokens + self.rate <= self.burst {
                (self.tokens + self.rate) as u64
            } else {
                self.burst
            },
            ..self
        }
    }

    /// The bucket after an acquire of `n` bytes, and whether the bytes
    /// were granted. With a zero rate every acquire is granted free of
    /// charge; otherwise the bytes are granted exactly when the level
    /// covers them, and are debited.
    pub open spec fn acquire_spec(self, n: u64) -> (TokenBucket, bool) {
        if self.rate == 0 {
            (self, true)
        } else if n <= self.tokens {
            (TokenBucket { tokens: (self.tokens - n) as u64, ..self }, true)
        } else {
            (self, false)
        }
    }

    /// The bucket after a whole history.
    pub open spec fn run_spec(self, evs: Seq<LimiterEvent>) -> TokenBucket
        decreases evs.len(),
    {
        if evs.len() == 0 {
            self
        } else {
            match evs[0] {
                LimiterEvent::Tick => self.tick_spec().run_spec(evs.drop_first()),
                LimiterEvent::Acquire(n) => self.acquire_spec(n).0.run_spec(evs.drop_first()),
            }
        }
    }

    /// Total bytes granted over a history.
    pub open spec fn granted_spec(self, evs: Seq<LimiterEvent>) -> int
        decreases evs.len(),
    {
        if evs.len() == 0 {
            0
        } else {
            match evs[0] {
                LimiterEvent::Tick => self.tick_spec().granted_spec(evs.drop_first()),
                LimiterEvent::Acquire(n) => (if self.acquire_spec(n).1 {
                    n as int
                } else {
                    0
                }) + self.acquire_spec(n).0.granted_spec(evs.drop_first()),
            }
        }
    }

    /// Number of ticks in a history.
    pub open spec fn tick_count(evs: Seq<LimiterEvent>) -> int
        decreases evs.len(),
    {
        if evs.len() == 0 {
            0
        } else {
            (if evs[0] is Tick {
                1int
            } else {
                0int
            }) + Self::tick_count(evs.drop_first())
        }
    }

    /// A fresh bucket, full to its burst capacity.
    pub fn new(rate: u64, burst: u64) -> (r: TokenBucket)
        ensures
            r.rate == rate,
            r.burst == burst,
            r.tokens == burst,
            r.wf(),
    {
        TokenBucket { rate, burst, tokens: burst }
    }

    /// Changes the refill rate, effective immediately; zero means
    /// unlimited.
    pub fn set_rate(&mut self, rate: u64)
        ensures
            final(self).rate == rate,
            final(self).burst == old(self).burst,
            final(self).tokens == old(self).tokens,
    {
        self.rate = rate;
    }

    /// One refill tick.
    pub fn tick(&mut self)
        requires
            old(self).wf(),
        ensures
            *final(self) == old(self).tick_spec(),
            final(self).wf(),
    {
        if self.burst - self.tokens >= self.rate {
            self.tokens = self.tokens + self.rate;
        } else {
            self.tokens = self.burst;
        }
    }

    /// Tries to take `n` bytes' worth of tokens.
    pub fn try_acquire(&mut self, n: u64) -> (granted: bool)
        ensures
            *final(self) == old(self).acquire_spec(n).0,
            granted == old(self).acquire_spec(n).1,
            old(self).wf() ==> final(self).wf(),
    {
        if self.rate == 0 {
            true
        } else if n <= self.tokens {
            self.tokens = self.tokens - n;
            true
        } else {
            false
        }
    }
}

/// Over any history, the bytes granted by a limited bucket never
/// exceed its starting level plus `rate` per tick; since the level is
/// capped at `burst`, any window of `w` ticks transfers at most
/// `burst + rate * w` bytes.
pub proof fn lemma_window_bound(b: TokenBucket, evs: Seq<LimiterEvent>)
    requires
        b.rate > 0,
        b.wf(),
    ensures
        b.granted_spec(evs) <= b.tokens + TokenBucket::tick_count(evs) * b.rate,
        b.granted_spec(evs) <= b.burst + TokenBucket::tick_count(evs) * b.rate,
    decreases evs.len(),
{
    vstd::arithmetic::mul::lemma_mul_is_distributive_add_other_way(
        b.rate as int,
        TokenBucket::tick_count(evs.drop_first()),
        1,
    );
    if evs.len() == 0 {
    } else {
        match evs[0] {
            LimiterEvent::Tick => {
                let b2 = b.tick_spec();
                lemma_window_bound(b2, evs.drop_first());
                assert(b2.tokens <= b.tokens + b.rate);
                assert((TokenBucket::tick_count(evs.drop_first()) + 1) * b.rate
                    == TokenBucket::tick_count(evs.drop_first()) * b.rate + 1 * b.rate);
            },
            LimiterEvent::Acquire(n) => {
                let b2 = b.acquire_spec(n).0;
                lemma_window_bound(b2, evs.drop_first());
            },
        }
    }
}

/// The next consumer in a round-robin rotation over `count` waiters.
pub fn next_in_rotation(current: usize, count: usize) -> (r: usize)
    requires
        current < count,
    ensures
        r == (current + 1) % (count as int),
        r < count,
{
    if current + 1 < count {
        proof {
            vstd::arithmetic::div_mod::lemma_small_mod((current + 1) as nat, count as nat);
        }
        current + 1
    } else {
        proof {
            vstd::arithmetic::div_mod::lemma_mod_self_0(count as int);
        }
        0
    }
}

} // verus!
