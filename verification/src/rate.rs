//! Token buckets for admission probing and reclaim-time rate limiting.
//!
//! Both buckets hold up to one second's worth of tokens (`rate` bytes) and
//! are refilled by the embedding, which alone owns a clock: it reports
//! elapsed milliseconds and performs any waiting. All accounting here is
//! integer-exact and proved.

use vstd::prelude::*;

verus! {

/// Tokens credited for `elapsed_ms` of wall time at `rate` bytes per second,
/// capped at one second's worth.
pub open spec fn spec_refill_credit(rate: u64, elapsed_ms: u64) -> u64 {
    if elapsed_ms >= 1000 {
        rate
    } else {
        ((rate / 1000) * elapsed_ms) as u64
    }
}

/// A probing token bucket: `probe` answers without blocking, inserts debit.
#[derive(Clone, Copy, Debug, PartialEq, Eq, Structural)]
pub struct RatedTicket {
    rate: u64,
    tokens: u64,
}

impl RatedTicket {
    /// The sustained rate in bytes per second, which is also the burst cap.
    pub closed spec fn spec_rate(&self) -> u64 {
        self.rate
    }

    /// The tokens currently available.
    pub closed spec fn spec_tokens(&self) -> u64 {
        self.tokens
    }

    /// The bucket never holds more than one second's worth.
    pub closed spec fn wf(&self) -> bool {
        self.tokens <= self.rate
    }

    /// A full bucket sustaining `rate` bytes per second.
    pub fn new(rate: u64) -> (r: RatedTicket)
        ensures
            r.wf(),
            r.spec_rate() == rate,
            r.spec_tokens() == rate,
    {
        RatedTicket { rate, tokens: rate }
    }

    /// The tokens currently available.
    pub fn tokens(&self) -> (r: u64)
        ensures
            r == self.spec_tokens(),
    {
        self.tokens
    }

    /// Whether an insert may pass: true while any token remains.
    pub fn probe(&self) -> (r: bool)
        ensures
            r == (self.spec_tokens() > 0),
    {
        self.tokens > 0
    }

    /// Debits `weight` tokens, stopping at empty.
    pub fn reduce(&mut self, weight: u64)
        ensures
            final(self).spec_rate() == old(self).spec_rate(),
            final(self).spec_tokens() == if old(self).spec_tokens() >= weight {
                old(self).spec_tokens() - weight
            } else {
                0
            },
            old(self).wf() ==> final(self).wf(),
    {
        if self.tokens >= weight {
            self.tokens = self.tokens - weight;
        } else {
            self.tokens = 0;
        }
    }

    /// Credits `elapsed_ms` of wall time, capped at one second's worth.
    pub fn refill(&mut self, elapsed_ms: u64)
        ensures
            final(self).wf(),
            final(self).spec_rate() == old(self).spec_rate(),
            final(self).spec_tokens() == if old(self).spec_tokens() + spec_refill_credit(
                old(self).spec_rate(),
                elapsed_ms,
            ) >= old(self).spec_rate() {
                old(self).spec_rate()
            } else {
                (old(self).spec_tokens() + spec_refill_credit(
                    old(self).spec_rate(),
                    elapsed_ms,
                )) as u64
            },
    {
        let credit = if elapsed_ms >= 1000 {
            self.rate
        } else {
            proof {
                assert((self.rate / 1000) * elapsed_ms <= (self.rate / 1000) * 1000 <= self.rate)
                    by (nonlinear_arith)
                    requires elapsed_ms <= 1000;
            }
            (self.rate / 1000) * elapsed_ms
        };
        if self.tokens >= self.rate - credit {
            self.tokens = self.rate;
        } else {
            self.tokens = self.tokens + credit;
        }
    }
}

/// A debiting rate limiter: `consume` takes the weight up front and reports
/// how long the caller must wait to stay within the rate.
#[derive(Clone, Copy, Debug, PartialEq, Eq, Structural)]
pub struct RateLimiter {
    rate: u64,
    tokens: u64,
    debt: u64,
}

impl RateLimiter {
    /// The sustained rate in bytes per second.
    pub closed spec fn spec_rate(&self) -> u64 {
        self.rate
    }

    /// The tokens currently available.
    pub closed spec fn spec_tokens(&self) -> u64 {
        self.tokens
    }

    /// Bytes consumed beyond the available tokens, not yet paid for by time.
    pub closed spec fn spec_debt(&self) -> u64 {
        self.debt
    }

    /// The rate is positive and the bucket holds at most a second's worth.
    pub closed spec fn wf(&self) -> bool {
        self.rate > 0 && self.tokens <= self.rate
    }

    /// A full limiter sustaining `rate` bytes per second.
    pub fn new(rate: u64) -> (r: RateLimiter)
        requires
            rate > 0,
        ensures
            r.wf(),
            r.spec_rate() == rate,
            r.spec_tokens() == rate,
            r.spec_debt() == 0,
    {
        RateLimiter { rate, tokens: rate, debt: 0 }
    }

    /// Consumes `weight` bytes. Within the available tokens the caller owes
    /// no wait; beyond them the unpaid overrun becomes debt and the result
    /// names the milliseconds that pay it off at the sustained rate.
    pub fn consume(&mut self, weight: u64) -> (wait_ms: Option<u64>)
        requires
            old(self).wf(),
        ensures
            final(self).wf(),
            final(self).spec_rate() == old(self).spec_rate(),
            wait_ms is None <==> old(self).spec_tokens() >= weight,
            old(self).spec_tokens() >= weight ==> {
                &&& final(self).spec_tokens() == old(self).spec_tokens() - weight
                &&& final(self).spec_debt() == old(self).spec_debt()
            },
            old(self).spec_tokens() < weight ==> {
                &&& final(self).spec_tokens() == 0
                &&& final(self).spec_debt() == if old(self).spec_debt() + (weight - old(
                    self,
                ).spec_tokens()) > u64::MAX {
                    u64::MAX as int
                } else {
                    old(self).spec_debt() + (weight - old(self).spec_tokens())
                }
                &&& wait_ms == Some(
                    ((if final(self).spec_debt() * 1000 > u64::MAX {
                        u64::MAX as int
                    } else {
                        final(self).spec_debt() * 1000
                    }) / old(self).spec_rate() as int) as u64,
                )
            },
    {
        if self.tokens >= weight {
            self.tokens = self.tokens - weight;
            None
        } else {
            let overrun = weight - self.tokens;
            self.tokens = 0;
            self.debt = crate::metrics::sat_add(self.debt, overrun);
            proof {
                if self.debt > u64::MAX / 1000 {
                    assert(self.debt * 1000 > u64::MAX) by (nonlinear_arith)
                        requires self.debt > u64::MAX / 1000;
                } else {
                    assert(self.debt * 1000 <= u64::MAX) by (nonlinear_arith)
                        requires self.debt <= u64::MAX / 1000;
                }
            }
            let numerator: u64 = if self.debt > u64::MAX / 1000 {
                u64::MAX
            } else {
                self.debt * 1000
            };
            Some(numerator / self.rate)
        }
    }

    /// Credits `elapsed_ms` of wall time: debt is paid first, then the
    /// bucket refills, capped at one second's worth.
    pub fn refill(&mut self, elapsed_ms: u64)
        requires
            old(self).wf(),
        ensures
            final(self).wf(),
            final(self).spec_rate() == old(self).spec_rate(),
            final(self).spec_debt() == if old(self).spec_debt() >= spec_refill_credit(
                old(self).spec_rate(),
                elapsed_ms,
            ) {
                old(self).spec_debt() - spec_refill_credit(old(self).spec_rate(), elapsed_ms)
            } else {
                0
            },
            old(self).spec_debt() >= spec_refill_credit(old(self).spec_rate(), elapsed_ms)
                ==> final(self).spec_tokens() == old(self).spec_tokens(),
            old(self).spec_debt() < spec_refill_credit(old(self).spec_rate(), elapsed_ms) ==> {
                final(self).spec_tokens() == if old(self).spec_tokens() + (spec_refill_credit(
                    old(self).spec_rate(),
                    elapsed_ms,
                ) - old(self).spec_debt()) >= old(self).spec_rate() {
                    old(self).spec_rate() as int
                } else {
                    old(self).spec_tokens() + (spec_refill_credit(
                        old(self).spec_rate(),
                        elapsed_ms,
                    ) - old(self).spec_debt())
                }
            },
    {
        let credit = if elapsed_ms >= 1000 {
            self.rate
        } else {
            proof {
                assert((self.rate / 1000) * elapsed_ms <= (self.rate / 1000) * 1000 <= self.rate)
                    by (nonlinear_arith)
                    requires elapsed_ms <= 1000;
            }
            (self.rate / 1000) * elapsed_ms
        };
        if self.debt >= credit {
            self.debt = self.debt - credit;
        } else {
            let rest = credit - self.debt;
            self.debt = 0;
            if self.tokens >= self.rate - rest {
                self.tokens = self.rate;
            } else {
                self.tokens = self.tokens + rest;
            }
        }
    }
}

} // verus!
