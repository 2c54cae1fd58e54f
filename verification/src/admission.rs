//! Admission policies: judges consulted before an entry enters the store.
//!
//! Several policies may be stacked; the store admits an entry exactly when
//! every stacked judge answers true, and invokes each policy's `on_insert`
//! or `on_drop` hook exactly once per attempt, whatever the aggregate
//! verdict.

use vstd::prelude::*;
use crate::metrics::Metrics;
use crate::rate::RatedTicket;

verus! {

/// Rated-ticket admission: a token bucket that probes without blocking and
/// debits the entry's weight once it is inserted.
#[derive(Clone, Copy, Debug, PartialEq, Eq, Structural)]
pub struct RatedTicketAdmissionPolicy {
    inner: RatedTicket,
}

impl RatedTicketAdmissionPolicy {
    /// The answer the judge will give: whether any token remains.
    pub open spec fn spec_judge(&self) -> bool {
        self.spec_tokens() > 0
    }

    /// The tokens currently available.
    pub closed spec fn spec_tokens(&self) -> u64 {
        self.inner.spec_tokens()
    }

    /// The sustained rate in bytes per second.
    pub closed spec fn spec_rate(&self) -> u64 {
        self.inner.spec_rate()
    }

    /// The bucket never holds more than one second's worth.
    pub closed spec fn wf(&self) -> bool {
        self.inner.wf()
    }

    /// A policy admitting up to `rate` bytes per second.
    pub fn new(rate: usize) -> (r: RatedTicketAdmissionPolicy)
        ensures
            r.wf(),
            r.spec_rate() == rate,
            r.spec_tokens() == rate,
    {
        RatedTicketAdmissionPolicy { inner: RatedTicket::new(rate as u64) }
    }

    /// The tokens currently available.
    pub fn tokens(&self) -> (r: u64)
        ensures
            r == self.spec_tokens(),
    {
        self.inner.tokens()
    }

    /// The judge: admits while a token remains, without blocking and
    /// without debiting.
    pub fn judge(&self, key: &u64, weight: usize, metrics: &Metrics) -> (r: bool)
        ensures
            r == self.spec_judge(),
            r == (self.spec_tokens() > 0),
    {
        self.inner.probe()
    }

    /// Hook called once when the attempt inserted: debits the weight.
    pub fn on_insert(&mut self, key: &u64, weight: usize, metrics: &Metrics, judge: bool)
        ensures
            final(self).spec_rate() == old(self).spec_rate(),
            final(self).spec_tokens() == if old(self).spec_tokens() >= weight {
                old(self).spec_tokens() - weight
            } else {
                0
            },
            old(self).wf() ==> final(self).wf(),
    {
        self.inner.reduce(weight as u64);
    }

    /// Hook called once when the attempt did not insert: keeps no state.
    pub fn on_drop(&self, key: &u64, weight: usize, metrics: &Metrics, judge: bool)
    {
    }

    /// Credits `elapsed_ms` of wall time to the bucket.
    pub fn refill(&mut self, elapsed_ms: u64)
        ensures
            final(self).wf(),
            final(self).spec_rate() == old(self).spec_rate(),
            final(self).spec_tokens() == if old(self).spec_tokens()
                + crate::rate::spec_refill_credit(old(self).spec_rate(), elapsed_ms) >= old(
                self,
            ).spec_rate() {
                old(self).spec_rate()
            } else {
                (old(self).spec_tokens() + crate::rate::spec_refill_credit(
                    old(self).spec_rate(),
                    elapsed_ms,
                )) as u64
            },
    {
        self.inner.refill(elapsed_ms);
    }
}

} // verus!
