//! The reclaimer: the policy-and-state half of the background task that
//! keeps the clean-region pool stocked.
//!
//! Each call to [`Reclaimer::handle`] performs one step of the reclaim loop
//! on the store and reports what happened; the embedding runs the loop,
//! waking on clean-pool changes, backing off when nothing is evictable, and
//! sleeping out the wait the rate limiter asked for.

use vstd::prelude::*;
use crate::rate::RateLimiter;
use crate::store::Store;

verus! {

/// What one reclaim step did.
#[derive(Clone, Copy, Debug, PartialEq, Eq, Structural)]
pub enum ReclaimOutcome {
    /// The clean pool already holds at least the threshold; nothing to do.
    AboveThreshold,
    /// The pool is low but no region is evictable; back off and retry.
    NoEvictable,
    /// A region was reclaimed and returned to the clean pool.
    Reclaimed {
        /// The recycled region.
        region_id: u32,
        /// Entries re-admitted from it.
        reinserted: usize,
        /// Whether the reinsertion pass stopped early to keep clean regions
        /// for foreground writers. The region is reclaimed regardless.
        aborted: bool,
        /// Total wait the rate limiter asked for, for the embedding to sleep.
        wait_ms: u64,
    },
}

/// Drives reclamation: recycles evictable regions whenever the clean pool
/// falls below the threshold, under an optional reinsertion rate limit.
///
/// One interaction to know: a reinsertion candidate whose key is still live
/// in another region is re-admitted under a fresh sequence, so the scanned
/// older copy supersedes the newer value. The catalog references of the
/// reclaimed region itself are dropped before the scan, so its own keys are
/// judged absent by the exist policy.
pub struct Reclaimer {
    threshold: usize,
    rate_limiter: Option<RateLimiter>,
}

impl Reclaimer {
    /// The clean-pool size this reclaimer maintains.
    pub closed spec fn spec_threshold(&self) -> usize {
        self.threshold
    }

    /// The reinsertion rate limiter, when one is configured.
    pub closed spec fn spec_rate_limiter(&self) -> Option<RateLimiter> {
        self.rate_limiter
    }

    /// A reclaimer keeping at least `threshold` clean regions.
    pub fn new(threshold: usize, rate_limiter: Option<RateLimiter>) -> (r: Reclaimer)
        requires
            rate_limiter matches Some(l) ==> l.wf(),
        ensures
            r.spec_threshold() == threshold,
            r.spec_rate_limiter() == rate_limiter,
            r.spec_rate_limiter() matches Some(l) ==> l.wf(),
    {
        Reclaimer { threshold, rate_limiter }
    }

    /// One step of the reclaim loop, forwarding [`Store::reclaim_one`]'s
    /// contract: a full-enough pool does nothing, an empty eviction order
    /// backs off and changes nothing, anything else reclaims the next
    /// region in eviction order.
    pub fn handle(&mut self, store: &mut Store) -> (r: ReclaimOutcome)
        requires
            old(store).wf(),
            old(store).located_ok(),
            old(self).spec_rate_limiter() matches Some(l) ==> l.wf(),
        ensures
            final(store).wf(),
            final(store).located_ok(),
            old(store).consistent() ==> final(store).consistent(),
            final(self).spec_threshold() == old(self).spec_threshold(),
            final(self).spec_rate_limiter() matches Some(l) ==> l.wf(),
            final(self).spec_rate_limiter() is Some <==> old(self).spec_rate_limiter() is Some,
            final(store).spec_region_size() == old(store).spec_region_size(),
            final(store).spec_align() == old(store).spec_align(),
            final(store).spec_region_count() == old(store).spec_region_count(),
            final(store).spec_reinsertions_len() == old(store).spec_reinsertions_len(),
            final(store).spec_admissions().len() == old(store).spec_admissions().len(),
    // The outcome is decided by the state.
            (old(store).spec_clean().len() >= old(self).spec_threshold()) <==> r is AboveThreshold,
            r is NoEvictable <==> (old(store).spec_clean().len() < old(self).spec_threshold()
                && old(store).spec_evictable().len() == 0),
            (old(store).spec_clean().len() < old(self).spec_threshold() && old(store).spec_evictable().len() > 0) ==> r is Reclaimed,
    // A full-enough pool changes nothing at all.
            r is AboveThreshold ==> *final(store) == *old(store) && *final(self) == *old(self),
    // Backing off changes nothing either.
            r is NoEvictable ==> {
                &&& final(store).spec_catalog() == old(store).spec_catalog()
                &&& final(store).contents() == old(store).contents()
                &&& final(store).spec_clean() == old(store).spec_clean()
                &&& final(store).spec_evictable() == old(store).spec_evictable()
                &&& final(store).spec_current_region() == old(store).spec_current_region()
                &&& final(store).spec_next_sequence() == old(store).spec_next_sequence()
                &&& final(store).spec_admissions() == old(store).spec_admissions()
                &&& final(store).spec_metrics() == old(store).spec_metrics()
                &&& forall|i: int|
                    0 <= i < old(store).spec_region_count() ==> final(store).spec_state(i)
                        == old(store).spec_state(i)
                &&& forall|i: int|
                    0 <= i < old(store).spec_region_count() ==> final(store).region_bytes(i)
                        == old(store).region_bytes(i)
                &&& final(self).spec_rate_limiter() == old(self).spec_rate_limiter()
            },
    // A reclaim recycles the region: no live key references it, its trailer
    // block is zeroed, it returns to the clean pool, and the reclaimed
    // bytes are counted.
            r matches ReclaimOutcome::Reclaimed { region_id, reinserted, aborted, wait_ms } ==> {
                &&& region_id < old(store).spec_region_count()
                &&& old(store).spec_state(region_id as int) is Evictable
                &&& final(store).spec_state(region_id as int) is Clean
                &&& final(store).spec_clean().len() >= 1
                &&& final(store).spec_clean()[final(store).spec_clean().len() - 1] == region_id
                &&& forall|k: u64|
                    #[trigger] final(store).spec_catalog().contains_key(k) ==> final(store).spec_catalog()[k].region_id != region_id
                &&& forall|k: u64|
                    #[trigger] final(store).spec_catalog().contains_key(k) ==> old(store).spec_catalog().contains_key(k)
                &&& final(store).region_bytes(region_id as int) == old(store).region_bytes(
                    region_id as int,
                ).take(old(store).spec_region_size() - old(store).spec_align())
                    + crate::device::spec_zeros(old(store).spec_align() as nat)
                &&& final(store).spec_metrics().op_bytes_reclaim == crate::store::sat_add_spec(
                    old(store).spec_metrics().op_bytes_reclaim,
                    old(store).spec_region_size() as u64,
                )
                &&& reinserted == 0 ==> final(store).spec_metrics().op_bytes_reinsert == old(store).spec_metrics().op_bytes_reinsert
                &&& final(store).spec_metrics().op_bytes_reinsert >= old(store).spec_metrics().op_bytes_reinsert
                &&& aborted ==> (final(store).spec_next_sequence() == u64::MAX || (final(store).spec_clean().len() == 1 && final(store).spec_clean()[0] == region_id))
                &&& old(store).spec_reinsertions_len() == 0 ==> {
                    &&& forall|k: u64|
                        #[trigger] final(store).spec_catalog().contains_key(k) <==> (old(store).spec_catalog().contains_key(k) && old(store).spec_catalog()[k].region_id
                            != region_id)
                    &&& forall|k: u64|
                        #[trigger] final(store).spec_catalog().contains_key(k) ==> final(store).contents()[k] == old(store).contents()[k]
                    &&& final(store).spec_metrics() == (crate::metrics::Metrics {
                        op_bytes_reclaim: crate::store::sat_add_spec(
                            old(store).spec_metrics().op_bytes_reclaim,
                            old(store).spec_region_size() as u64,
                        ),
                        total_bytes: (old(store).spec_metrics().total_bytes - old(store).spec_region_size()) as u64,
                        ..old(store).spec_metrics()
                    })
                }
            },
    {
        store.reclaim_one(self.threshold, &mut self.rate_limiter)
    }
}

} // verus!
