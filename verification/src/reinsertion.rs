//! Reinsertion policies: judges consulted while a region is reclaimed, to
//! decide which surviving entries re-enter the store.
//!
//! As with admission, stacked policies are conjoined and every policy's
//! `on_insert` or `on_drop` hook runs exactly once per candidate.

use vstd::prelude::*;
use crate::catalog::Catalog;
use crate::metrics::Metrics;

verus! {

/// Exist reinsertion: re-admit a key only while it still has a live catalog
/// entry, that is, it has not been overwritten or removed since it was
/// written.
///
/// The reclaimer drops a region's catalog entries before it scans the
/// region, so during reclamation this policy sees candidates from the
/// reclaimed region as absent and rejects them; it admits a candidate only
/// when the key is live elsewhere.
#[derive(Clone, Copy, Debug, PartialEq, Eq, Structural)]
pub struct ExistReinsertionPolicy {

}

impl ExistReinsertionPolicy {
    /// The verdict the policy will give for `key` against `catalog`.
    pub open spec fn spec_judge(&self, key: u64, catalog: Map<u64, crate::catalog::CatalogEntry>) -> bool {
        catalog.contains_key(key)
    }

    /// The judge: whether the key is still live in the catalog.
    pub fn judge(&self, key: &u64, weight: usize, metrics: &Metrics, catalog: &Catalog) -> (r:
        bool)
        requires
            catalog.wf(),
        ensures
            r == self.spec_judge(*key, catalog@),
    {
        catalog.lookup(*key).is_some()
    }

    /// Hook called once when the candidate reinserted: keeps no state.
    pub fn on_insert(&self, key: &u64, weight: usize, metrics: &Metrics, judge: bool)
    {
    }

    /// Hook called once when the candidate did not reinsert: keeps no state.
    pub fn on_drop(&self, key: &u64, weight: usize, metrics: &Metrics, judge: bool)
    {
    }
}

impl Default for ExistReinsertionPolicy {
    /// The policy carries no state of its own; the catalog it consults is
    /// passed to `judge` by the store.
    fn default() -> (r: Self)
    {
        ExistReinsertionPolicy {  }
    }
}

} // verus!
