//! Core of a hybrid (memory + disk) key-value cache engine: a log-structured,
//! region-based store with a catalog mapping keys to on-disk locations, a
//! flush/write pipeline, policy-driven admission and reinsertion, and a
//! reclaimer that recycles regions.
//!
//! The store here is the verified sequential core: all state transitions,
//! the on-disk entry format, and the catalog/region invariants are proved.
//! Device I/O scheduling, metrics export, and the background task loop
//! belong to the embedding application.

mod admission;
mod catalog;
mod checksum;
mod code;
mod device;
mod entry;
mod metrics;
mod policies;
mod rate;
mod reclaimer;
mod region;
mod reinsertion;
mod store;

pub use admission::RatedTicketAdmissionPolicy;
pub use catalog::{assoc_map, keys_unique, lemma_sequence_monotonic, spec_catalog_insert, Catalog, CatalogEntry};
pub use checksum::crc32_of;
pub use code::{read_bytes, write_bytes, Key, Value};
pub use device::{spec_zeros, zeros_vec, Device};
pub use entry::{build_entry, decode_entry, lemma_entry_round_trip, spec_entry_bytes, spec_entry_key, spec_entry_len, spec_entry_ok, spec_entry_seq, spec_entry_value, ENTRY_HEADER_LEN, ENTRY_KEY_LEN, ENTRY_MAGIC};
pub use metrics::Metrics;
pub use policies::{Config, FifoConfig, FifoHandle, FifoPolicy, Handle, Policy};
pub use rate::{spec_refill_credit, RateLimiter, RatedTicket};
pub use reclaimer::{ReclaimOutcome, Reclaimer};
pub use region::{GuardKind, Region, RegionGuard, RegionManager, RegionState};
pub use reinsertion::ExistReinsertionPolicy;
pub use store::{sat_add_spec, spec_admitted, spec_entry_padded, spec_weight, valid_entry_for, Store, REGION_SIZE_LIMIT};
