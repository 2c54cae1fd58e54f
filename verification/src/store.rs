//! The store: the composition of device, catalog, region manager, write
//! pipeline, policies and metrics behind `insert` / `lookup` / `remove`.
//!
//! The store keeps two invariants beyond the structural ones. Location:
//! every catalog entry points inside a data-holding region, wholly within
//! its written prefix. Consistency: the bytes at that location are exactly
//! the encoded entry of the live key, value and sequence, so `lookup` can
//! never return a torn value — it re-validates magic, lengths and checksum
//! and treats any mismatch as corruption, dropping the entry.
//!
//! Appends go into the current region's in-memory buffer and are published
//! in the catalog at once; readers of such entries are buffered readers.
//! When the buffer cannot take the next entry the region is flushed whole,
//! sealed and registered with the eviction order. Reclamation drops a
//! region's catalog references, optionally re-admits surviving entries
//! under the reinsertion policies, zeroes the trailer block and returns the
//! region to the clean queue.

use vstd::prelude::*;
use crate::admission::RatedTicketAdmissionPolicy;
use crate::catalog::{spec_catalog_insert, Catalog, CatalogEntry};
use crate::code::{read_bytes, write_bytes};
use crate::device::{spec_zeros, Device};
use crate::entry::{
    build_entry, decode_entry, lemma_entry_round_trip, spec_entry_bytes, spec_entry_key,
    spec_entry_ok, spec_entry_seq, spec_entry_value,
};
use crate::metrics::{sat_add, Metrics};
use crate::rate::RateLimiter;
use crate::reclaimer::ReclaimOutcome;
use crate::region::{
    count_nonclean, lemma_count_nonclean_le_len, lemma_count_nonclean_positive,
    lemma_count_nonclean_update, GuardKind, RegionManager, RegionState,
};
use crate::reinsertion::ExistReinsertionPolicy;

verus! {

/// The largest region size the store accepts, 256 MiB.
pub const REGION_SIZE_LIMIT: usize = 0x10000000;

/// The bytes at `e`'s location are exactly one well-formed entry carrying
/// `key`, `e.sequence`, and the value the location holds.
pub open spec fn valid_entry_for(bytes: Seq<u8>, e: CatalogEntry, key: u64) -> bool {
    &&& 32 <= e.len
    &&& e.len - 32 <= u32::MAX
    &&& e.offset + e.len <= bytes.len()
    &&& bytes.subrange(e.offset as int, e.offset + e.len) == spec_entry_bytes(
        key,
        bytes.subrange(e.offset + 32, e.offset + e.len),
        e.sequence,
    )
}

/// The current region being appended to: its id, its in-memory image of the
/// whole region, and how many bytes of the image are filled.
struct WriteGroup {
    region_id: u32,
    buf: Vec<u8>,
    len: usize,
}

/// A disk-backed key-value store over a log-structured, region-based layout.
pub struct Store {
    device: Device,
    catalog: Catalog,
    manager: RegionManager,
    current: Option<WriteGroup>,
    next_sequence: u64,
    admissions: Vec<RatedTicketAdmissionPolicy>,
    reinsertions: Vec<ExistReinsertionPolicy>,
    metrics: Metrics,
}

impl Store {
    /// Bytes per region.
    pub closed spec fn spec_region_size(&self) -> usize {
        self.device.spec_region_size()
    }

    /// The alignment of the device.
    pub closed spec fn spec_align(&self) -> usize {
        self.device.spec_align()
    }

    /// Number of regions.
    pub closed spec fn spec_region_count(&self) -> int {
        self.device@.len() as int
    }

    /// The catalog's key-to-location map.
    pub closed spec fn spec_catalog(&self) -> Map<u64, CatalogEntry> {
        self.catalog@
    }

    /// The next sequence an insert will take.
    pub closed spec fn spec_next_sequence(&self) -> u64 {
        self.next_sequence
    }

    /// The lifecycle state of region `i`.
    pub closed spec fn spec_state(&self, i: int) -> RegionState {
        self.manager.spec_state(i)
    }

    /// The clean queue, oldest first.
    pub closed spec fn spec_clean(&self) -> Seq<u32> {
        self.manager.spec_clean()
    }

    /// The eviction order, next victim first.
    pub closed spec fn spec_evictable(&self) -> Seq<u32> {
        self.manager.spec_evictable()
    }

    /// The region currently accepting appends, if any.
    pub closed spec fn spec_current_region(&self) -> Option<u32> {
        match self.current {
            Option::Some(g) => Option::Some(g.region_id),
            Option::None => Option::None,
        }
    }

    /// The stacked admission policies.
    pub closed spec fn spec_admissions(&self) -> Seq<RatedTicketAdmissionPolicy> {
        self.admissions@
    }

    /// Number of stacked reinsertion policies.
    pub closed spec fn spec_reinsertions_len(&self) -> int {
        self.reinsertions@.len() as int
    }

    /// The metrics block.
    pub closed spec fn spec_metrics(&self) -> Metrics {
        self.metrics
    }

    /// The bytes a reader of region `i` observes: the in-memory image while
    /// the region is being written, the device bytes otherwise.
    pub closed spec fn region_bytes(&self, i: int) -> Seq<u8> {
        match self.current {
            Option::Some(g) => if g.region_id == i {
                g.buf@
            } else {
                self.device@[i]
            },
            Option::None => self.device@[i],
        }
    }

    /// The value bytes stored for a live key.
    pub open spec fn spec_value_of(&self, key: u64) -> Seq<u8> {
        let e = self.spec_catalog()[key];
        self.region_bytes(e.region_id as int).subrange(e.offset + 32, e.offset + e.len)
    }

    /// The store's abstract contents: the map from live keys to their values.
    pub open spec fn contents(&self) -> Map<u64, Seq<u8>> {
        Map::new(
            |k: u64| self.spec_catalog().contains_key(k),
            |k: u64| self.spec_value_of(k),
        )
    }

    /// Location invariant of one live key: its entry lies wholly inside the
    /// written prefix of a data-holding region and carries a sequence below
    /// the next one.
    pub closed spec fn entry_located_ok(&self, key: u64) -> bool {
        let e = self.spec_catalog()[key];
        &&& e.region_id < self.spec_region_count()
        &&& 32 <= e.len
        &&& e.len - 32 <= u32::MAX
        &&& e.sequence < self.next_sequence
        &&& match self.manager.spec_state(e.region_id as int) {
            RegionState::Writing => true,
            RegionState::Sealed => true,
            RegionState::Evictable => true,
            _ => false,
        }
        &&& match self.current {
            Option::Some(g) => if g.region_id == e.region_id {
                e.offset + e.len <= g.len
            } else {
                e.offset + e.len <= self.spec_region_size() - self.spec_align()
            },
            Option::None => e.offset + e.len <= self.spec_region_size() - self.spec_align(),
        }
    }

    /// Location invariant: every live key's entry is well placed.
    pub closed spec fn located_ok(&self) -> bool {
        forall|k: u64|
            self.spec_catalog().contains_key(k) ==> #[trigger] self.entry_located_ok(k)
    }

    /// Consistency of one live key: the bytes at its location encode it.
    pub closed spec fn entry_consistent(&self, key: u64) -> bool {
        valid_entry_for(
            self.region_bytes(self.spec_catalog()[key].region_id as int),
            self.spec_catalog()[key],
            key,
        )
    }

    /// Consistency: every live key's location holds its encoded entry.
    pub closed spec fn consistent(&self) -> bool {
        forall|k: u64|
            self.spec_catalog().contains_key(k) ==> #[trigger] self.entry_consistent(k)
    }

    /// Structural invariant of the whole store.
    pub closed spec fn wf(&self) -> bool {
        &&& self.device.wf()
        &&& self.catalog.wf()
        &&& self.manager.wf()
        &&& self.manager.guards_idle()
        &&& self.manager.spec_count() == self.device@.len()
        &&& 2 * self.device.spec_align() <= self.device.spec_region_size()
        &&& self.device.spec_region_size() <= REGION_SIZE_LIMIT
        &&& self.device.spec_region_size() * self.device@.len() <= u64::MAX
        &&& match self.current {
            Option::Some(g) => {
                &&& g.region_id < self.device@.len()
                &&& self.manager.spec_state(g.region_id as int) is Writing
                &&& g.buf@.len() == self.device.spec_region_size()
                &&& g.len + self.device.spec_align() <= self.device.spec_region_size()
                &&& g.len % self.device.spec_align() == 0
            },
            Option::None => true,
        }
        &&& forall|i: int|
            0 <= i < self.spec_region_count() ==> (((#[trigger] self.manager.spec_state(
                i,
            )) is Writing) <==> (match self.current {
                Option::Some(g) => g.region_id == i,
                Option::None => false,
            }))
        &&& self.metrics.total_bytes == count_nonclean(self.manager.spec_states())
            * self.device.spec_region_size()
    }

    /// A store over a fresh zeroed device of `region_count` regions, with
    /// the given admission and reinsertion policy stacks.
    pub fn new(
        align: usize,
        region_size: usize,
        region_count: u32,
        admissions: Vec<RatedTicketAdmissionPolicy>,
        reinsertions: Vec<ExistReinsertionPolicy>,
    ) -> (r: Store)
        requires
            0 < align,
            2 * align <= region_size,
            region_size % align == 0,
            region_size <= REGION_SIZE_LIMIT,
            region_size * region_count <= u64::MAX,
        ensures
            r.wf(),
            r.located_ok(),
            r.consistent(),
            r.spec_align() == align,
            r.spec_region_size() == region_size,
            r.spec_region_count() == region_count,
            r.contents() == Map::<u64, Seq<u8>>::empty(),
            r.spec_catalog() == Map::<u64, CatalogEntry>::empty(),
            r.spec_next_sequence() == 0,
            r.spec_clean().len() == region_count,
            r.spec_current_region() is None,
            r.spec_admissions() == admissions@,
            r.spec_reinsertions_len() == reinsertions@.len(),
            r.spec_metrics() == Metrics::spec_zeroed(),
    {
        let device = Device::new(align, region_size, region_count);
        let catalog = Catalog::new();
        let manager = RegionManager::new(region_count);
        let r = Store {
            device,
            catalog,
            manager,
            current: None,
            next_sequence: 0,
            admissions,
            reinsertions,
            metrics: Metrics::new(),
        };
        proof {
            r.manager.lemma_spec_states();
            lemma_count_nonclean_all_clean(r.manager.spec_states());
            assert(r.contents() =~= Map::<u64, Seq<u8>>::empty());
        }
        r
    }

    /// Removes a key; reports whether it was live.
    ///
    /// Afterwards the key is absent: its on-disk bytes become dead space,
    /// collected when their region is reclaimed.
    pub fn remove(&mut self, key: u64) -> (r: bool)
        requires
            old(self).wf(),
            old(self).located_ok(),
        ensures
            final(self).wf(),
            final(self).located_ok(),
            old(self).consistent() ==> final(self).consistent(),
            r == old(self).contents().contains_key(key),
            final(self).contents() == old(self).contents().remove(key),
            final(self).spec_catalog() == old(self).spec_catalog().remove(key),
            forall|i: int|
                0 <= i < old(self).spec_region_count() ==> final(self).region_bytes(i) == old(self).region_bytes(i),
            forall|i: int|
                0 <= i < old(self).spec_region_count() ==> final(self).spec_state(i) == old(self).spec_state(i),
            final(self).spec_clean() == old(self).spec_clean(),
            final(self).spec_evictable() == old(self).spec_evictable(),
            final(self).spec_next_sequence() == old(self).spec_next_sequence(),
            final(self).spec_admissions() == old(self).spec_admissions(),
            final(self).spec_current_region() == old(self).spec_current_region(),
            final(self).spec_metrics() == (Metrics {
                op_remove: sat_add_spec(old(self).spec_metrics().op_remove, 1),
                ..old(self).spec_metrics()
            }),
    {
        let found = self.catalog.remove(key);
        self.metrics.op_remove = sat_add(self.metrics.op_remove, 1);
        proof {
            assert forall|k: u64|
                self.spec_catalog().contains_key(k) implies #[trigger] self.entry_located_ok(k) by {
                assert(old(self).entry_located_ok(k));
            }
            if old(self).consistent() {
                assert forall|k: u64|
                    self.spec_catalog().contains_key(k) implies #[trigger] self.entry_consistent(
                    k,
                ) by {
                    assert(old(self).entry_consistent(k));
                }
            }
            assert(self.contents() =~= old(self).contents().remove(key));
        }
        found.is_some()
    }
    /// Looks a key up, returning its value.
    ///
    /// The result is resolved through the catalog, read under a buffered or
    /// physical reader guard, and re-validated: magic, length fields and
    /// checksum must match, so a returned value is never torn — it is
    /// exactly the byte range some insert published for this key under this
    /// sequence. A validation mismatch is corruption: the catalog entry is
    /// dropped and the lookup misses.
    pub fn lookup(&mut self, key: u64) -> (r: Option<Vec<u8>>)
        requires
            old(self).wf(),
            old(self).located_ok(),
        ensures
            final(self).wf(),
            final(self).located_ok(),
    // On a consistent store, lookup is exactly the contents map.
            old(self).consistent() ==> {
                &&& final(self).consistent()
                &&& final(self).spec_catalog() == old(self).spec_catalog()
                &&& old(self).contents().contains_key(key) ==> (r matches Some(v) && v@ == old(self).contents()[key])
                &&& !old(self).contents().contains_key(key) ==> r is None
            },
    // Never a torn value: whatever the device holds, a returned value is a
    // whole entry for this key and its catalog sequence, checksum included.
            r matches Some(v) ==> {
                &&& old(self).spec_catalog().contains_key(key)
                &&& {
                    let e = old(self).spec_catalog()[key];
                    let bytes = old(self).region_bytes(e.region_id as int).subrange(
                        e.offset as int,
                        e.offset + e.len,
                    );
                    &&& spec_entry_ok(bytes)
                    &&& spec_entry_key(bytes) == key
                    &&& spec_entry_seq(bytes) == e.sequence
                    &&& v@ == spec_entry_value(bytes)
                }
                &&& final(self).spec_catalog() == old(self).spec_catalog()
            },
    // A miss leaves the catalog unchanged, or drops exactly the corrupt key.
            r is None ==> {
                ||| final(self).spec_catalog() == old(self).spec_catalog()
                ||| final(self).spec_catalog() == old(self).spec_catalog().remove(key)
            },
            !old(self).spec_catalog().contains_key(key) ==> r is None && final(self).spec_catalog()
                == old(self).spec_catalog(),
    // Nothing but the catalog and metrics moves.
            forall|i: int|
                0 <= i < old(self).spec_region_count() ==> final(self).region_bytes(i) == old(self).region_bytes(i),
            forall|i: int|
                0 <= i < old(self).spec_region_count() ==> final(self).spec_state(i) == old(self).spec_state(i),
            final(self).spec_clean() == old(self).spec_clean(),
            final(self).spec_evictable() == old(self).spec_evictable(),
            final(self).spec_next_sequence() == old(self).spec_next_sequence(),
            final(self).spec_admissions() == old(self).spec_admissions(),
            final(self).spec_current_region() == old(self).spec_current_region(),
    // A hit counts itself and the bytes served; any miss counts a miss.
            r matches Some(v) ==> final(self).spec_metrics() == (Metrics {
                op_lookup_hit: sat_add_spec(old(self).spec_metrics().op_lookup_hit, 1),
                op_bytes_lookup: sat_add_spec(
                    old(self).spec_metrics().op_bytes_lookup,
                    v@.len() as u64,
                ),
                ..old(self).spec_metrics()
            }),
            r is None ==> final(self).spec_metrics() == (Metrics {
                op_lookup_miss: sat_add_spec(old(self).spec_metrics().op_lookup_miss, 1),
                ..old(self).spec_metrics()
            }),
    {
        let looked = self.catalog.lookup(key);
        match looked {
            None => {
                self.metrics.op_lookup_miss = sat_add(self.metrics.op_lookup_miss, 1);
                proof {
                    self.preserve_entry_invariants(*old(self));
                }
                None
            },
            Some(e) => {
                proof {
                    assert(self.entry_located_ok(key));
                }
                let from_buffer = match &self.current {
                    Some(g) => g.region_id == e.region_id,
                    None => false,
                };
                let raw: Vec<u8>;
                if from_buffer {
                    self.manager.guard_acquire(e.region_id, GuardKind::BufferedReader);
                    raw = match &self.current {
                        Some(g) => read_bytes(g.buf.as_slice(), e.offset, e.len),
                        None => {
                            proof {
                                assert(false);
                            }
                            Vec::new()
                        },
                    };
                    self.manager.guard_release(e.region_id, GuardKind::BufferedReader);
                } else {
                    self.manager.guard_acquire(e.region_id, GuardKind::PhysicalReader);
                    raw = self.device.read(e.region_id, e.offset, e.len);
                    self.manager.guard_release(e.region_id, GuardKind::PhysicalReader);
                }
                proof {
                    old(self).manager.lemma_spec_states();
                    self.manager.lemma_spec_states();
                    assert(self.manager.spec_states() =~= old(self).manager.spec_states());
                    assert(raw@ == old(self).region_bytes(e.region_id as int).subrange(
                        e.offset as int,
                        e.offset + e.len,
                    ));
                    if old(self).consistent() {
                        assert(old(self).entry_consistent(key));
                        lemma_entry_round_trip(
                            key,
                            old(self).spec_value_of(key),
                            e.sequence,
                        );
                    }
                }
                let decoded = decode_entry(raw.as_slice());
                match decoded {
                    Some((found_key, value, found_seq)) => {
                        if found_key == key && found_seq == e.sequence {
                            self.metrics.op_lookup_hit = sat_add(self.metrics.op_lookup_hit, 1);
                            self.metrics.op_bytes_lookup = sat_add(
                                self.metrics.op_bytes_lookup,
                                value.len() as u64,
                            );
                            proof {
                                self.preserve_entry_invariants(*old(self));
                            }
                            Some(value)
                        } else {
                            proof {
                                self.preserve_entry_invariants(*old(self));
                            }
                            self.corrupt_miss(key);
                            None
                        }
                    },
                    None => {
                        proof {
                            self.preserve_entry_invariants(*old(self));
                        }
                        self.corrupt_miss(key);
                        None
                    },
                }
            },
        }
    }

    /// Drops a corrupt key and counts a miss.
    fn corrupt_miss(&mut self, key: u64)
        requires
            old(self).wf(),
            old(self).located_ok(),
        ensures
            final(self).wf(),
            final(self).located_ok(),
            final(self).spec_catalog() == old(self).spec_catalog().remove(key),
            *final(self) == (Store {
                catalog: final(self).catalog,
                metrics: (Metrics {
                    op_lookup_miss: sat_add_spec(old(self).spec_metrics().op_lookup_miss, 1),
                    ..old(self).spec_metrics()
                }),
                ..*old(self)
            }),
    {
        self.catalog.remove(key);
        self.metrics.op_lookup_miss = sat_add(self.metrics.op_lookup_miss, 1);
        proof {
            self.preserve_entry_invariants(*old(self));
        }
    }

    /// The filled length of the current region's buffer, zero when none.
    pub closed spec fn spec_current_len(&self) -> int {
        match self.current {
            Option::Some(g) => g.len as int,
            Option::None => 0,
        }
    }

    /// Whether an insert of a value of `value_len` bytes can succeed now:
    /// sequence space remains, the padded entry fits a region's data area,
    /// and there is room in the current region or a clean region to open.
    pub open spec fn spec_can_insert(&self, value_len: int) -> bool {
        &&& self.spec_next_sequence() < u64::MAX
        &&& spec_entry_padded(value_len, self.spec_align() as int) <= self.spec_region_size()
            - self.spec_align()
        &&& ((self.spec_current_region() is Some && self.spec_current_len() + spec_entry_padded(
            value_len,
            self.spec_align() as int,
        ) <= self.spec_region_size() - self.spec_align()) || self.spec_clean().len() > 0)
    }

    /// Flushes the current region: writes its whole image to the device,
    /// seals it and registers it with the eviction order. Readers observe
    /// the same bytes before and after, so the contents do not move.
    fn flush_current(&mut self)
        requires
            old(self).wf(),
            old(self).located_ok(),
            old(self).spec_current_region() is Some,
        ensures
            final(self).wf(),
            final(self).located_ok(),
            old(self).consistent() ==> final(self).consistent(),
            final(self).spec_current_region() is None,
            final(self).spec_region_size() == old(self).spec_region_size(),
            final(self).spec_align() == old(self).spec_align(),
            final(self).spec_region_count() == old(self).spec_region_count(),
            final(self).spec_catalog() == old(self).spec_catalog(),
            forall|i: int|
                0 <= i < old(self).spec_region_count() ==> final(self).region_bytes(i) == old(self).region_bytes(i),
            final(self).contents() == old(self).contents(),
            final(self).spec_clean() == old(self).spec_clean(),
            final(self).spec_next_sequence() == old(self).spec_next_sequence(),
            final(self).spec_admissions() == old(self).spec_admissions(),
            final(self).spec_reinsertions_len() == old(self).spec_reinsertions_len(),
            old(self).spec_current_region() matches Some(rid) ==> {
                &&& final(self).spec_state(rid as int) is Evictable
                &&& final(self).spec_evictable().to_multiset() == old(self).spec_evictable().to_multiset().insert(rid)
                &&& forall|i: int|
                    0 <= i < old(self).spec_region_count() && i != rid ==> final(self).spec_state(
                        i,
                    ) == old(self).spec_state(i)
            },
            final(self).spec_metrics() == (Metrics {
                op_bytes_flush: sat_add_spec(
                    old(self).spec_metrics().op_bytes_flush,
                    old(self).spec_current_len() as u64,
                ),
                ..old(self).spec_metrics()
            }),
    {
        let mut taken: Option<WriteGroup> = None;
        core::mem::swap(&mut taken, &mut self.current);
        match taken {
            None => {
                proof {
                    assert(false);
                }
            },
            Some(group) => {
                let rid = group.region_id;
                let filled = group.len;
                let ghost pre = *old(self);
                self.device.write_region(rid, group.buf);
                proof {
                    pre.manager.lemma_spec_states();
                }
                self.manager.seal(rid);
                proof {
                    self.manager.lemma_spec_states();
                    assert(self.manager.spec_states() =~= pre.manager.spec_states().update(
                        rid as int,
                        RegionState::Sealed,
                    ));
                    lemma_count_nonclean_update(
                        pre.manager.spec_states(),
                        rid as int,
                        RegionState::Sealed,
                    );
                }
                let ghost mid = self.manager.spec_states();
                self.manager.eviction_push(rid);
                proof {
                    self.manager.lemma_spec_states();
                    assert(self.manager.spec_states() =~= mid.update(
                        rid as int,
                        RegionState::Evictable,
                    ));
                    lemma_count_nonclean_update(mid, rid as int, RegionState::Evictable);
                }
                self.metrics.op_bytes_flush = sat_add(self.metrics.op_bytes_flush, filled as u64);
                proof {
                    assert forall|i: int|
                        0 <= i < pre.spec_region_count() implies self.region_bytes(i)
                        == pre.region_bytes(i) by {
                        if i != rid {
                            assert(self.device@[i] == pre.device@[i]);
                        }
                    }
                    assert forall|k: u64|
                        self.spec_catalog().contains_key(k) implies #[trigger] self.entry_located_ok(
                        k,
                    ) by {
                        assert(pre.entry_located_ok(k));
                    }
                    if pre.consistent() {
                        assert forall|k: u64|
                            self.spec_catalog().contains_key(k)
                            implies #[trigger] self.entry_consistent(k) by {
                            assert(pre.entry_consistent(k));
                            assert(pre.entry_located_ok(k));
                            let e = self.spec_catalog()[k];
                            assert(self.region_bytes(e.region_id as int) == pre.region_bytes(
                                e.region_id as int,
                            ));
                        }
                    }
                    assert forall|k: u64|
                        pre.spec_catalog().contains_key(k) implies self.spec_value_of(k)
                        == pre.spec_value_of(k) by {
                        assert(pre.entry_located_ok(k));
                        let e = self.spec_catalog()[k];
                        assert(self.region_bytes(e.region_id as int) == pre.region_bytes(
                            e.region_id as int,
                        ));
                    }
                    assert(self.contents() =~= pre.contents());
                }
            },
        }
    }

    /// Opens the oldest clean region for writing: gives it a zeroed
    /// region-sized buffer and makes it current. Fails only when the clean
    /// pool is empty.
    fn open_region(&mut self) -> (r: bool)
        requires
            old(self).wf(),
            old(self).located_ok(),
            old(self).spec_current_region() is None,
        ensures
            final(self).wf(),
            final(self).located_ok(),
            old(self).consistent() ==> final(self).consistent(),
            r == (old(self).spec_clean().len() > 0),
            !r ==> *final(self) == *old(self),
            final(self).spec_region_size() == old(self).spec_region_size(),
            final(self).spec_align() == old(self).spec_align(),
            final(self).spec_region_count() == old(self).spec_region_count(),
            final(self).spec_catalog() == old(self).spec_catalog(),
            final(self).contents() == old(self).contents(),
            final(self).spec_next_sequence() == old(self).spec_next_sequence(),
            final(self).spec_admissions() == old(self).spec_admissions(),
            final(self).spec_reinsertions_len() == old(self).spec_reinsertions_len(),
            r ==> {
                &&& old(self).spec_state(old(self).spec_clean()[0] as int) is Clean
                &&& final(self).spec_current_region() == Some(old(self).spec_clean()[0])
                &&& final(self).spec_current_len() == 0
                &&& final(self).spec_clean() == old(self).spec_clean().skip(1)
                &&& final(self).spec_evictable() == old(self).spec_evictable()
                &&& final(self).spec_state(old(self).spec_clean()[0] as int) is Writing
                &&& forall|i: int|
                    0 <= i < old(self).spec_region_count() && i != old(self).spec_clean()[0]
                        ==> final(self).spec_state(i) == old(self).spec_state(i)
                &&& forall|i: int|
                    0 <= i < old(self).spec_region_count() && i != old(self).spec_clean()[0]
                        ==> final(self).region_bytes(i) == old(self).region_bytes(i)
                &&& final(self).spec_metrics() == (Metrics {
                    total_bytes: (old(self).spec_metrics().total_bytes + old(self).spec_region_size()) as u64,
                    ..old(self).spec_metrics()
                })
            },
    {
        let ghost pre = *old(self);
        proof {
            pre.manager.lemma_spec_states();
        }
        match self.manager.acquire_clean_region() {
            None => {
                false
            },
            Some(rid) => {
                proof {
                    self.manager.lemma_spec_states();
                    assert(self.manager.spec_states() =~= pre.manager.spec_states().update(
                        rid as int,
                        RegionState::Writing,
                    ));
                    lemma_count_nonclean_update(
                        pre.manager.spec_states(),
                        rid as int,
                        RegionState::Writing,
                    );
                    lemma_count_nonclean_le_len(self.manager.spec_states());
                    assert(count_nonclean(self.manager.spec_states())
                        * pre.device.spec_region_size() <= pre.device@.len()
                        * pre.device.spec_region_size()) by (nonlinear_arith)
                        requires
                            count_nonclean(self.manager.spec_states()) <= pre.device@.len(),
                            pre.device.spec_region_size() >= 0,
                    ;
                    assert(count_nonclean(self.manager.spec_states())
                        * pre.device.spec_region_size() == count_nonclean(
                        pre.manager.spec_states(),
                    ) * pre.device.spec_region_size() + pre.device.spec_region_size())
                        by (nonlinear_arith)
                        requires
                            count_nonclean(self.manager.spec_states()) == count_nonclean(
                                pre.manager.spec_states(),
                            ) + 1,
                    ;
                }
                let region_size = self.device.region_size();
                let buf = crate::device::zeros_vec(region_size);
                self.current = Some(WriteGroup { region_id: rid, buf, len: 0 });
                self.metrics.total_bytes = self.metrics.total_bytes + region_size as u64;
                proof {
                    assert forall|i: int|
                        0 <= i < self.spec_region_count() implies (((
                        #[trigger] self.manager.spec_state(i)) is Writing) <==> (
                        match self.current {
                            Option::Some(g) => g.region_id == i,
                            Option::None => false,
                        })) by {
                        if i != rid {
                            assert(self.manager.spec_state(i) == pre.manager.spec_state(i));
                            assert(!((pre.manager.spec_state(i)) is Writing));
                        }
                    }
                    assert forall|i: int|
                        0 <= i < self.spec_region_count() implies #[trigger] self.manager.spec_guard(
                        i,
                    ) == (crate::region::RegionGuard {
                        writers: 0,
                        buffered_readers: 0,
                        physical_readers: 0,
                    }) by {
                        assert(pre.manager.spec_guard(i) == self.manager.spec_guard(i));
                    }
                    assert forall|k: u64|
                        self.spec_catalog().contains_key(k) implies #[trigger] self.entry_located_ok(
                        k,
                    ) by {
                        assert(pre.entry_located_ok(k));
                        assert(self.spec_catalog()[k].region_id != rid);
                    }
                    assert forall|i: int|
                        0 <= i < pre.spec_region_count() && i != rid implies self.region_bytes(i)
                        == pre.region_bytes(i) by {}
                    if pre.consistent() {
                        assert forall|k: u64|
                            self.spec_catalog().contains_key(k)
                            implies #[trigger] self.entry_consistent(k) by {
                            assert(pre.entry_consistent(k));
                            assert(pre.entry_located_ok(k));
                            let e = self.spec_catalog()[k];
                            assert(self.region_bytes(e.region_id as int) == pre.region_bytes(
                                e.region_id as int,
                            ));
                        }
                    }
                    assert forall|k: u64|
                        pre.spec_catalog().contains_key(k) implies self.spec_value_of(k)
                        == pre.spec_value_of(k) by {
                        assert(pre.entry_located_ok(k));
                        let e = self.spec_catalog()[k];
                        assert(self.region_bytes(e.region_id as int) == pre.region_bytes(
                            e.region_id as int,
                        ));
                    }
                    assert(self.contents() =~= pre.contents());
                    self.device.lemma_wf();
                    assert((0usize) % self.device.spec_align() == 0);
                }
                true
            },
        }
    }

    /// Inserts a key-value pair, returning whether it entered the store.
    ///
    /// The entry is admitted exactly when every stacked admission policy's
    /// judge says yes; each policy then gets exactly one `on_insert` or
    /// `on_drop` hook for the attempt. An admitted entry is appended to the
    /// current region's buffer — flushing it and opening the oldest clean
    /// region when it cannot take the entry — and published in the catalog
    /// under the next monotonic sequence. The insert fails without error
    /// when the entry cannot fit any region, when the sequence space is
    /// exhausted, or when no clean region is available: foreground inserts
    /// never block in this model, they report `false` and the embedding
    /// drives the reclaimer.
    pub fn insert(&mut self, key: u64, value: Vec<u8>) -> (r: bool)
        requires
            old(self).wf(),
            old(self).located_ok(),
        ensures
            final(self).wf(),
            final(self).located_ok(),
            old(self).consistent() ==> final(self).consistent(),
    // Success is owed exactly here: admission, sequence space, entry size,
    // and either room in the current region or a clean region to open.
            r == (spec_admitted(old(self).spec_admissions()) && old(self).spec_can_insert(
                value@.len() as int,
            )),
            r ==> final(self).contents() == old(self).contents().insert(key, value@),
            r ==> final(self).spec_catalog().contains_key(key) && final(self).spec_catalog()[key].sequence
                == old(self).spec_next_sequence() && final(self).spec_next_sequence() == old(self).spec_next_sequence() + 1,
            r ==> final(self).spec_catalog() == old(self).spec_catalog().insert(
                key,
                final(self).spec_catalog()[key],
            ),
            r ==> final(self).spec_current_region() == Some(
                final(self).spec_catalog()[key].region_id,
            ),
            forall|i: int|
                0 <= i < old(self).spec_region_count() && !((#[trigger] old(self).spec_state(
                    i,
                )) is Writing) && !(old(self).spec_state(i) is Clean) ==> final(self).spec_state(i)
                    == old(self).spec_state(i),
    // Regions not being written and not clean keep their bytes: an insert
    // only fills the writing buffer, flushes it, or opens a clean region.
            forall|i: int|
                0 <= i < old(self).spec_region_count() && !((#[trigger] old(self).spec_state(
                    i,
                )) is Writing) && !(old(self).spec_state(i) is Clean) ==> final(self).region_bytes(
                    i,
                ) == old(self).region_bytes(i),
            !r ==> final(self).contents() == old(self).contents() && final(self).spec_catalog()
                == old(self).spec_catalog() && final(self).spec_next_sequence() == old(self).spec_next_sequence(),
            !r ==> final(self).spec_clean() == old(self).spec_clean(),
    // Counters an insert never touches.
            final(self).spec_metrics().op_lookup_hit == old(self).spec_metrics().op_lookup_hit,
            final(self).spec_metrics().op_lookup_miss == old(self).spec_metrics().op_lookup_miss,
            final(self).spec_metrics().op_remove == old(self).spec_metrics().op_remove,
            final(self).spec_metrics().op_bytes_lookup == old(self).spec_metrics().op_bytes_lookup,
            final(self).spec_metrics().op_bytes_reclaim == old(self).spec_metrics().op_bytes_reclaim,
            final(self).spec_metrics().op_bytes_reinsert == old(self).spec_metrics().op_bytes_reinsert,
    // Every policy sees exactly one hook per attempt: a debit on insert,
    // nothing on drop.
            final(self).spec_admissions().len() == old(self).spec_admissions().len(),
            r ==> forall|j: int|
                0 <= j < old(self).spec_admissions().len() ==> {
                    &&& (#[trigger] final(self).spec_admissions()[j]).spec_rate() == old(self).spec_admissions()[j].spec_rate()
                    &&& final(self).spec_admissions()[j].spec_tokens() == if old(self).spec_admissions()[j].spec_tokens() >= spec_weight(value@.len() as int) {
                        old(self).spec_admissions()[j].spec_tokens() - spec_weight(
                            value@.len() as int,
                        )
                    } else {
                        0
                    }
                },
            !r ==> final(self).spec_admissions() == old(self).spec_admissions(),
            final(self).spec_reinsertions_len() == old(self).spec_reinsertions_len(),
            final(self).spec_region_size() == old(self).spec_region_size(),
            final(self).spec_align() == old(self).spec_align(),
            final(self).spec_region_count() == old(self).spec_region_count(),
            r ==> final(self).spec_metrics().op_insert_inserted == sat_add_spec(
                old(self).spec_metrics().op_insert_inserted,
                1,
            ),
            !spec_admitted(old(self).spec_admissions()) ==> {
                &&& final(self).spec_metrics() == (Metrics {
                    op_insert_filtered: sat_add_spec(
                        old(self).spec_metrics().op_insert_filtered,
                        1,
                    ),
                    ..old(self).spec_metrics()
                })
                &&& forall|i: int|
                    0 <= i < old(self).spec_region_count() ==> final(self).region_bytes(i) == old(self).region_bytes(i)
                &&& forall|i: int|
                    0 <= i < old(self).spec_region_count() ==> final(self).spec_state(i) == old(self).spec_state(i)
                &&& final(self).spec_clean() == old(self).spec_clean()
                &&& final(self).spec_evictable() == old(self).spec_evictable()
                &&& final(self).spec_current_region() == old(self).spec_current_region()
            },
    {
        let weight: usize = if value.len() > usize::MAX - 8 {
            usize::MAX
        } else {
            8 + value.len()
        };
        let (judges, admitted) = judge_all(&self.admissions, &key, weight, &self.metrics);
        if !admitted {
            on_drop_all(&self.admissions, &key, weight, &self.metrics, &judges);
            self.metrics.op_insert_filtered = sat_add(self.metrics.op_insert_filtered, 1);
            proof {
                self.preserve_entry_invariants(*old(self));
            }
            return false;
        }
        let region_size = self.device.region_size();
        let align = self.device.align();
        proof {
            self.device.lemma_wf();
        }
        if self.next_sequence == u64::MAX || value.len() > region_size {
            on_drop_all(&self.admissions, &key, weight, &self.metrics, &judges);
            self.metrics.op_insert_dropped = sat_add(self.metrics.op_insert_dropped, 1);
            proof {
                self.preserve_entry_invariants(*old(self));
            }
            return false;
        }
        let entry_len: usize = 32 + value.len();
        let rem = entry_len % align;
        let padded = if rem == 0 {
            entry_len
        } else {
            entry_len + (align - rem)
        };
        if padded > region_size - align {
            on_drop_all(&self.admissions, &key, weight, &self.metrics, &judges);
            self.metrics.op_insert_dropped = sat_add(self.metrics.op_insert_dropped, 1);
            proof {
                self.preserve_entry_invariants(*old(self));
            }
            return false;
        }
        let mut have_space = false;
        match &self.current {
            Some(g) => {
                if padded <= region_size - align - g.len {
                    have_space = true;
                }
            },
            None => {},
        }
        if !have_space {
            if self.current.is_some() {
                self.flush_current();
            }
            let ghost after_flush = *self;
            if !self.open_region() {
                let ghost mid = *self;
                on_drop_all(&self.admissions, &key, weight, &self.metrics, &judges);
                self.metrics.op_insert_dropped = sat_add(self.metrics.op_insert_dropped, 1);
                proof {
                    self.preserve_entry_invariants(mid);
                    if old(self).consistent() {
                        assert(mid.consistent());
                    }
                    assert(self.contents() =~= old(self).contents());
                }
                return false;
            }
            proof {
                let rid2 = after_flush.spec_clean()[0] as int;
                assert(after_flush.spec_state(rid2) is Clean);
                assert forall|k: u64|
                    #[trigger] old(self).spec_catalog().contains_key(k) implies self.region_bytes(
                    old(self).spec_catalog()[k].region_id as int,
                ) == old(self).region_bytes(old(self).spec_catalog()[k].region_id as int) by {
                    assert(old(self).entry_located_ok(k));
                    let rk = old(self).spec_catalog()[k].region_id as int;
                    assert(after_flush.region_bytes(rk) == old(self).region_bytes(rk));
                    if rk == rid2 {
                        assert(old(self).spec_state(rid2) is Clean);
                        assert(false);
                    }
                }
            }
        }
        proof {
            assert forall|k: u64|
                #[trigger] old(self).spec_catalog().contains_key(k) implies self.region_bytes(
                old(self).spec_catalog()[k].region_id as int,
            ) == old(self).region_bytes(old(self).spec_catalog()[k].region_id as int) by {
                assert(old(self).entry_located_ok(k));
            }
        }
        let ghost pre = *self;
        proof {
            assert(self.current is Some);
            assert(match self.current {
                Option::Some(g) => g.buf@.len() == self.device.spec_region_size(),
                Option::None => true,
            });
            assert(match self.current {
                Option::Some(g) => g.len % self.device.spec_align() == 0,
                Option::None => true,
            });
            assert(match self.current {
                Option::Some(g) => g.len + padded + self.device.spec_align()
                    <= self.device.spec_region_size(),
                Option::None => true,
            });
            if rem != 0 {
                vstd::arithmetic::div_mod::lemma_add_mod_noop(
                    entry_len as int,
                    (align - rem) as int,
                    align as int,
                );
                vstd::arithmetic::div_mod::lemma_small_mod(
                    (align - rem) as nat,
                    align as nat,
                );
                vstd::arithmetic::div_mod::lemma_mod_self_0(align as int);
            }
            assert(padded as int % (align as int) == 0);
        }
        let seq_no = self.next_sequence;
        self.next_sequence = seq_no + 1;
        let entry_bytes = build_entry(key, &value, seq_no);
        let (rid, off) = match &self.current {
            Some(g) => (g.region_id, g.len),
            None => {
                proof {
                    assert(false);
                }
                (0, 0)
            },
        };
        match &mut self.current {
            Some(g) => {
                write_bytes(&mut g.buf, off, entry_bytes.as_slice());
                g.len = off + padded;
            },
            None => {},
        }
        let ce = CatalogEntry { region_id: rid, offset: off, len: entry_len, sequence: seq_no };
        proof {
            if pre.spec_catalog().contains_key(key) {
                assert(pre.entry_located_ok(key));
            }
        }
        let displaced = self.catalog.insert(key, ce);
        on_insert_all(&mut self.admissions, &key, weight, &self.metrics, &judges);
        self.metrics.op_insert_inserted = sat_add(self.metrics.op_insert_inserted, 1);
        self.metrics.op_bytes_insert = sat_add(self.metrics.op_bytes_insert, weight as u64);
        proof {
            self.lemma_after_append(pre, *old(self), key, value@, ce, off as int, padded as int);
        }
        true
    }

    /// After one entry is appended at the current region's tail and
    /// published, every invariant holds again and the contents gained
    /// exactly that pair.
    proof fn lemma_after_append(
        &self,
        pre: Store,
        orig: Store,
        key: u64,
        value: Seq<u8>,
        ce: CatalogEntry,
        off: int,
        padded: int,
    )
        requires
            pre.wf(),
            pre.located_ok(),
            pre.spec_current_region() is Some,
            value.len() <= u32::MAX,
            ce.len == 32 + value.len(),
            ce.offset == off,
            ce.sequence == pre.spec_next_sequence(),
            pre.spec_next_sequence() < u64::MAX,
            ce.region_id < pre.spec_region_count(),
            Option::Some(ce.region_id) == pre.spec_current_region(),
            off == pre.spec_current_len(),
            32 + value.len() <= padded,
            padded % pre.spec_align() as int == 0,
            off + padded + pre.spec_align() <= pre.spec_region_size(),
    // how self differs from pre
            self.device == pre.device,
            self.catalog.wf(),
            self.spec_catalog() == spec_catalog_insert(pre.spec_catalog(), key, ce),
            self.manager == pre.manager,
            self.next_sequence == pre.spec_next_sequence() + 1,
            self.spec_current_region() == pre.spec_current_region(),
            self.spec_current_len() == off + padded,
            (match self.current {
                Option::Some(g) => g.buf@,
                Option::None => Seq::<u8>::empty(),
            }) == (match pre.current {
                Option::Some(g) => g.buf@.take(off) + spec_entry_bytes(key, value, ce.sequence)
                    + g.buf@.skip(off + 32 + value.len()),
                Option::None => Seq::<u8>::empty(),
            }),
            self.metrics.total_bytes == pre.spec_metrics().total_bytes,
            self.reinsertions@.len() == pre.spec_reinsertions_len(),
    // how pre relates to the state at the call
            orig.spec_catalog() == pre.spec_catalog(),
            orig.located_ok(),
            forall|k: u64|
                #[trigger] orig.spec_catalog().contains_key(k) ==> pre.region_bytes(
                    orig.spec_catalog()[k].region_id as int,
                ) == orig.region_bytes(orig.spec_catalog()[k].region_id as int),
            orig.spec_region_count() == pre.spec_region_count(),
            orig.spec_next_sequence() == pre.spec_next_sequence(),
        ensures
            self.wf(),
            self.located_ok(),
            orig.consistent() ==> self.consistent(),
            self.contents() == orig.contents().insert(key, value),
            self.spec_catalog().contains_key(key),
            self.spec_catalog()[key] == ce,
            self.spec_catalog() == orig.spec_catalog().insert(key, ce),
            forall|i: int|
                0 <= i < pre.spec_region_count() && i != ce.region_id ==> self.region_bytes(i)
                    == pre.region_bytes(i),
    {
        let rid = ce.region_id as int;
        let entry = spec_entry_bytes(key, value, ce.sequence);
        lemma_entry_round_trip(key, value, ce.sequence);
        if pre.spec_catalog().contains_key(key) {
            assert(pre.entry_located_ok(key));
        }
        assert(self.spec_catalog() == pre.spec_catalog().insert(key, ce));
        assert(self.spec_catalog()[key] == ce);
        // the new buffer image
        let pre_buf = match pre.current {
            Option::Some(g) => g.buf@,
            Option::None => Seq::<u8>::empty(),
        };
        let new_buf = match self.current {
            Option::Some(g) => g.buf@,
            Option::None => Seq::<u8>::empty(),
        };
        pre.device.lemma_wf();
        vstd::arithmetic::div_mod::lemma_add_mod_noop(off, padded, pre.spec_align() as int);
        assert forall|i: int|
            0 <= i < self.spec_region_count() implies (((#[trigger] self.manager.spec_state(
            i,
        )) is Writing) <==> (match self.current {
            Option::Some(g) => g.region_id == i,
            Option::None => false,
        })) by {
            assert(self.spec_current_region() == pre.spec_current_region());
        }
        assert(pre_buf.len() == pre.spec_region_size());
        assert(entry.len() == 32 + value.len());
        assert(new_buf.len() == pre_buf.len());
        // bytes below the append point are untouched
        assert forall|j: int| 0 <= j < off implies new_buf[j] == pre_buf[j] by {}
        // the appended entry occupies [off, off + entry.len())
        assert(new_buf.subrange(off, off + entry.len()) =~= entry);
        // region bytes elsewhere are untouched
        assert forall|i: int|
            0 <= i < self.spec_region_count() && i != rid implies self.region_bytes(i)
            == pre.region_bytes(i) by {}
        // the new entry is valid at its location
        assert(new_buf.subrange(off + 32, off + ce.len) =~= value);
        assert(self.region_bytes(rid) == new_buf);
        assert(valid_entry_for(self.region_bytes(rid), ce, key));
        assert(self.entry_consistent(key));
        assert(self.entry_located_ok(key));
        // old entries keep their bytes: they sit below the append point or
        // in other regions
        assert forall|k: u64|
            self.spec_catalog().contains_key(k) && k != key
            implies #[trigger] self.spec_catalog()[k] == orig.spec_catalog()[k]
                && orig.spec_catalog().contains_key(k) by {}
        assert forall|k: u64|
            orig.spec_catalog().contains_key(k) && k != key implies self.region_bytes(
            orig.spec_catalog()[k].region_id as int,
        ).subrange(
            orig.spec_catalog()[k].offset as int,
            orig.spec_catalog()[k].offset + orig.spec_catalog()[k].len,
        ) == orig.region_bytes(orig.spec_catalog()[k].region_id as int).subrange(
            orig.spec_catalog()[k].offset as int,
            orig.spec_catalog()[k].offset + orig.spec_catalog()[k].len,
        ) && self.region_bytes(orig.spec_catalog()[k].region_id as int).subrange(
            orig.spec_catalog()[k].offset + 32,
            orig.spec_catalog()[k].offset + orig.spec_catalog()[k].len,
        ) == orig.region_bytes(orig.spec_catalog()[k].region_id as int).subrange(
            orig.spec_catalog()[k].offset + 32,
            orig.spec_catalog()[k].offset + orig.spec_catalog()[k].len,
        ) by {
            assert(pre.spec_catalog().contains_key(k));
            assert(pre.entry_located_ok(k));
            let e = orig.spec_catalog()[k];
            if e.region_id as int == rid {
                assert(e.offset + e.len <= off);
                assert(pre.region_bytes(rid) == pre_buf);
                assert(self.region_bytes(rid).subrange(e.offset as int, e.offset + e.len)
                    =~= pre.region_bytes(rid).subrange(e.offset as int, e.offset + e.len));
                assert(self.region_bytes(rid).subrange(e.offset + 32, e.offset + e.len)
                    =~= pre.region_bytes(rid).subrange(e.offset + 32, e.offset + e.len));
            } else {
                assert(self.region_bytes(e.region_id as int) == pre.region_bytes(
                    e.region_id as int,
                ));
            }
        }
        // location invariant
        assert forall|k: u64|
            self.spec_catalog().contains_key(k) implies #[trigger] self.entry_located_ok(k) by {
            if k != key {
                assert(pre.spec_catalog().contains_key(k));
                assert(pre.entry_located_ok(k));
                let e = self.spec_catalog()[k];
                if e.region_id as int == rid {
                    assert(e.offset + e.len <= off);
                }
            }
        }
        // consistency
        if orig.consistent() {
            assert forall|k: u64|
                self.spec_catalog().contains_key(k) implies #[trigger] self.entry_consistent(
                k,
            ) by {
                if k != key {
                    assert(orig.entry_consistent(k));
                    assert(orig.entry_located_ok(k));
                }
            }
        }
        // contents
        assert forall|k: u64|
            orig.spec_catalog().contains_key(k) && k != key implies self.spec_value_of(k)
            == orig.spec_value_of(k) by {
            assert(pre.entry_located_ok(k));
            assert(orig.entry_located_ok(k));
        }
        assert(self.spec_value_of(key) == value);
        assert(self.contents() =~= orig.contents().insert(key, value));
    }

    /// The store's metrics block.
    pub fn metrics(&self) -> (r: &Metrics)
        ensures
            *r == self.spec_metrics(),
    {
        &self.metrics
    }

    /// The stacked admission policies.
    pub fn admissions(&self) -> (r: &Vec<RatedTicketAdmissionPolicy>)
        ensures
            r@ == self.spec_admissions(),
    {
        &self.admissions
    }

    /// Number of regions in the clean pool.
    pub fn clean_regions(&self) -> (n: usize)
        ensures
            n == self.spec_clean().len(),
    {
        self.manager.clean_len()
    }

    /// Flips one device byte, modelling on-media corruption: the region's
    /// bytes afterwards equal the old ones with the byte at `offset` XORed
    /// with 0xFF. The affected region's entries are no longer guaranteed
    /// consistent; a later lookup of an affected key detects the checksum
    /// mismatch, drops the key and misses. A flip in the region currently
    /// being written lands under its in-memory image and stays invisible
    /// until that image is flushed over it.
    pub fn corrupt_byte(&mut self, region_id: u32, offset: usize)
        requires
            old(self).wf(),
            old(self).located_ok(),
            region_id < old(self).spec_region_count(),
            offset < old(self).spec_region_size(),
        ensures
            final(self).wf(),
            final(self).located_ok(),
            final(self).spec_catalog() == old(self).spec_catalog(),
            old(self).spec_current_region() != Some(region_id) ==> final(self).region_bytes(
                region_id as int,
            ) == old(self).region_bytes(region_id as int).update(
                offset as int,
                old(self).region_bytes(region_id as int)[offset as int] ^ 0xFF,
            ),
            forall|i: int|
                0 <= i < old(self).spec_region_count() && i != region_id ==> final(self).region_bytes(i) == old(self).region_bytes(i),
            forall|i: int|
                0 <= i < old(self).spec_region_count() ==> final(self).spec_state(i) == old(self).spec_state(i),
            final(self).spec_clean() == old(self).spec_clean(),
            final(self).spec_evictable() == old(self).spec_evictable(),
            final(self).spec_next_sequence() == old(self).spec_next_sequence(),
            final(self).spec_admissions() == old(self).spec_admissions(),
            final(self).spec_current_region() == old(self).spec_current_region(),
            final(self).spec_metrics() == old(self).spec_metrics(),
    {
        proof {
            self.device.lemma_wf();
        }
        let mut image = self.device.read(region_id, 0, self.device.region_size());
        proof {
            assert(image@ =~= self.device@[region_id as int]);
        }
        let flipped = image[offset] ^ 0xFF;
        image.set(offset, flipped);
        let ghost before = *self;
        self.device.write_region(region_id, image);
        proof {
            assert(self.device@[region_id as int] =~= before.device@[region_id as int].update(
                offset as int,
                before.device@[region_id as int][offset as int] ^ 0xFF,
            ));
            assert forall|k: u64|
                self.spec_catalog().contains_key(k) implies #[trigger] self.entry_located_ok(
                k,
            ) by {
                assert(before.entry_located_ok(k));
            }
        }
    }

    /// Drains the store: flushes the current region, if any. In-flight
    /// contents are unchanged; afterwards no region is being written.
    pub fn close(&mut self)
        requires
            old(self).wf(),
            old(self).located_ok(),
        ensures
            final(self).wf(),
            final(self).located_ok(),
            old(self).consistent() ==> final(self).consistent(),
            final(self).contents() == old(self).contents(),
            final(self).spec_catalog() == old(self).spec_catalog(),
            final(self).spec_current_region() is None,
            final(self).spec_next_sequence() == old(self).spec_next_sequence(),
            final(self).spec_admissions() == old(self).spec_admissions(),
    {
        if self.current.is_some() {
            self.flush_current();
        }
    }

    /// Credits `elapsed_ms` of wall time to every admission bucket.
    pub fn admission_refill(&mut self, elapsed_ms: u64)
        requires
            old(self).wf(),
            old(self).located_ok(),
        ensures
            final(self).wf(),
            final(self).located_ok(),
            old(self).consistent() ==> final(self).consistent(),
            final(self).contents() == old(self).contents(),
            final(self).spec_catalog() == old(self).spec_catalog(),
            final(self).spec_admissions().len() == old(self).spec_admissions().len(),
            forall|j: int|
                0 <= j < old(self).spec_admissions().len() ==> {
                    &&& (#[trigger] final(self).spec_admissions()[j]).wf()
                    &&& final(self).spec_admissions()[j].spec_rate() == old(self).spec_admissions()[j].spec_rate()
                    &&& final(self).spec_admissions()[j].spec_tokens() == spec_refilled_tokens(
                        old(self).spec_admissions()[j],
                        elapsed_ms,
                    )
                },
    {
        let mut i: usize = 0;
        while i < self.admissions.len()
            invariant
                i <= self.admissions@.len(),
                self.admissions@.len() == old(self).spec_admissions().len(),
                self.device == old(self).device,
                self.catalog == old(self).catalog,
                self.manager == old(self).manager,
                self.current == old(self).current,
                self.next_sequence == old(self).next_sequence,
                self.reinsertions == old(self).reinsertions,
                self.metrics == old(self).metrics,
                forall|j: int|
                    i <= j < self.admissions@.len() ==> #[trigger] self.admissions@[j] == old(self).spec_admissions()[j],
                forall|j: int|
                    0 <= j < i ==> {
                        &&& (#[trigger] self.admissions@[j]).wf()
                        &&& self.admissions@[j].spec_rate() == old(self).spec_admissions()[j].spec_rate()
                        &&& self.admissions@[j].spec_tokens() == spec_refilled_tokens(
                            old(self).spec_admissions()[j],
                            elapsed_ms,
                        )
                    },
            decreases self.admissions@.len() - i,
        {
            let mut policy = self.admissions[i];
            policy.refill(elapsed_ms);
            self.admissions.set(i, policy);
            i = i + 1;
        }
        proof {
            self.preserve_entry_invariants(*old(self));
            if old(self).consistent() {
                assert forall|k: u64|
                    self.spec_catalog().contains_key(k) implies #[trigger] self.entry_consistent(
                    k,
                ) by {
                    assert(old(self).entry_consistent(k));
                }
            }
            assert(self.contents() =~= old(self).contents());
        }
    }

    /// Scans a Reclaiming region's entries on the device and re-admits the
    /// survivors the reinsertion policies accept, through the normal insert
    /// path under rate control. Returns how many entries were reinserted,
    /// whether the pass aborted for want of a clean region, and the total
    /// wait the rate limiter asked for.
    ///
    /// Reinserted entries land in the writing region, never in the region
    /// being reclaimed, so no live key references it afterwards either.
    fn reinsert_pass(&mut self, rid: u32, limiter: &mut Option<RateLimiter>) -> (r: (
        usize,
        bool,
        u64,
    ))
        requires
            old(self).wf(),
            old(self).located_ok(),
            old(self).spec_reinsertions_len() > 0,
            rid < old(self).spec_region_count(),
            old(self).spec_state(rid as int) is Reclaiming,
            forall|k: u64|
                #[trigger] old(self).spec_catalog().contains_key(k) ==> old(self).spec_catalog()[k].region_id != rid,
            *old(limiter) matches Some(l) ==> l.wf(),
        ensures
            final(self).wf(),
            final(self).located_ok(),
            old(self).consistent() ==> final(self).consistent(),
            final(self).spec_state(rid as int) is Reclaiming,
            forall|k: u64|
                #[trigger] final(self).spec_catalog().contains_key(k) ==> final(self).spec_catalog()[k].region_id != rid,
            final(self).spec_region_size() == old(self).spec_region_size(),
            final(self).spec_align() == old(self).spec_align(),
            final(self).spec_region_count() == old(self).spec_region_count(),
            final(self).spec_reinsertions_len() == old(self).spec_reinsertions_len(),
            final(self).spec_admissions().len() == old(self).spec_admissions().len(),
            *final(limiter) matches Some(l) ==> l.wf(),
            *final(limiter) is Some <==> *old(limiter) is Some,
    // The pass never writes into the region it is scanning, and it never
    // creates a key: the exist policy re-admits only keys already live.
            final(self).region_bytes(rid as int) == old(self).region_bytes(rid as int),
            forall|k: u64|
                #[trigger] final(self).spec_catalog().contains_key(k) ==> old(self).spec_catalog().contains_key(k),
    // Counters the pass never touches, and the reinsert byte counter.
            final(self).spec_metrics().op_lookup_hit == old(self).spec_metrics().op_lookup_hit,
            final(self).spec_metrics().op_lookup_miss == old(self).spec_metrics().op_lookup_miss,
            final(self).spec_metrics().op_remove == old(self).spec_metrics().op_remove,
            final(self).spec_metrics().op_bytes_lookup == old(self).spec_metrics().op_bytes_lookup,
            final(self).spec_metrics().op_bytes_reclaim == old(self).spec_metrics().op_bytes_reclaim,
            r.0 == 0 ==> final(self).spec_metrics().op_bytes_reinsert == old(self).spec_metrics().op_bytes_reinsert,
            final(self).spec_metrics().op_bytes_reinsert >= old(self).spec_metrics().op_bytes_reinsert,
    // An abort means an accepted, admitted candidate could not be placed:
    // the clean pool was exhausted (or the sequence space ran out).
            r.1 ==> final(self).spec_clean().len() == 0 || final(self).spec_next_sequence()
                == u64::MAX,
    {
        let region_size = self.device.region_size();
        let align = self.device.align();
        proof {
            self.device.lemma_wf();
        }
        let mut reinserted: usize = 0;
        let mut aborted = false;
        let mut wait_ms: u64 = 0;
        let mut reinsert_bytes: u64 = 0;
        let mut off: usize = 0;
        loop
            invariant_except_break
                !aborted,
            invariant
                self.wf(),
                self.located_ok(),
                old(self).consistent() ==> self.consistent(),
                forall|k: u64|
                    #[trigger] self.spec_catalog().contains_key(k) ==> self.spec_catalog()[k].region_id
                        != rid,
                forall|k: u64|
                    #[trigger] self.spec_catalog().contains_key(k) ==> old(self).spec_catalog().contains_key(k),
                self.spec_state(rid as int) is Reclaiming,
                rid < self.spec_region_count(),
                self.spec_region_size() == old(self).spec_region_size(),
                self.spec_align() == old(self).spec_align(),
                self.spec_region_count() == old(self).spec_region_count(),
                self.spec_reinsertions_len() == old(self).spec_reinsertions_len(),
                old(self).spec_reinsertions_len() > 0,
                self.spec_admissions().len() == old(self).spec_admissions().len(),
                region_size == self.spec_region_size(),
                align == self.spec_align(),
                0 < align <= region_size,
                2 * align <= region_size,
                off <= region_size - align,
                *limiter matches Some(l) ==> l.wf(),
                *limiter is Some <==> *old(limiter) is Some,
                self.region_bytes(rid as int) == old(self).region_bytes(rid as int),
                self.spec_metrics().op_lookup_hit == old(self).spec_metrics().op_lookup_hit,
                self.spec_metrics().op_lookup_miss == old(self).spec_metrics().op_lookup_miss,
                self.spec_metrics().op_remove == old(self).spec_metrics().op_remove,
                self.spec_metrics().op_bytes_lookup == old(self).spec_metrics().op_bytes_lookup,
                self.spec_metrics().op_bytes_reclaim == old(self).spec_metrics().op_bytes_reclaim,
                self.spec_metrics().op_bytes_reinsert == old(self).spec_metrics().op_bytes_reinsert,
                reinserted == 0 ==> reinsert_bytes == 0,
            ensures
                self.wf(),
                self.located_ok(),
                old(self).consistent() ==> self.consistent(),
                forall|k: u64|
                    #[trigger] self.spec_catalog().contains_key(k) ==> self.spec_catalog()[k].region_id
                        != rid,
                forall|k: u64|
                    #[trigger] self.spec_catalog().contains_key(k) ==> old(self).spec_catalog().contains_key(k),
                self.spec_state(rid as int) is Reclaiming,
                self.spec_region_size() == old(self).spec_region_size(),
                self.spec_align() == old(self).spec_align(),
                self.spec_region_count() == old(self).spec_region_count(),
                self.spec_reinsertions_len() == old(self).spec_reinsertions_len(),
                self.spec_admissions().len() == old(self).spec_admissions().len(),
                *limiter matches Some(l) ==> l.wf(),
                *limiter is Some <==> *old(limiter) is Some,
                self.region_bytes(rid as int) == old(self).region_bytes(rid as int),
                self.spec_metrics().op_lookup_hit == old(self).spec_metrics().op_lookup_hit,
                self.spec_metrics().op_lookup_miss == old(self).spec_metrics().op_lookup_miss,
                self.spec_metrics().op_remove == old(self).spec_metrics().op_remove,
                self.spec_metrics().op_bytes_lookup == old(self).spec_metrics().op_bytes_lookup,
                self.spec_metrics().op_bytes_reclaim == old(self).spec_metrics().op_bytes_reclaim,
                self.spec_metrics().op_bytes_reinsert == old(self).spec_metrics().op_bytes_reinsert,
                reinserted == 0 ==> reinsert_bytes == 0,
                aborted ==> self.spec_clean().len() == 0 || self.spec_next_sequence() == u64::MAX,
            decreases region_size - off,
        {
            proof {
                self.device.lemma_wf();
            }
            let remaining = region_size - align - off;
            if remaining < 32 {
                break;
            }
            let magic_bytes = self.device.read(rid, off, 4);
            let magic = vstd::bytes::u32_from_le_bytes(magic_bytes.as_slice());
            if magic != crate::entry::ENTRY_MAGIC {
                break;
            }
            let len_bytes = self.device.read(rid, off + 20, 4);
            let value_len = vstd::bytes::u32_from_le_bytes(len_bytes.as_slice()) as usize;
            if value_len > remaining - 32 {
                break;
            }
            let entry_len = 32 + value_len;
            let raw = self.device.read(rid, off, entry_len);
            let candidate = decode_entry(raw.as_slice());
            let advance: usize;
            let rem = entry_len % align;
            let rounded = if rem == 0 {
                entry_len
            } else {
                entry_len + (align - rem)
            };
            if rounded > remaining {
                advance = remaining;
            } else {
                advance = rounded;
            }
            match candidate {
                None => {
                    break;
                },
                Some((key, value, found_seq)) => {
                    let weight: usize = if value.len() > usize::MAX - 8 {
                        usize::MAX
                    } else {
                        8 + value.len()
                    };
                    let ghost snap = *self;
                    let mut judges: Vec<bool> = Vec::new();
                    let mut agg = true;
                    let mut i: usize = 0;
                    while i < self.reinsertions.len()
                        invariant
                            *self == snap,
                            snap.wf(),
                            i <= self.reinsertions@.len(),
                            judges@.len() == i,
                            agg && i > 0 ==> snap.spec_catalog().contains_key(key),
                        decreases self.reinsertions@.len() - i,
                    {
                        let verdict = self.reinsertions[i].judge(
                            &key,
                            weight,
                            &self.metrics,
                            &self.catalog,
                        );
                        agg = agg && verdict;
                        judges.push(verdict);
                        i = i + 1;
                    }
                    if !agg {
                        let mut i: usize = 0;
                        while i < self.reinsertions.len()
                            invariant
                                *self == snap,
                                i <= self.reinsertions@.len(),
                                judges@.len() >= self.reinsertions@.len(),
                            decreases self.reinsertions@.len() - i,
                        {
                            self.reinsertions[i].on_drop(&key, weight, &self.metrics, judges[i]);
                            i = i + 1;
                        }
                    } else {
                        match limiter {
                            Some(l) => {
                                match l.consume(weight as u64) {
                                    Some(wait) => {
                                        wait_ms = sat_add(wait_ms, wait);
                                    },
                                    None => {},
                                }
                            },
                            None => {},
                        }
                        proof {
                            assert(self.spec_catalog().contains_key(key));
                        }
                        let ghost pre_ins = *self;
                        let ghost vlen = value@.len();
                        let admitted_here = judge_all(
                            &self.admissions,
                            &key,
                            weight,
                            &self.metrics,
                        );
                        let ok = self.insert(key, value);
                        proof {
                            assert(!(pre_ins.spec_state(rid as int) is Writing) && !(
                            pre_ins.spec_state(rid as int) is Clean));
                            assert(self.spec_state(rid as int) == pre_ins.spec_state(
                                rid as int,
                            ));
                            if ok {
                                let cr = self.spec_catalog()[key].region_id;
                                assert(self.spec_current_region() == Some(cr));
                                assert(match self.current {
                                    Option::Some(g) => self.manager.spec_state(
                                        g.region_id as int,
                                    ) is Writing,
                                    Option::None => false,
                                });
                                assert(cr != rid);
                                assert forall|k2: u64|
                                    #[trigger] self.spec_catalog().contains_key(k2)
                                    implies self.spec_catalog()[k2].region_id != rid by {
                                    if k2 != key {
                                        assert(self.spec_catalog()[k2] == pre_ins.spec_catalog()[k2]);
                                        assert(pre_ins.spec_catalog().contains_key(k2));
                                    }
                                }
                            }
                        }
                        let ghost after_ins = *self;
                        if ok {
                            let mut i: usize = 0;
                            while i < self.reinsertions.len()
                                invariant
                                    *self == after_ins,
                                    i <= self.reinsertions@.len(),
                                    judges@.len() >= self.reinsertions@.len(),
                                decreases self.reinsertions@.len() - i,
                            {
                                self.reinsertions[i].on_insert(
                                    &key,
                                    weight,
                                    &self.metrics,
                                    judges[i],
                                );
                                i = i + 1;
                            }
                            reinsert_bytes = sat_add(reinsert_bytes, weight as u64);
                            if reinserted < usize::MAX {
                                reinserted = reinserted + 1;
                            }
                        } else if admitted_here.1 {
                            // Admitted but not placed: the clean pool is dry
                            // (or the sequence space ran out). Stop early so
                            // foreground inserts get the next clean region.
                            let mut i: usize = 0;
                            while i < self.reinsertions.len()
                                invariant
                                    *self == after_ins,
                                    i <= self.reinsertions@.len(),
                                    judges@.len() >= self.reinsertions@.len(),
                                decreases self.reinsertions@.len() - i,
                            {
                                self.reinsertions[i].on_drop(
                                    &key,
                                    weight,
                                    &self.metrics,
                                    judges[i],
                                );
                                i = i + 1;
                            }
                            proof {
                                assert(!pre_ins.spec_can_insert(vlen as int));
                                assert((region_size - align) as int % (align as int) == 0)
                                    by (nonlinear_arith)
                                    requires
                                        region_size as int % (align as int) == 0,
                                        0 < align <= region_size,
                                ;
                                lemma_round_up_le(
                                    32 + vlen as int,
                                    align as int,
                                    (region_size - align) as int,
                                );
                                assert(spec_entry_padded(vlen as int, align as int)
                                    <= region_size - align);
                                assert(self.spec_clean().len() == 0 || self.spec_next_sequence()
                                    == u64::MAX);
                            }
                            aborted = true;
                            break;
                        }
                        // Otherwise an admission judge vetoed this candidate
                        // (its hooks ran inside the insert); the scan moves
                        // on to the next entry.
                    }
                },
            }
            off = off + advance;
        }
        let ghost before_metrics = *self;
        self.metrics.op_bytes_reinsert = sat_add(self.metrics.op_bytes_reinsert, reinsert_bytes);
        proof {
            self.preserve_entry_invariants(before_metrics);
            if old(self).consistent() {
                assert forall|k: u64|
                    self.spec_catalog().contains_key(k) implies #[trigger] self.entry_consistent(
                    k,
                ) by {
                    assert(before_metrics.entry_consistent(k));
                }
            }
        }
        (reinserted, aborted, wait_ms)
    }

    /// One reclamation step, as the background reclaimer runs it.
    ///
    /// While the clean pool holds at least `threshold` regions nothing
    /// happens. Otherwise the next region in eviction order is taken: its
    /// catalog references are dropped first, the exclusive fence confirms
    /// no reader or writer is left, surviving entries are re-admitted under
    /// the reinsertion policies (rate-limited, aborting early if a
    /// foreground writer would starve for clean regions), the trailer block
    /// is zeroed and the region returns to the clean pool. Afterwards no
    /// live key references the reclaimed region.
    pub fn reclaim_one(&mut self, threshold: usize, limiter: &mut Option<RateLimiter>) -> (r:
        ReclaimOutcome)
        requires
            old(self).wf(),
            old(self).located_ok(),
            *old(limiter) matches Some(l) ==> l.wf(),
        ensures
            final(self).wf(),
            final(self).located_ok(),
            old(self).consistent() ==> final(self).consistent(),
            *final(limiter) matches Some(l) ==> l.wf(),
            *final(limiter) is Some <==> *old(limiter) is Some,
            final(self).spec_region_size() == old(self).spec_region_size(),
            final(self).spec_align() == old(self).spec_align(),
            final(self).spec_region_count() == old(self).spec_region_count(),
            final(self).spec_reinsertions_len() == old(self).spec_reinsertions_len(),
            final(self).spec_admissions().len() == old(self).spec_admissions().len(),
    // The three outcomes are decided by the state: a full-enough pool does
    // nothing, an empty eviction order backs off, anything else reclaims.
            (old(self).spec_clean().len() >= threshold) <==> r is AboveThreshold,
            r is NoEvictable <==> (old(self).spec_clean().len() < threshold && old(self).spec_evictable().len() == 0),
            (old(self).spec_clean().len() < threshold && old(self).spec_evictable().len() > 0)
                ==> r is Reclaimed,
            r is AboveThreshold ==> *final(self) == *old(self) && *final(limiter) == *old(limiter),
            r is NoEvictable ==> {
                &&& final(self).spec_catalog() == old(self).spec_catalog()
                &&& final(self).contents() == old(self).contents()
                &&& final(self).spec_clean() == old(self).spec_clean()
                &&& final(self).spec_evictable() == old(self).spec_evictable()
                &&& final(self).spec_current_region() == old(self).spec_current_region()
                &&& final(self).spec_next_sequence() == old(self).spec_next_sequence()
                &&& final(self).spec_admissions() == old(self).spec_admissions()
                &&& final(self).spec_metrics() == old(self).spec_metrics()
                &&& forall|i: int|
                    0 <= i < old(self).spec_region_count() ==> final(self).spec_state(i) == old(self).spec_state(i)
                &&& forall|i: int|
                    0 <= i < old(self).spec_region_count() ==> final(self).region_bytes(i)
                        == old(self).region_bytes(i)
                &&& *final(limiter) == *old(limiter)
            },
            r matches ReclaimOutcome::Reclaimed { region_id, reinserted, aborted, wait_ms } ==> {
                &&& region_id < old(self).spec_region_count()
                &&& old(self).spec_state(region_id as int) is Evictable
                &&& final(self).spec_state(region_id as int) is Clean
                &&& final(self).spec_clean().len() >= 1
                &&& final(self).spec_clean()[final(self).spec_clean().len() - 1] == region_id
                &&& forall|k: u64|
                    #[trigger] final(self).spec_catalog().contains_key(k) ==> final(self).spec_catalog()[k].region_id != region_id
    // Reclamation never creates a key: candidates are re-admitted only
    // while live elsewhere, so the catalog's domain can only shrink.
                &&& forall|k: u64|
                    #[trigger] final(self).spec_catalog().contains_key(k) ==> old(self).spec_catalog().contains_key(k)
    // Exactly one aligned block of zeroes lands at the trailer; the rest of
    // the region's bytes are as they were.
                &&& final(self).region_bytes(region_id as int) == old(self).region_bytes(
                    region_id as int,
                ).take(old(self).spec_region_size() - old(self).spec_align()) + spec_zeros(
                    old(self).spec_align() as nat,
                )
    // Reclaim accounting: the reclaimed bytes are counted and the gauge
    // drops by the region size (the reinsertion pass may have grown it).
                &&& final(self).spec_metrics().op_bytes_reclaim == sat_add_spec(
                    old(self).spec_metrics().op_bytes_reclaim,
                    old(self).spec_region_size() as u64,
                )
                &&& reinserted == 0 ==> final(self).spec_metrics().op_bytes_reinsert == old(self).spec_metrics().op_bytes_reinsert
                &&& final(self).spec_metrics().op_bytes_reinsert >= old(self).spec_metrics().op_bytes_reinsert
    // An aborted pass means the clean pool was exhausted mid-pass: the
    // reclaimed region is then the only clean one (unless the sequence
    // space ran out, the one other way a placement can fail).
                &&& aborted ==> (final(self).spec_next_sequence() == u64::MAX || (final(self).spec_clean().len() == 1 && final(self).spec_clean()[0] == region_id))
                &&& old(self).spec_reinsertions_len() == 0 ==> {
                    &&& forall|k: u64|
                        #[trigger] final(self).spec_catalog().contains_key(k) <==> (old(self).spec_catalog().contains_key(k) && old(self).spec_catalog()[k].region_id
                            != region_id)
                    &&& forall|k: u64|
                        #[trigger] final(self).spec_catalog().contains_key(k) ==> final(self).contents()[k] == old(self).contents()[k]
                    &&& final(self).spec_metrics() == (Metrics {
                        op_bytes_reclaim: sat_add_spec(
                            old(self).spec_metrics().op_bytes_reclaim,
                            old(self).spec_region_size() as u64,
                        ),
                        total_bytes: (old(self).spec_metrics().total_bytes - old(self).spec_region_size()) as u64,
                        ..old(self).spec_metrics()
                    })
                }
            },
    {
        if self.manager.clean_len() >= threshold {
            return ReclaimOutcome::AboveThreshold;
        }
        let popped = self.manager.eviction_pop();
        match popped {
            None => {
                proof {
                    old(self).manager.lemma_spec_states();
                    self.manager.lemma_spec_states();
                    assert(self.manager.spec_states() =~= old(self).manager.spec_states());
                    self.preserve_entry_invariants(*old(self));
                    if old(self).consistent() {
                        assert forall|k: u64|
                            self.spec_catalog().contains_key(k)
                            implies #[trigger] self.entry_consistent(k) by {
                            assert(old(self).entry_consistent(k));
                        }
                    }
                    assert(self.contents() =~= old(self).contents());
                }
                ReclaimOutcome::NoEvictable
            },
            Some(rid) => {
                proof {
                    old(self).manager.lemma_spec_states();
                    self.manager.lemma_spec_states();
                    assert(self.manager.spec_states() =~= old(self).manager.spec_states().update(
                        rid as int,
                        RegionState::Reclaiming,
                    ));
                    lemma_count_nonclean_update(
                        old(self).manager.spec_states(),
                        rid as int,
                        RegionState::Reclaiming,
                    );
                }
                let taken = self.catalog.take_region(rid);
                proof {
                    assert forall|k: u64|
                        self.spec_catalog().contains_key(k)
                        implies #[trigger] self.entry_located_ok(k) by {
                        assert(old(self).entry_located_ok(k));
                        assert(self.spec_catalog()[k].region_id != rid);
                    }
                    if old(self).consistent() {
                        assert forall|k: u64|
                            self.spec_catalog().contains_key(k)
                            implies #[trigger] self.entry_consistent(k) by {
                            assert(old(self).entry_consistent(k));
                        }
                    }
                }
                let drained = self.manager.try_exclusive(rid, true, true, true);
                proof {
                    assert(drained);
                }
                let mut reinserted: usize = 0;
                let mut aborted = false;
                let mut wait_ms: u64 = 0;
                if self.reinsertions.len() > 0 {
                    let outcome = self.reinsert_pass(rid, limiter);
                    reinserted = outcome.0;
                    aborted = outcome.1;
                    wait_ms = outcome.2;
                }
                let ghost before_zero = *self;
                let region_size = self.device.region_size();
                let align = self.device.align();
                proof {
                    self.device.lemma_wf();
                }
                self.device.zero_block(rid, region_size - align);
                proof {
                    assert forall|k: u64|
                        self.spec_catalog().contains_key(k)
                        implies #[trigger] self.entry_located_ok(k) by {
                        assert(before_zero.entry_located_ok(k));
                    }
                    assert forall|k: u64|
                        self.spec_catalog().contains_key(k) implies self.region_bytes(
                        self.spec_catalog()[k].region_id as int,
                    ) == before_zero.region_bytes(self.spec_catalog()[k].region_id as int) by {
                        assert(before_zero.entry_located_ok(k));
                        assert(self.spec_catalog()[k].region_id != rid);
                    }
                    if old(self).consistent() {
                        assert forall|k: u64|
                            self.spec_catalog().contains_key(k)
                            implies #[trigger] self.entry_consistent(k) by {
                            assert(before_zero.entry_consistent(k));
                            assert(before_zero.entry_located_ok(k));
                        }
                    }
                }
                let ghost before_release = *self;
                proof {
                    before_release.manager.lemma_spec_states();
                }
                self.manager.release(rid);
                self.metrics.op_bytes_reclaim = sat_add(
                    self.metrics.op_bytes_reclaim,
                    region_size as u64,
                );
                proof {
                    self.manager.lemma_spec_states();
                    assert(self.manager.spec_states()
                        =~= before_release.manager.spec_states().update(
                        rid as int,
                        RegionState::Clean,
                    ));
                    lemma_count_nonclean_update(
                        before_release.manager.spec_states(),
                        rid as int,
                        RegionState::Clean,
                    );
                    lemma_count_nonclean_positive(
                        before_release.manager.spec_states(),
                        rid as int,
                    );
                    lemma_count_nonclean_le_len(before_release.manager.spec_states());
                    assert(count_nonclean(before_release.manager.spec_states()) * region_size
                        == count_nonclean(self.manager.spec_states()) * region_size
                        + region_size) by (nonlinear_arith)
                        requires
                            count_nonclean(before_release.manager.spec_states())
                                == count_nonclean(self.manager.spec_states()) + 1,
                    ;
                }
                self.metrics.total_bytes = self.metrics.total_bytes - region_size as u64;
                proof {
                    assert forall|k: u64|
                        self.spec_catalog().contains_key(k)
                        implies #[trigger] self.entry_located_ok(k) by {
                        assert(before_release.entry_located_ok(k));
                        assert(self.spec_catalog()[k].region_id != rid);
                    }
                    if old(self).consistent() {
                        assert forall|k: u64|
                            self.spec_catalog().contains_key(k)
                            implies #[trigger] self.entry_consistent(k) by {
                            assert(before_release.entry_consistent(k));
                            assert(before_release.entry_located_ok(k));
                        }
                    }
                    if self.spec_reinsertions_len() == 0 {
                        assert forall|k: u64|
                            #[trigger] self.spec_catalog().contains_key(k) implies self.contents()[k]
                            == old(self).contents()[k] by {
                            assert(old(self).entry_located_ok(k));
                            assert(before_release.entry_located_ok(k));
                        }
                    }
                }
                ReclaimOutcome::Reclaimed { region_id: rid, reinserted, aborted, wait_ms }
            },
        }
    }

    /// When the catalog only shrank and nothing else moved, both entry
    /// invariants carry over.
    proof fn preserve_entry_invariants(&self, pre: Store)
        requires
            pre.located_ok(),
            forall|k: u64|
                #[trigger] self.spec_catalog().contains_key(k) ==> pre.spec_catalog().contains_key(
                    k,
                ) && self.spec_catalog()[k] == pre.spec_catalog()[k],
            self.device == pre.device,
            self.manager.spec_count() == pre.manager.spec_count(),
            forall|i: int|
                0 <= i < pre.spec_region_count() ==> self.manager.spec_state(i)
                    == pre.manager.spec_state(i),
            self.current == pre.current,
            self.next_sequence == pre.next_sequence,
        ensures
            self.located_ok(),
            pre.consistent() ==> self.consistent(),
    {
        assert forall|k: u64|
            self.spec_catalog().contains_key(k) implies #[trigger] self.entry_located_ok(k) by {
            assert(pre.spec_catalog().contains_key(k));
            assert(pre.entry_located_ok(k));
            assert(self.spec_catalog()[k] == pre.spec_catalog()[k]);
        }
        if pre.consistent() {
            assert forall|k: u64|
                self.spec_catalog().contains_key(k) implies #[trigger] self.entry_consistent(
                k,
            ) by {
                assert(pre.entry_consistent(k));
            }
        }
    }
}

/// Saturating addition, as a spec formula.
pub open spec fn sat_add_spec(a: u64, b: u64) -> u64 {
    if a + b > u64::MAX {
        u64::MAX
    } else {
        (a + b) as u64
    }
}

/// The admission weight of an entry: encoded key plus value bytes.
pub open spec fn spec_weight(value_len: int) -> int {
    if 8 + value_len > usize::MAX {
        usize::MAX as int
    } else {
        8 + value_len
    }
}

/// The tokens a rated-ticket bucket holds after `elapsed_ms` of wall time:
/// one second's credit at most, capped at the sustained rate.
pub open spec fn spec_refilled_tokens(policy: RatedTicketAdmissionPolicy, elapsed_ms: u64) -> int {
    if policy.spec_tokens() + crate::rate::spec_refill_credit(policy.spec_rate(), elapsed_ms)
        >= policy.spec_rate() {
        policy.spec_rate() as int
    } else {
        policy.spec_tokens() + crate::rate::spec_refill_credit(policy.spec_rate(), elapsed_ms)
    }
}

/// Whether admission passes: every stacked judge answers true.
pub open spec fn spec_admitted(policies: Seq<RatedTicketAdmissionPolicy>) -> bool {
    forall|j: int| 0 <= j < policies.len() ==> (#[trigger] policies[j]).spec_judge()
}

/// The bytes an entry of `value_len` value bytes occupies in a region:
/// header, key and value, padded to the next alignment boundary.
pub open spec fn spec_entry_padded(value_len: int, align: int) -> int {
    let raw = 32 + value_len;
    if raw % align == 0 {
        raw
    } else {
        raw + (align - raw % align)
    }
}

/// Collects every admission judge's verdict and their conjunction.
fn judge_all(
    policies: &Vec<RatedTicketAdmissionPolicy>,
    key: &u64,
    weight: usize,
    metrics: &Metrics,
) -> (r: (Vec<bool>, bool))
    ensures
        r.0@.len() == policies@.len(),
        forall|j: int|
            0 <= j < policies@.len() ==> r.0@[j] == (#[trigger] policies@[j]).spec_judge(),
        r.1 == spec_admitted(policies@),
{
    let mut judges: Vec<bool> = Vec::new();
    let mut admitted = true;
    let mut i: usize = 0;
    while i < policies.len()
        invariant
            i <= policies@.len(),
            judges@.len() == i,
            forall|j: int|
                0 <= j < i ==> judges@[j] == (#[trigger] policies@[j]).spec_judge(),
            admitted == (forall|j: int|
                0 <= j < i ==> (#[trigger] policies@[j]).spec_judge()),
        decreases policies@.len() - i,
    {
        let verdict = policies[i].judge(key, weight, metrics);
        admitted = admitted && verdict;
        judges.push(verdict);
        i = i + 1;
    }
    (judges, admitted)
}

/// Runs every policy's `on_drop` hook, once each.
fn on_drop_all(
    policies: &Vec<RatedTicketAdmissionPolicy>,
    key: &u64,
    weight: usize,
    metrics: &Metrics,
    judges: &Vec<bool>,
)
    requires
        judges@.len() == policies@.len(),
{
    let mut i: usize = 0;
    while i < policies.len()
        invariant
            i <= policies@.len(),
            judges@.len() == policies@.len(),
        decreases policies@.len() - i,
    {
        policies[i].on_drop(key, weight, metrics, judges[i]);
        i = i + 1;
    }
}

/// Runs every policy's `on_insert` hook, once each: a debit of the weight.
fn on_insert_all(
    policies: &mut Vec<RatedTicketAdmissionPolicy>,
    key: &u64,
    weight: usize,
    metrics: &Metrics,
    judges: &Vec<bool>,
)
    requires
        judges@.len() == old(policies)@.len(),
    ensures
        final(policies)@.len() == old(policies)@.len(),
        forall|j: int|
            0 <= j < old(policies)@.len() ==> {
                &&& (#[trigger] final(policies)@[j]).spec_rate() == old(
                    policies,
                )@[j].spec_rate()
                &&& final(policies)@[j].spec_tokens() == if old(policies)@[j].spec_tokens()
                    >= weight {
                    old(policies)@[j].spec_tokens() - weight
                } else {
                    0
                }
                &&& (old(policies)@[j].wf() ==> final(policies)@[j].wf())
            },
{
    let mut i: usize = 0;
    while i < policies.len()
        invariant
            i <= policies@.len(),
            policies@.len() == old(policies)@.len(),
            judges@.len() == old(policies)@.len(),
            forall|j: int|
                i <= j < policies@.len() ==> #[trigger] policies@[j] == old(policies)@[j],
            forall|j: int|
                0 <= j < i ==> {
                    &&& (#[trigger] policies@[j]).spec_rate() == old(policies)@[j].spec_rate()
                    &&& policies@[j].spec_tokens() == if old(policies)@[j].spec_tokens()
                        >= weight {
                        old(policies)@[j].spec_tokens() - weight
                    } else {
                        0
                    }
                    &&& (old(policies)@[j].wf() ==> policies@[j].wf())
                },
        decreases policies@.len() - i,
    {
        let mut policy = policies[i];
        policy.on_insert(key, weight, metrics, judges[i]);
        policies.set(i, policy);
        i = i + 1;
    }
}

/// Rounding `n` up to the alignment never overshoots an aligned bound that
/// `n` already fits under.
proof fn lemma_round_up_le(n: int, a: int, x: int)
    requires
        0 < a,
        0 <= n <= x,
        x % a == 0,
    ensures
        (if n % a == 0 {
            n
        } else {
            n + (a - n % a)
        }) <= x,
{
    vstd::arithmetic::div_mod::lemma_fundamental_div_mod(n, a);
    vstd::arithmetic::div_mod::lemma_fundamental_div_mod(x, a);
    vstd::arithmetic::div_mod::lemma_mod_bound(n, a);
    if n % a != 0 {
        let q = n / a;
        let qx = x / a;
        if q >= qx {
            vstd::arithmetic::mul::lemma_mul_inequality(qx, q, a);
            assert(qx * a == a * qx) by (nonlinear_arith);
            assert(q * a == a * q) by (nonlinear_arith);
            assert(false);
        }
        vstd::arithmetic::mul::lemma_mul_inequality(q + 1, qx, a);
        assert((q + 1) * a == a * q + a) by (nonlinear_arith);
        assert(qx * a == a * qx) by (nonlinear_arith);
    }
}

/// In a row of Clean regions none holds data.
proof fn lemma_count_nonclean_all_clean(s: Seq<RegionState>)
    requires
        forall|i: int| 0 <= i < s.len() ==> s[i] is Clean,
    ensures
        count_nonclean(s) == 0,
    decreases s.len(),
{
    if s.len() > 0 {
        lemma_count_nonclean_all_clean(s.drop_last());
    }
}

} // verus!
