//! Regions and the region manager.
//!
//! A region is the unit of append and reclamation. It is always in exactly
//! one of five states; the manager owns all regions and serializes their
//! transitions, keeping every region in exactly one of: the clean queue, the
//! eviction order, the writing slot, or the reclaiming slot. Each region
//! carries a guard of three reader/writer counters; the reclaimer's
//! exclusive fence succeeds only once all counters it waits for are zero.

use vstd::prelude::*;
use crate::policies::{FifoConfig, FifoHandle, FifoPolicy, Handle, Policy};

verus! {

/// The lifecycle state of a region.
#[derive(Clone, Copy, Debug, PartialEq, Eq, Structural)]
pub enum RegionState {
    /// No live data; queued to accept new appends.
    Clean,
    /// Accepting appends into the write buffer.
    Writing,
    /// Flushed and read-only, not yet registered for eviction.
    Sealed,
    /// Read-only and registered with the eviction order.
    Evictable,
    /// Held by the reclaimer.
    Reclaiming,
}

/// The concurrency guard of one region: how many writers, buffer-served
/// readers and device-served readers are in flight.
#[derive(Clone, Copy, Debug, PartialEq, Eq, Structural)]
pub struct RegionGuard {
    /// Writers appending to the region.
    pub writers: u64,
    /// Readers served from the in-memory write buffer.
    pub buffered_readers: u64,
    /// Readers served from the device.
    pub physical_readers: u64,
}

/// The kind of shared guard acquisition.
#[derive(Clone, Copy, Debug, PartialEq, Eq, Structural)]
pub enum GuardKind {
    /// A writer appending to the region.
    Writer,
    /// A reader served from the in-memory write buffer.
    BufferedReader,
    /// A reader served from the device.
    PhysicalReader,
}

/// One region: its id, state and guard.
#[derive(Clone, Copy, Debug, PartialEq, Eq, Structural)]
pub struct Region {
    /// The region's id, equal to its index at the manager.
    pub id: u32,
    /// The lifecycle state.
    pub state: RegionState,
    /// The concurrency guard.
    pub guard: RegionGuard,
}

/// Regions of `s` holding data: those in any state but Clean.
pub open spec fn count_nonclean(s: Seq<RegionState>) -> nat
    decreases s.len(),
{
    if s.len() == 0 {
        0
    } else {
        count_nonclean(s.drop_last()) + if s.last() is Clean {
            0nat
        } else {
            1nat
        }
    }
}

/// At most every region holds data.
pub proof fn lemma_count_nonclean_le_len(s: Seq<RegionState>)
    ensures
        count_nonclean(s) <= s.len(),
    decreases s.len(),
{
    if s.len() > 0 {
        lemma_count_nonclean_le_len(s.drop_last());
    }
}

/// A region that is not Clean witnesses at least one data-holding region.
pub proof fn lemma_count_nonclean_positive(s: Seq<RegionState>, i: int)
    requires
        0 <= i < s.len(),
        !(s[i] is Clean),
    ensures
        count_nonclean(s) >= 1,
    decreases s.len(),
{
    if i < s.len() - 1 {
        assert(s.drop_last()[i] == s[i]);
        lemma_count_nonclean_positive(s.drop_last(), i);
    }
}

/// Changing one region's state changes the data-holding count by the states'
/// difference alone.
pub proof fn lemma_count_nonclean_update(s: Seq<RegionState>, i: int, v: RegionState)
    requires
        0 <= i < s.len(),
    ensures
        count_nonclean(s.update(i, v)) == count_nonclean(s) - (if s[i] is Clean {
            0nat
        } else {
            1nat
        }) + (if v is Clean {
            0nat
        } else {
            1nat
        }),
    decreases s.len(),
{
    let t = s.update(i, v);
    if i == s.len() - 1 {
        assert(t.drop_last() =~= s.drop_last());
    } else {
        assert(t.drop_last() =~= s.drop_last().update(i, v));
        assert(s.drop_last()[i] == s[i]);
        lemma_count_nonclean_update(s.drop_last(), i, v);
        assert(t.last() == s.last());
    }
}

/// Owns all regions: tracks their states and guards, queues clean regions
/// for writers, and keeps the eviction order over evictable regions.
pub struct RegionManager {
    regions: Vec<Region>,
    clean: Vec<u32>,
    evictable: FifoPolicy,
}

impl RegionManager {
    /// Number of regions.
    pub closed spec fn spec_count(&self) -> int {
        self.regions@.len() as int
    }

    /// The state of region `i`.
    pub closed spec fn spec_state(&self, i: int) -> RegionState {
        self.regions@[i].state
    }

    /// The guard counters of region `i`.
    pub closed spec fn spec_guard(&self, i: int) -> RegionGuard {
        self.regions@[i].guard
    }

    /// The clean queue, oldest first.
    pub closed spec fn spec_clean(&self) -> Seq<u32> {
        self.clean@
    }

    /// The eviction order, next victim first.
    pub closed spec fn spec_evictable(&self) -> Seq<u32> {
        self.evictable.queue()
    }

    /// The states of all regions, by id.
    pub closed spec fn spec_states(&self) -> Seq<RegionState> {
        self.regions@.map_values(|r: Region| r.state)
    }

    /// `spec_states` lists `spec_state` of every region.
    pub proof fn lemma_spec_states(&self)
        ensures
            self.spec_states().len() == self.spec_count(),
            forall|i: int|
                0 <= i < self.spec_count() ==> #[trigger] self.spec_states()[i]
                    == self.spec_state(i),
    {
    }

    /// Region `i` is queued exactly as its state says: in the clean queue
    /// when Clean, in the eviction order when Evictable.
    pub closed spec fn state_queued_ok(&self, i: int) -> bool {
        &&& ((self.spec_state(i) is Clean) <==> self.clean@.contains(i as u32))
        &&& ((self.spec_state(i) is Evictable) <==> self.evictable.queue().contains(i as u32))
    }

    /// Structural invariant: ids index the region table; a region is in the
    /// clean queue exactly when Clean and in the eviction order exactly when
    /// Evictable, and in each at most once.
    pub closed spec fn wf(&self) -> bool {
        &&& self.regions@.len() <= u32::MAX
        &&& forall|i: int| 0 <= i < self.spec_count() ==> (#[trigger] self.regions@[i]).id == i
        &&& forall|j: int|
            0 <= j < self.clean@.len() ==> (#[trigger] self.clean@[j]) < self.spec_count()
        &&& forall|j: int, l: int| 0 <= j < l < self.clean@.len() ==> self.clean@[j] != self.clean@[l]
        &&& forall|j: int|
            0 <= j < self.evictable.queue().len() ==> (#[trigger] self.evictable.queue()[j])
                < self.spec_count()
        &&& self.evictable.wf()
        &&& forall|i: int| 0 <= i < self.spec_count() ==> #[trigger] self.state_queued_ok(i)
    }

    /// All guard counters of every region are zero.
    pub open spec fn guards_idle(&self) -> bool {
        forall|i: int|
            0 <= i < self.spec_count() ==> #[trigger] self.spec_guard(i) == (RegionGuard {
                writers: 0,
                buffered_readers: 0,
                physical_readers: 0,
            })
    }

    /// A manager of `region_count` regions, all Clean and queued in id order.
    pub fn new(region_count: u32) -> (r: RegionManager)
        ensures
            r.wf(),
            r.guards_idle(),
            r.spec_count() == region_count,
            forall|i: int| 0 <= i < region_count ==> r.spec_state(i) is Clean,
            r.spec_clean() == Seq::new(region_count as nat, |i: int| i as u32),
            r.spec_evictable() == Seq::<u32>::empty(),
    {
        let mut regions: Vec<Region> = Vec::new();
        let mut clean: Vec<u32> = Vec::new();
        let mut i: u32 = 0;
        while i < region_count
            invariant
                i <= region_count,
                regions@.len() == i,
                clean@.len() == i,
                forall|j: int|
                    0 <= j < i ==> #[trigger] regions@[j] == (Region {
                        id: j as u32,
                        state: RegionState::Clean,
                        guard: RegionGuard { writers: 0, buffered_readers: 0, physical_readers: 0 },
                    }),
                forall|j: int| 0 <= j < i ==> (#[trigger] clean@[j]) == j as u32,
            decreases region_count - i,
        {
            regions.push(
                Region {
                    id: i,
                    state: RegionState::Clean,
                    guard: RegionGuard { writers: 0, buffered_readers: 0, physical_readers: 0 },
                },
            );
            clean.push(i);
            i = i + 1;
        }
        let r = RegionManager { regions, clean, evictable: FifoPolicy::new(FifoConfig {  }) };
        proof {
            assert(r.spec_clean() =~= Seq::new(region_count as nat, |i: int| i as u32));
            assert forall|i: int| 0 <= i < region_count implies r.state_queued_ok(i) by {
                assert(r.clean@[i] == i as u32);
            }
        }
        r
    }

    /// Number of regions.
    pub fn region_count(&self) -> (n: u32)
        requires
            self.wf(),
        ensures
            n == self.spec_count(),
    {
        self.regions.len() as u32
    }

    /// Length of the clean queue.
    pub fn clean_len(&self) -> (n: usize)
        ensures
            n == self.spec_clean().len(),
    {
        self.clean.len()
    }

    /// Length of the eviction order.
    pub fn evictable_len(&self) -> (n: usize)
        requires
            self.wf(),
        ensures
            n == self.spec_evictable().len(),
    {
        self.evictable.queue_len()
    }

    /// The state of a region.
    pub fn state(&self, region_id: u32) -> (s: RegionState)
        requires
            self.wf(),
            region_id < self.spec_count(),
        ensures
            s == self.spec_state(region_id as int),
    {
        self.regions[region_id as usize].state
    }

    /// Takes the oldest clean region for writing, `None` when the pool is
    /// empty; the region leaves the clean queue and becomes Writing.
    pub fn acquire_clean_region(&mut self) -> (r: Option<u32>)
        requires
            old(self).wf(),
        ensures
            final(self).wf(),
            final(self).spec_count() == old(self).spec_count(),
            r is None <==> old(self).spec_clean().len() == 0,
            r is None ==> *final(self) == *old(self),
            r matches Some(id) ==> {
                &&& id == old(self).spec_clean()[0]
                &&& id < old(self).spec_count()
                &&& old(self).spec_state(id as int) is Clean
                &&& final(self).spec_state(id as int) is Writing
                &&& final(self).spec_clean() == old(self).spec_clean().skip(1)
                &&& final(self).spec_evictable() == old(self).spec_evictable()
                &&& forall|i: int|
                    0 <= i < old(self).spec_count() && i != id ==> final(self).spec_state(i) == old(
                        self,
                    ).spec_state(i)
                &&& forall|i: int|
                    0 <= i < old(self).spec_count() ==> final(self).spec_guard(i) == old(
                        self,
                    ).spec_guard(i)
            },
    {
        if self.clean.len() == 0 {
            return None;
        }
        let id = self.clean.remove(0);
        proof {
            assert(old(self).clean@.contains(id));
            assert(old(self).clean@[0] < old(self).spec_count());
            assert(old(self).state_queued_ok(id as int));
        }
        let mut region = self.regions[id as usize];
        region.state = RegionState::Writing;
        self.regions.set(id as usize, region);
        proof {
            assert(self.clean@ =~= old(self).clean@.skip(1));
            assert forall|i: int| 0 <= i < self.spec_count() implies self.state_queued_ok(i) by {
                assert(old(self).state_queued_ok(i));
                if i == id {
                    if self.clean@.contains(id) {
                        let j = choose|j: int| 0 <= j < self.clean@.len() && self.clean@[j] == id;
                        assert(old(self).clean@[j + 1] == id);
                        assert(old(self).clean@[0] == id);
                    }
                } else {
                    if old(self).clean@.contains(i as u32) {
                        let j = choose|j: int|
                            0 <= j < old(self).clean@.len() && old(self).clean@[j] == i as u32;
                        assert(j != 0);
                        assert(self.clean@[j - 1] == i as u32);
                    }
                    if self.clean@.contains(i as u32) {
                        let j = choose|j: int| 0 <= j < self.clean@.len() && self.clean@[j] == i as u32;
                        assert(old(self).clean@[j + 1] == i as u32);
                    }
                }
            }
        }
        Some(id)
    }

    /// Seals a Writing region: it stops accepting appends.
    pub fn seal(&mut self, region_id: u32)
        requires
            old(self).wf(),
            region_id < old(self).spec_count(),
            old(self).spec_state(region_id as int) is Writing,
        ensures
            final(self).wf(),
            final(self).spec_count() == old(self).spec_count(),
            final(self).spec_state(region_id as int) is Sealed,
            final(self).spec_clean() == old(self).spec_clean(),
            final(self).spec_evictable() == old(self).spec_evictable(),
            forall|i: int|
                0 <= i < old(self).spec_count() && i != region_id ==> final(self).spec_state(i)
                    == old(self).spec_state(i),
            forall|i: int|
                0 <= i < old(self).spec_count() ==> final(self).spec_guard(i) == old(
                    self,
                ).spec_guard(i),
    {
        let mut region = self.regions[region_id as usize];
        region.state = RegionState::Sealed;
        self.regions.set(region_id as usize, region);
        proof {
            assert forall|i: int| 0 <= i < self.spec_count() implies self.state_queued_ok(i) by {
                assert(old(self).state_queued_ok(i));
            }
        }
    }

    /// Registers a Sealed region with the eviction order: it becomes
    /// Evictable and joins the back of the order.
    pub fn eviction_push(&mut self, region_id: u32)
        requires
            old(self).wf(),
            region_id < old(self).spec_count(),
            old(self).spec_state(region_id as int) is Sealed,
        ensures
            final(self).wf(),
            final(self).spec_count() == old(self).spec_count(),
            final(self).spec_state(region_id as int) is Evictable,
            final(self).spec_clean() == old(self).spec_clean(),
            final(self).spec_evictable().to_multiset() == old(
                self,
            ).spec_evictable().to_multiset().insert(region_id),
            forall|i: int|
                0 <= i < old(self).spec_count() && i != region_id ==> final(self).spec_state(i)
                    == old(self).spec_state(i),
            forall|i: int|
                0 <= i < old(self).spec_count() ==> final(self).spec_guard(i) == old(
                    self,
                ).spec_guard(i),
    {
        let mut region = self.regions[region_id as usize];
        region.state = RegionState::Evictable;
        self.regions.set(region_id as usize, region);
        proof {
            assert(old(self).state_queued_ok(region_id as int));
            assert(!self.evictable.queue().contains(region_id));
        }
        let admitted = self.evictable.insert(FifoHandle::new(region_id));
        proof {
            assert(admitted);
            assert forall|i: int| 0 <= i < self.spec_count() implies self.state_queued_ok(i) by {
                assert(old(self).state_queued_ok(i));
            }
            assert forall|j: int|
                0 <= j < self.evictable.queue().len() implies (#[trigger] self.evictable.queue()[j])
                < self.spec_count() by {
                assert(self.evictable.queue().contains(self.evictable.queue()[j]));
            }
        }
    }

    /// Takes the next region in eviction order for reclamation, `None` when
    /// none is evictable; the region becomes Reclaiming.
    pub fn eviction_pop(&mut self) -> (r: Option<u32>)
        requires
            old(self).wf(),
        ensures
            final(self).wf(),
            final(self).spec_count() == old(self).spec_count(),
            r is None <==> old(self).spec_evictable().len() == 0,
            r is None ==> {
                &&& final(self).spec_clean() == old(self).spec_clean()
                &&& final(self).spec_evictable() == old(self).spec_evictable()
                &&& forall|i: int|
                    0 <= i < old(self).spec_count() ==> final(self).spec_state(i) == old(
                        self,
                    ).spec_state(i)
                &&& forall|i: int|
                    0 <= i < old(self).spec_count() ==> final(self).spec_guard(i) == old(
                        self,
                    ).spec_guard(i)
            },
            r matches Some(id) ==> {
                &&& id < old(self).spec_count()
                &&& old(self).spec_state(id as int) is Evictable
                &&& final(self).spec_state(id as int) is Reclaiming
                &&& final(self).spec_clean() == old(self).spec_clean()
                &&& final(self).spec_evictable().to_multiset() == old(
                    self,
                ).spec_evictable().to_multiset().remove(id)
                &&& forall|i: int|
                    0 <= i < old(self).spec_count() && i != id ==> final(self).spec_state(i) == old(
                        self,
                    ).spec_state(i)
                &&& forall|i: int|
                    0 <= i < old(self).spec_count() ==> final(self).spec_guard(i) == old(
                        self,
                    ).spec_guard(i)
            },
    {
        match self.evictable.eviction_pop() {
            None => {
                proof {
                    assert forall|i: int|
                        0 <= i < self.spec_count() implies self.state_queued_ok(i) by {
                        assert(old(self).state_queued_ok(i));
                    }
                }
                None
            },
            Some(handle) => {
                let id = *handle.index();
                proof {
                    assert(old(self).evictable.queue().contains(id));
                    let j = choose|j: int|
                        0 <= j < old(self).evictable.queue().len() && old(
                            self,
                        ).evictable.queue()[j] == id;
                    assert(old(self).evictable.queue()[j] < old(self).spec_count());
                    assert(old(self).state_queued_ok(id as int));
                }
                let mut region = self.regions[id as usize];
                region.state = RegionState::Reclaiming;
                self.regions.set(id as usize, region);
                proof {
                    assert forall|i: int|
                        0 <= i < self.spec_count() implies self.state_queued_ok(i) by {
                        assert(old(self).state_queued_ok(i));
                    }
                    assert forall|j: int|
                        0 <= j < self.evictable.queue().len() implies (
                        #[trigger] self.evictable.queue()[j]) < self.spec_count() by {
                        assert(self.evictable.queue().contains(self.evictable.queue()[j]));
                    }
                }
                Some(id)
            },
        }
    }

    /// Returns a Reclaiming region to the back of the clean queue.
    pub fn release(&mut self, region_id: u32)
        requires
            old(self).wf(),
            region_id < old(self).spec_count(),
            old(self).spec_state(region_id as int) is Reclaiming,
        ensures
            final(self).wf(),
            final(self).spec_count() == old(self).spec_count(),
            final(self).spec_state(region_id as int) is Clean,
            final(self).spec_clean() == old(self).spec_clean().push(region_id),
            final(self).spec_evictable() == old(self).spec_evictable(),
            forall|i: int|
                0 <= i < old(self).spec_count() && i != region_id ==> final(self).spec_state(i)
                    == old(self).spec_state(i),
            forall|i: int|
                0 <= i < old(self).spec_count() ==> final(self).spec_guard(i) == old(
                    self,
                ).spec_guard(i),
    {
        let mut region = self.regions[region_id as usize];
        region.state = RegionState::Clean;
        self.regions.set(region_id as usize, region);
        self.clean.push(region_id);
        proof {
            assert forall|i: int| 0 <= i < self.spec_count() implies self.state_queued_ok(i) by {
                assert(old(self).state_queued_ok(i));
                if i == region_id {
                    assert(self.clean@[self.clean@.len() - 1] == region_id);
                } else {
                    if old(self).clean@.contains(i as u32) {
                        let j = choose|j: int|
                            0 <= j < old(self).clean@.len() && old(self).clean@[j] == i as u32;
                        assert(self.clean@[j] == i as u32);
                    }
                    if self.clean@.contains(i as u32) {
                        let j = choose|j: int|
                            0 <= j < self.clean@.len() && self.clean@[j] == i as u32;
                        assert(j < self.clean@.len() - 1);
                        assert(old(self).clean@[j] == i as u32);
                    }
                }
            }
            assert forall|j: int, l: int| 0 <= j < l < self.clean@.len() implies self.clean@[j]
                != self.clean@[l] by {
                if l == self.clean@.len() - 1 {
                    assert(self.clean@[j] == old(self).clean@[j]);
                    assert(old(self).clean@.contains(old(self).clean@[j]));
                    assert(old(self).state_queued_ok(old(self).clean@[j] as int));
                    assert(old(self).spec_state(old(self).clean@[j] as int) is Clean);
                }
            }
        }
    }

    /// Acquires a shared guard of the given kind on a region.
    pub fn guard_acquire(&mut self, region_id: u32, kind: GuardKind)
        requires
            old(self).wf(),
            region_id < old(self).spec_count(),
            match kind {
                GuardKind::Writer => old(self).spec_guard(region_id as int).writers < u64::MAX,
                GuardKind::BufferedReader => old(self).spec_guard(
                    region_id as int,
                ).buffered_readers < u64::MAX,
                GuardKind::PhysicalReader => old(self).spec_guard(
                    region_id as int,
                ).physical_readers < u64::MAX,
            },
        ensures
            final(self).wf(),
            final(self).spec_count() == old(self).spec_count(),
            final(self).spec_clean() == old(self).spec_clean(),
            final(self).spec_evictable() == old(self).spec_evictable(),
            forall|i: int|
                0 <= i < old(self).spec_count() ==> final(self).spec_state(i) == old(
                    self,
                ).spec_state(i),
            forall|i: int|
                0 <= i < old(self).spec_count() && i != region_id ==> final(self).spec_guard(i)
                    == old(self).spec_guard(i),
            final(self).spec_guard(region_id as int) == match kind {
                GuardKind::Writer => RegionGuard {
                    writers: (old(self).spec_guard(region_id as int).writers + 1) as u64,
                    ..old(self).spec_guard(region_id as int)
                },
                GuardKind::BufferedReader => RegionGuard {
                    buffered_readers: (old(self).spec_guard(region_id as int).buffered_readers
                        + 1) as u64,
                    ..old(self).spec_guard(region_id as int)
                },
                GuardKind::PhysicalReader => RegionGuard {
                    physical_readers: (old(self).spec_guard(region_id as int).physical_readers
                        + 1) as u64,
                    ..old(self).spec_guard(region_id as int)
                },
            },
    {
        let mut region = self.regions[region_id as usize];
        match kind {
            GuardKind::Writer => {
                region.guard.writers = region.guard.writers + 1;
            },
            GuardKind::BufferedReader => {
                region.guard.buffered_readers = region.guard.buffered_readers + 1;
            },
            GuardKind::PhysicalReader => {
                region.guard.physical_readers = region.guard.physical_readers + 1;
            },
        }
        self.regions.set(region_id as usize, region);
        proof {
            assert forall|i: int| 0 <= i < self.spec_count() implies self.state_queued_ok(i) by {
                assert(old(self).state_queued_ok(i));
            }
        }
    }

    /// Releases a shared guard of the given kind on a region.
    pub fn guard_release(&mut self, region_id: u32, kind: GuardKind)
        requires
            old(self).wf(),
            region_id < old(self).spec_count(),
            match kind {
                GuardKind::Writer => old(self).spec_guard(region_id as int).writers > 0,
                GuardKind::BufferedReader => old(self).spec_guard(
                    region_id as int,
                ).buffered_readers > 0,
                GuardKind::PhysicalReader => old(self).spec_guard(
                    region_id as int,
                ).physical_readers > 0,
            },
        ensures
            final(self).wf(),
            final(self).spec_count() == old(self).spec_count(),
            final(self).spec_clean() == old(self).spec_clean(),
            final(self).spec_evictable() == old(self).spec_evictable(),
            forall|i: int|
                0 <= i < old(self).spec_count() ==> final(self).spec_state(i) == old(
                    self,
                ).spec_state(i),
            forall|i: int|
                0 <= i < old(self).spec_count() && i != region_id ==> final(self).spec_guard(i)
                    == old(self).spec_guard(i),
            final(self).spec_guard(region_id as int) == match kind {
                GuardKind::Writer => RegionGuard {
                    writers: (old(self).spec_guard(region_id as int).writers - 1) as u64,
                    ..old(self).spec_guard(region_id as int)
                },
                GuardKind::BufferedReader => RegionGuard {
                    buffered_readers: (old(self).spec_guard(region_id as int).buffered_readers
                        - 1) as u64,
                    ..old(self).spec_guard(region_id as int)
                },
                GuardKind::PhysicalReader => RegionGuard {
                    physical_readers: (old(self).spec_guard(region_id as int).physical_readers
                        - 1) as u64,
                    ..old(self).spec_guard(region_id as int)
                },
            },
    {
        let mut region = self.regions[region_id as usize];
        match kind {
            GuardKind::Writer => {
                region.guard.writers = region.guard.writers - 1;
            },
            GuardKind::BufferedReader => {
                region.guard.buffered_readers = region.guard.buffered_readers - 1;
            },
            GuardKind::PhysicalReader => {
                region.guard.physical_readers = region.guard.physical_readers - 1;
            },
        }
        self.regions.set(region_id as usize, region);
        proof {
            assert forall|i: int| 0 <= i < self.spec_count() implies self.state_queued_ok(i) by {
                assert(old(self).state_queued_ok(i));
            }
        }
    }

    /// The reclaimer's exclusive fence: succeeds exactly when every selected
    /// counter is zero, proving all selected in-flight activity has drained.
    pub fn try_exclusive(
        &self,
        region_id: u32,
        wait_writers: bool,
        wait_buffered: bool,
        wait_physical: bool,
    ) -> (r: bool)
        requires
            self.wf(),
            region_id < self.spec_count(),
        ensures
            r == {
                &&& (wait_writers ==> self.spec_guard(region_id as int).writers == 0)
                &&& (wait_buffered ==> self.spec_guard(region_id as int).buffered_readers == 0)
                &&& (wait_physical ==> self.spec_guard(region_id as int).physical_readers == 0)
            },
    {
        let guard = self.regions[region_id as usize].guard;
        (!wait_writers || guard.writers == 0) && (!wait_buffered || guard.buffered_readers == 0)
            && (!wait_physical || guard.physical_readers == 0)
    }
}

} // verus!
