//! The catalog: the map from live keys to on-disk locations.
//!
//! A catalog entry records the region, the offset and length of the encoded
//! entry inside it, and the insert sequence. Inserts commit only when their
//! sequence is newer than the entry they would replace, so a later insert
//! supersedes an earlier one for the same key even when their flushes
//! complete out of order.
//!
//! The catalog is modelled as an association list with unique keys and is
//! viewed as a `Map<u64, CatalogEntry>`; a concurrent deployment shards the
//! same map by key hash behind per-shard locks.

use vstd::prelude::*;

verus! {

/// The on-disk location and sequence of one live key.
#[derive(Clone, Copy, Debug, PartialEq, Eq, PartialOrd, Ord, Structural)]
pub struct CatalogEntry {
    /// Region holding the entry.
    pub region_id: u32,
    /// Byte offset of the entry within its region.
    pub offset: usize,
    /// Encoded length of the entry (header, key and value bytes).
    pub len: usize,
    /// Monotonic insert sequence.
    pub sequence: u64,
}

/// What an insert does to the catalog's map: it commits only when the key is
/// new or the existing entry has an older sequence.
pub open spec fn spec_catalog_insert(
    m: Map<u64, CatalogEntry>,
    key: u64,
    entry: CatalogEntry,
) -> Map<u64, CatalogEntry> {
    if m.contains_key(key) && m[key].sequence >= entry.sequence {
        m
    } else {
        m.insert(key, entry)
    }
}

/// Sequence monotonicity: when two entries for one key carry sequences newer
/// than anything the catalog holds for that key, the one with the higher
/// sequence wins, whichever order the two commits arrive in.
pub proof fn lemma_sequence_monotonic(
    m: Map<u64, CatalogEntry>,
    key: u64,
    e1: CatalogEntry,
    e2: CatalogEntry,
)
    requires
        e1.sequence < e2.sequence,
        m.contains_key(key) ==> m[key].sequence < e1.sequence,
    ensures
        spec_catalog_insert(spec_catalog_insert(m, key, e1), key, e2)[key] == e2,
        spec_catalog_insert(spec_catalog_insert(m, key, e2), key, e1)[key] == e2,
        spec_catalog_insert(spec_catalog_insert(m, key, e1), key, e2)
            == spec_catalog_insert(spec_catalog_insert(m, key, e2), key, e1),
{
    assert(spec_catalog_insert(spec_catalog_insert(m, key, e1), key, e2) =~= spec_catalog_insert(
        spec_catalog_insert(m, key, e2),
        key,
        e1,
    ));
}

/// The map described by an association list: later pairs shadow earlier ones.
pub open spec fn assoc_map(s: Seq<(u64, CatalogEntry)>) -> Map<u64, CatalogEntry>
    decreases s.len(),
{
    if s.len() == 0 {
        Map::empty()
    } else {
        assoc_map(s.drop_last()).insert(s.last().0, s.last().1)
    }
}

/// No two pairs of `s` share a key.
pub open spec fn keys_unique(s: Seq<(u64, CatalogEntry)>) -> bool {
    forall|i: int, j: int| 0 <= i < j < s.len() ==> s[i].0 != s[j].0
}

proof fn lemma_assoc_contains(s: Seq<(u64, CatalogEntry)>, key: u64)
    ensures
        assoc_map(s).contains_key(key) <==> exists|i: int| 0 <= i < s.len() && s[i].0 == key,
    decreases s.len(),
{
    if s.len() > 0 {
        lemma_assoc_contains(s.drop_last(), key);
        if assoc_map(s).contains_key(key) {
            if s.last().0 == key {
                assert(s[s.len() - 1].0 == key);
            } else {
                let i = choose|i: int| 0 <= i < s.drop_last().len() && s.drop_last()[i].0 == key;
                assert(s[i].0 == key);
            }
        }
        if exists|i: int| 0 <= i < s.len() && s[i].0 == key {
            let i = choose|i: int| 0 <= i < s.len() && s[i].0 == key;
            if i < s.len() - 1 {
                assert(s.drop_last()[i].0 == key);
            }
        }
    }
}

proof fn lemma_assoc_value(s: Seq<(u64, CatalogEntry)>, i: int)
    requires
        keys_unique(s),
        0 <= i < s.len(),
    ensures
        assoc_map(s).contains_key(s[i].0),
        assoc_map(s)[s[i].0] == s[i].1,
    decreases s.len(),
{
    if i < s.len() - 1 {
        assert(s.drop_last()[i] == s[i]);
        lemma_assoc_value(s.drop_last(), i);
    }
}

proof fn lemma_assoc_update(s: Seq<(u64, CatalogEntry)>, i: int, entry: CatalogEntry)
    requires
        keys_unique(s),
        0 <= i < s.len(),
    ensures
        assoc_map(s.update(i, (s[i].0, entry))) == assoc_map(s).insert(s[i].0, entry),
    decreases s.len(),
{
    let key = s[i].0;
    let t = s.update(i, (key, entry));
    if i == s.len() - 1 {
        assert(t.drop_last() =~= s.drop_last());
        assert(assoc_map(t) =~= assoc_map(s).insert(key, entry));
    } else {
        assert(t.drop_last() =~= s.drop_last().update(i, (key, entry)));
        assert(s.drop_last()[i] == s[i]);
        lemma_assoc_update(s.drop_last(), i, entry);
        assert(t.last() == s.last());
        assert(assoc_map(t) =~= assoc_map(s).insert(key, entry));
    }
}

proof fn lemma_assoc_remove(s: Seq<(u64, CatalogEntry)>, i: int)
    requires
        keys_unique(s),
        0 <= i < s.len(),
    ensures
        assoc_map(s.remove(i)) == assoc_map(s).remove(s[i].0),
    decreases s.len(),
{
    let key = s[i].0;
    if i == s.len() - 1 {
        assert(s.remove(i) =~= s.drop_last());
        lemma_assoc_contains(s.drop_last(), key);
        assert(assoc_map(s.remove(i)) =~= assoc_map(s).remove(key));
    } else {
        assert(s.remove(i).drop_last() =~= s.drop_last().remove(i));
        assert(s.drop_last()[i] == s[i]);
        lemma_assoc_remove(s.drop_last(), i);
        assert(s.remove(i).last() == s.last());
        assert(assoc_map(s.remove(i)) =~= assoc_map(s).remove(key));
    }
}

/// The key-to-location map of the store.
pub struct Catalog {
    entries: Vec<(u64, CatalogEntry)>,
}

impl Catalog {
    /// The map this catalog holds.
    pub closed spec fn view(&self) -> Map<u64, CatalogEntry> {
        assoc_map(self.entries@)
    }

    /// Structural invariant: one entry per key.
    pub closed spec fn wf(&self) -> bool {
        keys_unique(self.entries@)
    }

    /// An empty catalog.
    pub fn new() -> (r: Catalog)
        ensures
            r.wf(),
            r@ == Map::<u64, CatalogEntry>::empty(),
    {
        Catalog { entries: Vec::new() }
    }

    /// Number of live keys.
    pub fn len(&self) -> (n: usize)
        requires
            self.wf(),
        ensures
            n == self@.dom().len(),
    {
        proof {
            self.lemma_dom_len();
        }
        self.entries.len()
    }

    proof fn lemma_dom_len(&self)
        requires
            self.wf(),
        ensures
            self@.dom().len() == self.entries@.len(),
    {
        lemma_assoc_dom_len(self.entries@);
    }

    fn position(&self, key: u64) -> (r: Option<usize>)
        ensures
            match r {
                Some(i) => i < self.entries@.len() && self.entries@[i as int].0 == key,
                None => forall|i: int| 0 <= i < self.entries@.len() ==> self.entries@[i].0 != key,
            },
    {
        let n = self.entries.len();
        let mut i: usize = 0;
        while i < n
            invariant
                i <= n,
                n == self.entries@.len(),
                forall|j: int| 0 <= j < i ==> self.entries@[j].0 != key,
            decreases n - i,
        {
            if self.entries[i].0 == key {
                return Some(i);
            }
            i = i + 1;
        }
        None
    }

    /// Publishes `entry` for `key`. The insert commits only when the key is
    /// new or its current entry carries an older sequence; a committed
    /// replacement returns the displaced entry.
    pub fn insert(&mut self, key: u64, entry: CatalogEntry) -> (r: Option<CatalogEntry>)
        requires
            old(self).wf(),
        ensures
            final(self).wf(),
            final(self)@ == spec_catalog_insert(old(self)@, key, entry),
            r == if old(self)@.contains_key(key) && old(self)@[key].sequence < entry.sequence {
                Some(old(self)@[key])
            } else {
                None::<CatalogEntry>
            },
            old(self)@.contains_key(key) ==> final(self)@.contains_key(key),
            !old(self)@.contains_key(key) ==> final(self)@ == old(self)@.insert(key, entry),
    {
        match self.position(key) {
            Some(i) => {
                proof {
                    lemma_assoc_value(self.entries@, i as int);
                }
                let prior = self.entries[i].1;
                if prior.sequence < entry.sequence {
                    proof {
                        lemma_assoc_update(self.entries@, i as int, entry);
                    }
                    self.entries.set(i, (key, entry));
                    Some(prior)
                } else {
                    None
                }
            },
            None => {
                proof {
                    lemma_assoc_contains(self.entries@, key);
                    assert(self.entries@.push((key, entry)).drop_last() =~= self.entries@);
                }
                self.entries.push((key, entry));
                None
            },
        }
    }

    /// Looks the key up.
    pub fn lookup(&self, key: u64) -> (r: Option<CatalogEntry>)
        requires
            self.wf(),
        ensures
            r == if self@.contains_key(key) {
                Some(self@[key])
            } else {
                None::<CatalogEntry>
            },
    {
        match self.position(key) {
            Some(i) => {
                proof {
                    lemma_assoc_value(self.entries@, i as int);
                }
                Some(self.entries[i].1)
            },
            None => {
                proof {
                    lemma_assoc_contains(self.entries@, key);
                }
                None
            },
        }
    }

    /// Removes the key, returning its entry when it was live.
    pub fn remove(&mut self, key: u64) -> (r: Option<CatalogEntry>)
        requires
            old(self).wf(),
        ensures
            final(self).wf(),
            final(self)@ == old(self)@.remove(key),
            r == if old(self)@.contains_key(key) {
                Some(old(self)@[key])
            } else {
                None::<CatalogEntry>
            },
    {
        match self.position(key) {
            Some(i) => {
                proof {
                    lemma_assoc_value(self.entries@, i as int);
                    lemma_assoc_remove(self.entries@, i as int);
                }
                let pair = self.entries.remove(i);
                Some(pair.1)
            },
            None => {
                proof {
                    lemma_assoc_contains(self.entries@, key);
                    assert(assoc_map(self.entries@) =~= assoc_map(self.entries@).remove(key));
                }
                None
            },
        }
    }

    /// Atomically removes and returns every entry pointing into `region_id`.
    ///
    /// Afterwards no live key references the region; the returned pairs are
    /// exactly the references that were dropped.
    pub fn take_region(&mut self, region_id: u32) -> (taken: Vec<(u64, CatalogEntry)>)
        requires
            old(self).wf(),
        ensures
            final(self).wf(),
            forall|key: u64|
                final(self)@.contains_key(key) <==> (old(self)@.contains_key(key) && old(
                    self,
                )@[key].region_id != region_id),
            forall|key: u64|
                final(self)@.contains_key(key) ==> final(self)@[key] == old(self)@[key],
            forall|j: int|
                0 <= j < taken@.len() ==> {
                    &&& (#[trigger] taken@[j]).1.region_id == region_id
                    &&& old(self)@.contains_key(taken@[j].0)
                    &&& old(self)@[taken@[j].0] == taken@[j].1
                },
            forall|key: u64|
                old(self)@.contains_key(key) && old(self)@[key].region_id == region_id
                    ==> exists|j: int| 0 <= j < taken@.len() && (#[trigger] taken@[j]).0 == key,
    {
        let mut taken: Vec<(u64, CatalogEntry)> = Vec::new();
        loop
            invariant
                self.wf(),
                forall|key: u64|
                    #[trigger] self@.contains_key(key) ==> old(self)@.contains_key(key) && self@[key]
                        == old(self)@[key],
                forall|key: u64|
                    old(self)@.contains_key(key) && old(self)@[key].region_id != region_id
                        ==> #[trigger] self@.contains_key(key),
                forall|key: u64|
                    old(self)@.contains_key(key) && !(#[trigger] self@.contains_key(key))
                        ==> exists|j: int| 0 <= j < taken@.len() && (#[trigger] taken@[j]).0 == key,
                forall|j: int|
                    0 <= j < taken@.len() ==> {
                        &&& (#[trigger] taken@[j]).1.region_id == region_id
                        &&& old(self)@.contains_key(taken@[j].0)
                        &&& old(self)@[taken@[j].0] == taken@[j].1
                        &&& !self@.contains_key(taken@[j].0)
                    },
            ensures
                self.wf(),
                forall|key: u64|
                    #[trigger] self@.contains_key(key) ==> old(self)@.contains_key(key) && self@[key]
                        == old(self)@[key] && self@[key].region_id != region_id,
                forall|key: u64|
                    old(self)@.contains_key(key) && old(self)@[key].region_id != region_id
                        ==> #[trigger] self@.contains_key(key),
                forall|key: u64|
                    old(self)@.contains_key(key) && !(#[trigger] self@.contains_key(key))
                        ==> exists|j: int| 0 <= j < taken@.len() && (#[trigger] taken@[j]).0 == key,
                forall|j: int|
                    0 <= j < taken@.len() ==> {
                        &&& (#[trigger] taken@[j]).1.region_id == region_id
                        &&& old(self)@.contains_key(taken@[j].0)
                        &&& old(self)@[taken@[j].0] == taken@[j].1
                    },
            decreases self.entries@.len(),
        {
            match self.position_region(region_id) {
                Some(i) => {
                    let ghost pre = *self;
                    proof {
                        lemma_assoc_value(self.entries@, i as int);
                        lemma_assoc_remove(self.entries@, i as int);
                    }
                    let pair = self.entries.remove(i);
                    proof {
                        assert(self@ == pre@.remove(pair.0));
                        assert(pre@[pair.0].region_id == region_id);
                        assert(pre@[pair.0] == old(self)@[pair.0]);
                    }
                    let ghost taken_pre = taken@;
                    taken.push(pair);
                    proof {
                        assert(forall|j: int|
                            0 <= j < taken_pre.len() ==> #[trigger] taken@[j] == taken_pre[j]);
                        assert(taken@[taken_pre.len() as int] == pair);
                        assert forall|key: u64|
                            old(self)@.contains_key(key) && !(#[trigger] self@.contains_key(key))
                            implies exists|j: int|
                                0 <= j < taken@.len() && (#[trigger] taken@[j]).0 == key by {
                            if key == pair.0 {
                                assert(taken@[taken_pre.len() as int].0 == key);
                            } else {
                                assert(!pre@.contains_key(key));
                                let j = choose|j: int|
                                    0 <= j < taken_pre.len() && (#[trigger] taken_pre[j]).0 == key;
                                assert(taken@[j].0 == key);
                            }
                        }
                    }
                },
                None => {
                    proof {
                        assert forall|key: u64| #[trigger] self@.contains_key(key) implies self@[key].region_id
                            != region_id by {
                            lemma_assoc_contains(self.entries@, key);
                            let i = choose|i: int|
                                0 <= i < self.entries@.len() && self.entries@[i].0 == key;
                            lemma_assoc_value(self.entries@, i);
                        }
                    }
                    break;
                },
            }
        }
        proof {
            assert forall|key: u64|
                old(self)@.contains_key(key) && old(self)@[key].region_id == region_id
                implies exists|j: int|
                    0 <= j < taken@.len() && (#[trigger] taken@[j]).0 == key by {
                assert(!self@.contains_key(key));
            }
        }
        taken
    }

    fn position_region(&self, region_id: u32) -> (r: Option<usize>)
        ensures
            match r {
                Some(i) => i < self.entries@.len() && self.entries@[i as int].1.region_id
                    == region_id,
                None => forall|i: int|
                    0 <= i < self.entries@.len() ==> (#[trigger] self.entries@[i]).1.region_id
                        != region_id,
            },
    {
        let n = self.entries.len();
        let mut i: usize = 0;
        while i < n
            invariant
                i <= n,
                n == self.entries@.len(),
                forall|j: int|
                    0 <= j < i ==> (#[trigger] self.entries@[j]).1.region_id != region_id,
            decreases n - i,
        {
            if self.entries[i].1.region_id == region_id {
                return Some(i);
            }
            i = i + 1;
        }
        None
    }
}

proof fn lemma_assoc_dom_len(s: Seq<(u64, CatalogEntry)>)
    requires
        keys_unique(s),
    ensures
        assoc_map(s).dom().len() == s.len(),
        assoc_map(s).dom().finite(),
    decreases s.len(),
{
    if s.len() == 0 {
    } else {
        lemma_assoc_dom_len(s.drop_last());
        lemma_assoc_contains(s.drop_last(), s.last().0);
        assert(!assoc_map(s.drop_last()).contains_key(s.last().0));
        vstd::set::axiom_set_insert_len(assoc_map(s.drop_last()).dom(), s.last().0);
        assert(assoc_map(s).dom() =~= assoc_map(s.drop_last()).dom().insert(s.last().0));
    }
}

} // verus!
