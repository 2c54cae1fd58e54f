//! Eviction order policies.
//!
//! An eviction policy only decides the order in which registered members
//! leave; it stores neither the cached entries nor their sizes. The region
//! manager registers sealed regions with a policy and asks it which region
//! to reclaim next. Contracts are stated over the policy's `queue`: the
//! sequence of currently registered indices, which a policy may reorder but
//! never duplicate.

use vstd::prelude::*;

verus! {

/// Construction parameters of an eviction policy.
pub trait Config: Sized {

}

/// A registered member of an eviction policy, wrapping its index.
pub trait Handle: Sized {
    /// The index type the policy orders.
    type I;

    /// The index this handle wraps.
    spec fn spec_index(&self) -> Self::I;

    /// Wraps an index.
    fn new(index: Self::I) -> (r: Self)
        ensures
            r.spec_index() == index,
    ;

    /// The wrapped index.
    fn index(&self) -> (r: &Self::I)
        ensures
            *r == self.spec_index(),
    ;
}

/// An eviction order over indices.
///
/// `queue` lists the registered indices, first to leave first. Insertion
/// position and reordering on access are policy-specific; the contracts
/// promise only membership, so orders from FIFO to LRU fit them.
pub trait Policy: Sized {
    /// The index type this policy orders.
    type I;

    /// Construction parameters.
    type C: Config;

    /// The handle type wrapping an index.
    type H: Handle<I = Self::I>;

    /// The registered indices, in eviction order.
    spec fn queue(&self) -> Seq<Self::I>;

    /// No index is registered twice.
    open spec fn wf(&self) -> bool {
        forall|i: int, j: int|
            0 <= i < j < self.queue().len() ==> self.queue()[i] != self.queue()[j]
    }

    /// An empty policy.
    fn new(config: Self::C) -> (r: Self)
        ensures
            r.wf(),
            r.queue() == Seq::<Self::I>::empty(),
    ;

    /// Registers a member; refuses an index that is already present.
    fn insert(&mut self, handle: Self::H) -> (r: bool)
        requires
            old(self).wf(),
        ensures
            final(self).wf(),
            r == !old(self).queue().contains(handle.spec_index()),
            r ==> final(self).queue().to_multiset() == old(self).queue().to_multiset().insert(
                handle.spec_index(),
            ),
            !r ==> final(self).queue() == old(self).queue(),
            forall|y: Self::I|
                final(self).queue().contains(y) <==> (old(self).queue().contains(y) || y
                    == handle.spec_index()),
    ;

    /// Deregisters a member; reports whether it was present.
    fn remove(&mut self, handle: &Self::H) -> (r: bool)
        requires
            old(self).wf(),
        ensures
            final(self).wf(),
            r == old(self).queue().contains(handle.spec_index()),
            r ==> final(self).queue().to_multiset() == old(self).queue().to_multiset().remove(
                handle.spec_index(),
            ),
            !r ==> final(self).queue() == old(self).queue(),
            forall|y: Self::I|
                final(self).queue().contains(y) <==> (old(self).queue().contains(y) && y
                    != handle.spec_index()),
    ;

    /// Records an access; the policy may reorder but not change membership.
    fn access(&mut self, handle: &Self::H) -> (r: bool)
        requires
            old(self).wf(),
        ensures
            final(self).wf(),
            r == old(self).queue().contains(handle.spec_index()),
            final(self).queue().to_multiset() == old(self).queue().to_multiset(),
    ;

    /// Takes the next member to evict, `None` when none is registered.
    fn eviction_pop(&mut self) -> (r: Option<Self::H>)
        requires
            old(self).wf(),
        ensures
            final(self).wf(),
            r is None <==> old(self).queue().len() == 0,
            r is None ==> final(self).queue() == old(self).queue(),
            r matches Some(h) ==> {
                &&& old(self).queue().contains(h.spec_index())
                &&& final(self).queue().to_multiset() == old(self).queue().to_multiset().remove(
                    h.spec_index(),
                )
                &&& forall|y: Self::I|
                    final(self).queue().contains(y) <==> (old(self).queue().contains(y) && y
                        != h.spec_index())
            },
    ;
}

/// Configuration of the FIFO policy: it has no parameters.
pub struct FifoConfig {

}

impl Config for FifoConfig {

}

/// A FIFO policy member.
pub struct FifoHandle {
    /// The wrapped region index.
    pub index: u32,
}

impl Handle for FifoHandle {
    type I = u32;

    open spec fn spec_index(&self) -> u32 {
        self.index
    }

    fn new(index: u32) -> (r: Self) {
        FifoHandle { index }
    }

    fn index(&self) -> (r: &u32) {
        &self.index
    }
}

/// First-in, first-out eviction: members leave in registration order.
pub struct FifoPolicy {
    queue: Vec<u32>,
}

impl FifoPolicy {
    /// Number of registered members.
    pub fn queue_len(&self) -> (n: usize)
        ensures
            n == Policy::queue(self).len(),
    {
        self.queue.len()
    }

    fn position(&self, index: u32) -> (r: Option<usize>)
        ensures
            match r {
                Some(i) => i < self.queue@.len() && self.queue@[i as int] == index,
                None => !self.queue@.contains(index),
            },
    {
        let n = self.queue.len();
        let mut i: usize = 0;
        while i < n
            invariant
                i <= n,
                n == self.queue@.len(),
                forall|j: int| 0 <= j < i ==> self.queue@[j] != index,
            decreases n - i,
        {
            if self.queue[i] == index {
                return Some(i);
            }
            i = i + 1;
        }
        None
    }
}

impl Policy for FifoPolicy {
    type I = u32;

    type C = FifoConfig;

    type H = FifoHandle;

    closed spec fn queue(&self) -> Seq<u32> {
        self.queue@
    }

    fn new(config: FifoConfig) -> (r: Self) {
        FifoPolicy { queue: Vec::new() }
    }

    fn insert(&mut self, handle: FifoHandle) -> (r: bool) {
        match self.position(handle.index) {
            Some(_) => false,
            None => {
                let ghost pre = self.queue@;
                self.queue.push(handle.index);
                proof {
                    vstd::seq_lib::to_multiset_build(pre, handle.index);
                    lemma_push_membership(pre, handle.index);
                    assert(self.queue@.to_multiset() == pre.to_multiset().insert(handle.index));
                    assert forall|i: int, j: int|
                        0 <= i < j < self.queue().len() implies self.queue()[i]
                        != self.queue()[j] by {
                        if j == self.queue().len() - 1 {
                            if pre[i] == handle.index {
                                assert(pre.contains(handle.index));
                            }
                        } else {
                            assert(old(self).queue()[i] != old(self).queue()[j]);
                        }
                    }
                }
                true
            },
        }
    }

    fn remove(&mut self, handle: &FifoHandle) -> (r: bool) {
        match self.position(handle.index) {
            Some(i) => {
                let ghost pre = self.queue@;
                self.queue.remove(i);
                proof {
                    vstd::seq_lib::to_multiset_remove(pre, i as int);
                    assert forall|a: int, b: int|
                        0 <= a < b < pre.len() implies pre[a] != pre[b] by {
                        assert(old(self).queue()[a] != old(self).queue()[b]);
                    }
                    lemma_remove_membership(pre, i as int);
                    assert(pre.contains(handle.index));
                    assert forall|a: int, b: int|
                        0 <= a < b < self.queue().len() implies self.queue()[a]
                        != self.queue()[b] by {
                        lemma_remove_index_maps(pre, i as int, a);
                        lemma_remove_index_maps(pre, i as int, b);
                        let pa = if a < i as int { a } else { a + 1 };
                        let pb = if b < i as int { b } else { b + 1 };
                        assert(old(self).queue()[pa] != old(self).queue()[pb]);
                    }
                }
                true
            },
            None => false,
        }
    }

    fn access(&mut self, handle: &FifoHandle) -> (r: bool) {
        // FIFO ignores recency; membership alone is reported.
        match self.position(handle.index) {
            Some(_) => {
                proof {
                    assert(self.queue@.contains(handle.index));
                }
                true
            },
            None => false,
        }
    }

    fn eviction_pop(&mut self) -> (r: Option<FifoHandle>) {
        if self.queue.len() == 0 {
            return None;
        }
        let ghost pre = self.queue@;
        let index = self.queue.remove(0);
        proof {
            vstd::seq_lib::to_multiset_remove(pre, 0);
            assert forall|a: int, b: int|
                0 <= a < b < pre.len() implies pre[a] != pre[b] by {
                assert(old(self).queue()[a] != old(self).queue()[b]);
            }
            lemma_remove_membership(pre, 0);
            assert(pre.contains(index));
            assert forall|a: int, b: int|
                0 <= a < b < self.queue().len() implies self.queue()[a] != self.queue()[b] by {
                lemma_remove_index_maps(pre, 0, a);
                lemma_remove_index_maps(pre, 0, b);
                assert(old(self).queue()[a + 1] != old(self).queue()[b + 1]);
            }
        }
        Some(FifoHandle { index })
    }
}

proof fn lemma_push_membership(pre: Seq<u32>, x: u32)
    ensures
        forall|y: u32| pre.push(x).contains(y) <==> (pre.contains(y) || y == x),
{
    assert forall|y: u32| pre.push(x).contains(y) implies (pre.contains(y) || y == x) by {
        let k = choose|k: int| 0 <= k < pre.push(x).len() && pre.push(x)[k] == y;
        if k < pre.len() {
            assert(pre[k] == y);
        }
    }
    assert forall|y: u32| pre.contains(y) || y == x implies pre.push(x).contains(y) by {
        if pre.contains(y) {
            let k = choose|k: int| 0 <= k < pre.len() && pre[k] == y;
            assert(pre.push(x)[k] == y);
        } else {
            assert(pre.push(x)[pre.len() as int] == y);
        }
    }
}

proof fn lemma_remove_membership(pre: Seq<u32>, i: int)
    requires
        0 <= i < pre.len(),
        forall|a: int, b: int| 0 <= a < b < pre.len() ==> pre[a] != pre[b],
    ensures
        forall|y: u32| pre.remove(i).contains(y) <==> (pre.contains(y) && y != pre[i]),
{
    let x = pre[i];
    assert forall|y: u32| pre.remove(i).contains(y) implies (pre.contains(y) && y != x) by {
        let k = choose|k: int| 0 <= k < pre.remove(i).len() && pre.remove(i)[k] == y;
        lemma_remove_index_maps(pre, i, k);
        let pa = if k < i {
            k
        } else {
            k + 1
        };
        assert(pre[pa] == y);
        assert(pa != i);
        if pa < i {
            assert(pre[pa] != pre[i]);
        } else {
            assert(pre[i] != pre[pa]);
        }
    }
    assert forall|y: u32| pre.contains(y) && y != x implies pre.remove(i).contains(y) by {
        let k = choose|k: int| 0 <= k < pre.len() && pre[k] == y;
        assert(k != i);
        let na = if k < i {
            k
        } else {
            k - 1
        };
        lemma_remove_index_maps(pre, i, na);
        assert(pre.remove(i)[na] == y);
    }
}

/// After removing index `i`, every surviving position maps to an original one.
proof fn lemma_remove_index_maps(s: Seq<u32>, i: int, a: int)
    requires
        0 <= i < s.len(),
        0 <= a < s.len() - 1,
    ensures
        s.remove(i)[a] == if a < i {
            s[a]
        } else {
            s[a + 1]
        },
{
}

} // verus!
