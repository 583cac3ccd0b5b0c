//! A table of pools that is checked when it is built.
use vstd::prelude::*;
use crate::heap::allocator::{heap_wf, states, Allocator};
use crate::heap::model::ordered;
use crate::heap::pool::Pool;

verus! {

/// A heap of `N` pools.
///
/// The order of the pools is checked once, when the heap is built, and kept
/// by every operation of the allocator.
pub struct Heap<const N: usize> {
    pools: Vec<Pool>,
}

impl<const N: usize> Heap<N> {
    /// Builds a heap from `N` pools in order: block sizes strictly increase
    /// and each region ends where or before the next one starts. Any other
    /// pools are refused.
    pub fn new(pools: Vec<Pool>) -> (heap: Option<Heap<N>>)
        requires
            forall|i: int| 0 <= i < pools.len() ==> (#[trigger] pools@[i]).wf(),
        ensures
            heap.is_some() <==> pools.len() == N && ordered(states(pools@)),
            heap matches Some(h) ==> h.pools() == pools@ && heap_wf(&h),
    {
        if pools.len() != N {
            return None;
        }
        let ghost t = states(pools@);
        let mut i: usize = 1;
        while i < pools.len()
            invariant
                1 <= i,
                t == states(pools@),
                forall|k: int| 0 <= k < pools.len() ==> (#[trigger] pools@[k]).wf(),
                forall|a: int, b: int|
                    0 <= a < b < i && b < t.len() ==> (#[trigger] t[a]).block_size < (
                    #[trigger] t[b]).block_size && t[a].edge() <= t[b].base,
            decreases pools.len() - i,
        {
            let before = &pools[i - 1];
            let pool = &pools[i];
            if before.size() >= pool.size() || before.edge() > pool.address() {
                assert(!(t[i - 1].block_size < t[i as int].block_size && t[i - 1].edge()
                    <= t[i as int].base));
                return None;
            }
            proof {
                assert forall|a: int, b: int| 0 <= a < b < i + 1 && b < t.len() implies (
                #[trigger] t[a]).block_size < (#[trigger] t[b]).block_size && t[a].edge()
                    <= t[b].base by {
                    if b == i && a < i - 1 {
                        assert(t[a].block_size < t[i - 1].block_size);
                        pools@[i - 1].lemma_wf();
                        t[i - 1].lemma_edge();
                    }
                }
            }
            i = i + 1;
        }
        Some(Heap { pools })
    }
}

impl<const N: usize> Allocator for Heap<N> {
    const POOL_COUNT: usize = N;

    closed spec fn pools(&self) -> Seq<Pool> {
        self.pools@
    }

    fn get_pool_unchecked(&self, index: usize) -> (pool: &Pool) {
        &self.pools[index]
    }

    fn get_pool_unchecked_mut(&mut self, index: usize) -> (pool: &mut Pool) {
        &mut self.pools[index]
    }
}

} // verus!
