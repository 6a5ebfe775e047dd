//! Free-index stacks: the allocator behind the brick pool and the layer pool.
//!
//! A pool of `n` nodes hands out the one-based indices `1..=n`; index 0 is
//! reserved for "absent". The stack holds the indices that are free, and its
//! counter is the number of them.

use vstd::prelude::*;
use vstd::set_lib::*;

verus! {

/// The stack of free indices of one pool, with the counter that marks its top.
pub struct FreeStack {
    slots: Vec<u32>,
    counter: u32,
}

/// The indices `1..=n` as a set.
pub open spec fn index_range(n: nat) -> Set<u32> {
    Set::new(|v: u32| 1 <= v <= n)
}

/// The values of `s` are distinct indices of a pool of `n` nodes.
pub open spec fn distinct_indices(s: Seq<u32>, n: nat) -> bool {
    &&& s.no_duplicates()
    &&& forall|i: int| 0 <= i < s.len() ==> 1 <= #[trigger] s[i] <= n
}

/// A pool of `n < 2^32 - 1` nodes has exactly `n` indices.
pub proof fn lemma_index_range_len(n: nat)
    requires
        n < u32::MAX,
    ensures
        index_range(n).finite(),
        index_range(n).len() == n,
{
    range_set_properties::<u32>(1u32, (n + 1) as u32);
    assert(index_range(n) =~= u32::range_set(1u32, (n + 1) as u32));
}

/// Distinct indices of a pool of `n` nodes number at most `n`, and fewer
/// when some index of the pool is not among them.
pub proof fn lemma_distinct_indices_len(s: Seq<u32>, n: nat, missing: u32)
    requires
        n < u32::MAX,
        distinct_indices(s, n),
    ensures
        s.len() <= n,
        (1 <= missing <= n && !s.contains(missing)) ==> s.len() < n,
{
    lemma_index_range_len(n);
    s.unique_seq_to_set();
    assert(s.to_set().subset_of(index_range(n))) by {
        assert forall|v: u32| s.to_set().contains(v) implies index_range(n).contains(v) by {
            let i = choose|i: int| 0 <= i < s.len() && s[i] == v;
            assert(1 <= s[i] <= n);
        }
    }
    lemma_len_subset(s.to_set(), index_range(n));
    if 1 <= missing <= n && !s.contains(missing) {
        let rest = index_range(n).remove(missing);
        assert(s.to_set().subset_of(rest));
        lemma_len_subset(s.to_set(), rest);
    }
}

impl View for FreeStack {
    type V = Seq<u32>;

    /// The free indices, bottom of the stack first.
    closed spec fn view(&self) -> Seq<u32> {
        self.slots@.take(self.counter as int)
    }
}

impl FreeStack {
    /// Number of nodes in the pool that this stack serves.
    pub closed spec fn capacity(&self) -> nat {
        self.slots@.len()
    }

    /// The stack holds distinct indices of its pool, no more than the pool has nodes.
    pub closed spec fn wf(&self) -> bool {
        &&& self.slots@.len() < u32::MAX
        &&& self.counter <= self.slots@.len()
        &&& distinct_indices(self@, self.capacity())
    }

    /// A well-formed stack never holds more indices than its pool has nodes.
    pub proof fn lemma_bounds(&self)
        requires
            self.wf(),
        ensures
            self@.len() <= self.capacity(),
            self.capacity() < u32::MAX,
            distinct_indices(self@, self.capacity()),
    {
    }

    /// The stack of a fresh pool of `n` nodes: every index `1..=n` is free,
    /// index 1 at the bottom and `n` on top.
    pub fn new(n: u32) -> (s: FreeStack)
        requires
            n < u32::MAX,
        ensures
            s.wf(),
            s.capacity() == n,
            s@ == Seq::new(n as nat, |i: int| (i + 1) as u32),
    {
        let mut slots: Vec<u32> = Vec::new();
        let mut i: u32 = 0;
        while i < n
            invariant
                i <= n,
                n < u32::MAX,
                slots@.len() == i,
                forall|j: int| 0 <= j < i ==> slots@[j] == j + 1,
            decreases n - i,
        {
            slots.push(i + 1);
            i += 1;
        }
        let s = FreeStack { slots, counter: n };
        assert(s@ =~= Seq::new(n as nat, |i: int| (i + 1) as u32));
        s
    }

    /// Number of free indices.
    pub fn free_count(&self) -> (c: u32)
        requires
            self.wf(),
        ensures
            c == self@.len(),
    {
        self.counter
    }

    /// Takes the index on top of the stack. On an exhausted pool nothing
    /// changes and nothing is returned.
    pub fn acquire(&mut self) -> (r: Option<u32>)
        requires
            old(self).wf(),
        ensures
            final(self).wf(),
            final(self).capacity() == old(self).capacity(),
            old(self)@.len() == 0 ==> r.is_none() && final(self)@ == old(self)@,
            old(self)@.len() > 0 ==> r == Some(old(self)@.last()) && final(self)@ == old(
                self,
            )@.drop_last(),
    {
        if self.counter == 0 {
            return None;
        }
        self.counter = self.counter - 1;
        let idx = self.slots[self.counter as usize];
        assert(self@ =~= old(self)@.drop_last());
        Some(idx)
    }

    /// Puts `idx` back on top of the stack.
    pub fn release(&mut self, idx: u32)
        requires
            old(self).wf(),
            1 <= idx <= old(self).capacity(),
            !old(self)@.contains(idx),
        ensures
            final(self).wf(),
            final(self).capacity() == old(self).capacity(),
            final(self)@ == old(self)@.push(idx),
    {
        proof {
            lemma_distinct_indices_len(self@, self.capacity(), idx);
        }
        let at = self.counter as usize;
        self.slots[at] = idx;
        self.counter = self.counter + 1;
        assert(self@ =~= old(self)@.push(idx));
    }
}

} // verus!
