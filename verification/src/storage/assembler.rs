//! A tracker of the byte ranges of a buffer received so far.

use vstd::prelude::*;

verus! {

/// A tracker of which bytes of a packet have arrived, for reassembling it from
/// fragments that may come out of order or overlap.
#[derive(Debug)]
pub struct Assembler {
    received: Vec<bool>,
}

impl Assembler {
    /// The offsets of the bytes received so far.
    pub closed spec fn view_set(&self) -> Set<int> {
        Set::new(|i: int| 0 <= i < self.received@.len() && self.received@[i])
    }

    /// The length of the run of received bytes that starts at offset 0.
    pub open spec fn is_front_len(&self, n: int) -> bool {
        &&& 0 <= n
        &&& forall|i: int| 0 <= i < n ==> #[trigger] self.view_set().contains(i)
        &&& !self.view_set().contains(n)
    }

    /// Create a new tracker, with no byte received.
    pub fn new() -> (r: Assembler)
        ensures
            r.view_set() == Set::<int>::empty(),
    {
        let r = Assembler { received: Vec::new() };
        assert(r.view_set() =~= Set::<int>::empty());
        r
    }

    /// Forget every byte received.
    pub fn clear(&mut self)
        ensures
            final(self).view_set() == Set::<int>::empty(),
    {
        self.received.clear();
        assert(self.view_set() =~= Set::<int>::empty());
    }

    /// Record that the `size` bytes from `offset` on have arrived.
    pub fn add(&mut self, offset: usize, size: usize)
        requires
            offset + size <= usize::MAX,
        ensures
            final(self).view_set() == old(self).view_set().union(
                Set::new(|i: int| offset <= i < offset + size),
            ),
    {
        let end = offset + size;
        let ghost old_set = self.view_set();
        while self.received.len() < end
            invariant
                end == offset + size,
                self.view_set() == old_set,
            decreases end - self.received@.len(),
        {
            self.received.push(false);
            assert(self.view_set() =~= old_set);
        }
        let mut i = offset;
        while i < end
            invariant
                end == offset + size,
                offset <= i <= end,
                end <= self.received@.len(),
                self.view_set() == old_set.union(Set::new(|k: int| offset <= k < i)),
            decreases end - i,
        {
            let ghost before = self.view_set();
            self.received.set(i, true);
            assert forall|k: int| #[trigger] self.view_set().contains(k) <==> (before.contains(k) || k == i) by {}
            assert(self.view_set() =~= old_set.union(Set::new(|k: int| offset <= k < i + 1)));
            i = i + 1;
        }
        assert(self.view_set() =~= old_set.union(Set::new(|k: int| offset <= k < offset + size)));
    }

    /// Return the length of the run of received bytes at the front: the number of bytes
    /// that can be read from offset 0 on.
    pub fn peek_front(&self) -> (r: usize)
        ensures
            self.is_front_len(r as int),
    {
        let mut n: usize = 0;
        while n < self.received.len() && self.received[n]
            invariant
                n <= self.received@.len(),
                forall|i: int| 0 <= i < n ==> #[trigger] self.view_set().contains(i),
            decreases self.received@.len() - n,
        {
            n = n + 1;
        }
        n
    }
}

/// The run of received bytes at the front has one length only.
pub proof fn lemma_front_len_unique(a: Assembler, n: int, m: int)
    requires
        a.is_front_len(n),
        a.is_front_len(m),
    ensures
        n == m,
{
    if n < m {
        assert(a.view_set().contains(n));
    } else if m < n {
        assert(a.view_set().contains(m));
    }
}

} // verus!
