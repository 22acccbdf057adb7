//! A ring buffer over a fixed storage, with single-element, contiguous-slice and
//! random-access interfaces.

use vstd::prelude::*;

use super::{Empty, Full, Resettable};

verus! {

/// `x % c` for `0 <= x < 2 * c` is `x` or `x - c`.
pub proof fn lemma_wrap(x: int, c: int)
    requires
        0 < c,
        0 <= x < 2 * c,
    ensures
        x % c == (if x < c { x } else { x - c }),
{
    if x < c {
        vstd::arithmetic::div_mod::lemma_small_mod(x as nat, c as nat);
    } else {
        vstd::arithmetic::div_mod::lemma_small_mod((x - c) as nat, c as nat);
        vstd::arithmetic::div_mod::lemma_mod_add_multiples_vanish(x - c, c);
    }
}

/// Moving the read position by `n` and then by `i` lands where moving by `n + i` does.
pub proof fn lemma_shift(a: int, n: int, i: int, c: int)
    requires
        0 < c,
        0 <= a,
        0 <= n,
        0 <= i,
    ensures
        ((a + n) % c + i) % c == (a + n + i) % c,
{
    vstd::arithmetic::div_mod::lemma_add_mod_noop(a + n, i, c);
    vstd::arithmetic::div_mod::lemma_mod_twice(i, c);
    vstd::arithmetic::div_mod::lemma_add_mod_noop((a + n) % c, i, c);
    vstd::arithmetic::div_mod::lemma_mod_twice(a + n, c);
}

/// The circular storage `s` after writing `data` from physical index `start`
/// onwards, wrapping around at the end; cells that `data` does not reach keep
/// their value.
pub open spec fn ring_write<T>(s: Seq<T>, start: int, data: Seq<T>) -> Seq<T> {
    Seq::new(
        s.len(),
        |p: int|
            {
                let k = if p >= start {
                    p - start
                } else {
                    p - start + s.len()
                };
                if k < data.len() {
                    data[k]
                } else {
                    s[p]
                }
            },
    )
}

/// `s` with the cells from `start` on replaced by `x`.
pub open spec fn splice<T>(s: Seq<T>, start: int, x: Seq<T>) -> Seq<T> {
    s.subrange(0, start) + x + s.subrange(start + x.len(), s.len() as int)
}

/// The `used` elements of the circular storage `s` that start at physical index `read`.
pub open spec fn ring_view<T>(s: Seq<T>, read: int, used: nat) -> Seq<T> {
    Seq::new(
        used,
        |i: int|
            s[if s.len() == 0 {
                0
            } else {
                (read + i) % (s.len() as int)
            }],
    )
}

/// A ring buffer.
///
/// This ring buffer implementation provides many ways to interact with it:
///
///   * Enqueueing or dequeueing one element from corresponding side of the buffer;
///   * Enqueueing or dequeueing a slice of elements from corresponding side of the buffer;
///   * Accessing allocated and unallocated areas directly.
///
/// It is also zero-copy; all methods provide references into the buffer's storage.
/// Note that all references are mutable; it is considered more important to allow
/// in-place processing than to protect from accidental mutation.
///
/// Its contents, as a sequence from the oldest element to the newest, is its view.
#[derive(Debug)]
pub struct RingBuffer<T> {
    storage: Vec<T>,
    read_at: usize,
    length: usize,
}

impl<T> RingBuffer<T> {
    /// The whole backing storage, allocated or not.
    pub closed spec fn storage_seq(&self) -> Seq<T> {
        self.storage@
    }

    /// Physical index of the oldest element.
    pub closed spec fn read_pos(&self) -> int {
        self.read_at as int
    }

    /// Number of elements held.
    pub closed spec fn used(&self) -> nat {
        self.length as nat
    }

    /// Number of elements the storage can hold.
    pub open spec fn cap(&self) -> nat {
        self.storage_seq().len()
    }

    /// Number of elements that can still be added.
    pub open spec fn free(&self) -> nat {
        (self.cap() - self.used()) as nat
    }

    /// The buffer's internal invariant.
    pub open spec fn wf(&self) -> bool {
        &&& self@.len() == self.used()
        &&& self.used() <= self.cap() <= usize::MAX
        &&& 0 <= self.read_pos()
        &&& if self.cap() == 0 {
            self.read_pos() == 0
        } else {
            self.read_pos() < self.cap()
        }
    }

    /// Physical index of the element `i` places past the oldest one.
    pub open spec fn phys(&self, i: int) -> int {
        if self.cap() == 0 {
            0
        } else {
            (self.read_pos() + i) % (self.cap() as int)
        }
    }

    /// Read position once an enqueue of the contiguous interface has begun: an
    /// empty buffer restarts at the beginning of its storage.
    pub open spec fn read_pos_for_enqueue(&self) -> int {
        if self.used() == 0 {
            0
        } else {
            self.read_pos()
        }
    }

    /// Physical index at which the contiguous interface starts writing.
    pub open spec fn write_start(&self) -> int {
        if self.cap() == 0 {
            0
        } else {
            (self.read_pos_for_enqueue() + self.used()) % (self.cap() as int)
        }
    }

    /// Number of free elements after the first unallocated one before the storage wraps.
    pub open spec fn contig(&self) -> nat {
        let to_end = (self.cap() - self.phys(self.used() as int)) as nat;
        if self.free() < to_end {
            self.free()
        } else {
            to_end
        }
    }

    /// Size of the slice that the contiguous enqueue interface offers.
    pub open spec fn enqueue_room(&self) -> nat {
        let to_end = (self.cap() - self.write_start()) as nat;
        if self.free() < to_end {
            self.free()
        } else {
            to_end
        }
    }

    /// Size of the slice that the contiguous dequeue interface offers.
    pub open spec fn dequeue_room(&self) -> nat {
        let to_end = (self.cap() - self.read_pos()) as nat;
        if self.used() < to_end {
            self.used()
        } else {
            to_end
        }
    }

    /// Read position after `n` elements left the buffer.
    pub open spec fn advanced(&self, n: int) -> int {
        if self.cap() == 0 {
            0
        } else {
            (self.read_pos() + n) % (self.cap() as int)
        }
    }
    /// Physical index where the free cells `offset` past the last element start;
    /// `0` when `offset` lies beyond the free cells.
    pub open spec fn unalloc_start(&self, offset: int) -> int {
        if offset > self.free() {
            0
        } else {
            self.phys(self.used() + offset)
        }
    }

    /// Size of the contiguous run of free cells `offset` past the last element.
    pub open spec fn unalloc_room(&self, offset: int) -> nat {
        if offset > self.free() {
            0
        } else {
            let to_end = (self.cap() - self.unalloc_start(offset)) as nat;
            let free = (self.free() - offset) as nat;
            if free < to_end {
                free
            } else {
                to_end
            }
        }
    }

    /// Size of the contiguous run of elements `offset` past the oldest one.
    pub open spec fn alloc_room(&self, offset: int) -> nat {
        if offset > self.used() {
            0
        } else {
            let to_end = (self.cap() - self.phys(offset)) as nat;
            let held = (self.used() - offset) as nat;
            if held < to_end {
                held
            } else {
                to_end
            }
        }
    }
}

impl<T> View for RingBuffer<T> {
    type V = Seq<T>;

    /// The elements held, oldest first.
    closed spec fn view(&self) -> Seq<T> {
        ring_view(self.storage_seq(), self.read_pos(), self.used())
    }
}

impl<T> RingBuffer<T> {
    /// The view spelled out: element `i` sits at physical index `phys(i)`.
    pub proof fn lemma_view(&self)
        ensures
            self@.len() == self.used(),
            forall|i: int| 0 <= i < self.used() ==> #[trigger] self@[i] == self.storage_seq()[self.phys(i)],
    {
    }

    /// Writing the first free cell and counting it as used appends the written value.
    proof fn lemma_push_view(&self, p: int)
        requires
            self.wf(),
            self.used() < self.cap(),
            p == self.phys(self.used() as int),
        ensures
            forall|v: T, u: nat|
                u == self.used() + 1 ==>
                #[trigger] ring_view(self.storage_seq().update(p, v), self.read_pos(), u)
                    == self@.push(v),
            forall|v: T, u: nat|
                u == self.used() ==>
                #[trigger] ring_view(self.storage_seq().update(p, v), self.read_pos(), u)
                    == self@,
    {
        let c = self.cap() as int;
        lemma_wrap(self.read_pos() + self.used(), c);
        assert forall|v: T, u: nat|
            u == self.used() + 1 implies
            #[trigger] ring_view(self.storage_seq().update(p, v), self.read_pos(), u)
                == self@.push(v) by {
            let w = ring_view(self.storage_seq().update(p, v), self.read_pos(), u);
            assert forall|i: int| 0 <= i < self.used() implies #[trigger] w[i] == self@[i] by {
                lemma_wrap(self.read_pos() + i, c);
            }
            assert(w =~= self@.push(v));
        }
        assert forall|v: T, u: nat|
            u == self.used() implies
            #[trigger] ring_view(self.storage_seq().update(p, v), self.read_pos(), u)
                == self@ by {
            let w = ring_view(self.storage_seq().update(p, v), self.read_pos(), u);
            assert forall|i: int| 0 <= i < self.used() implies #[trigger] w[i] == self@[i] by {
                lemma_wrap(self.read_pos() + i, c);
            }
            assert(w =~= self@);
        }
    }

    /// Changing the oldest element and then dropping it leaves the rest of the contents.
    proof fn lemma_pop_view(&self)
        requires
            self.wf(),
            self.used() > 0,
        ensures
            forall|v: T, n: int, u: nat|
                n == self.phys(1) && u + 1 == self.used() ==>
                #[trigger] ring_view(self.storage_seq().update(self.read_pos(), v), n, u)
                    == self@.skip(1),
            forall|v: T, u: nat|
                u == self.used() ==>
                #[trigger] ring_view(self.storage_seq().update(self.read_pos(), v), self.read_pos(), u)
                    == self@.update(0, v),
    {
        let c = self.cap() as int;
        let r = self.read_pos();
        lemma_wrap(r + 1, c);
        assert forall|v: T, n: int, u: nat|
            n == self.phys(1) && u + 1 == self.used() implies
            #[trigger] ring_view(self.storage_seq().update(r, v), n, u)
                == self@.skip(1) by {
            let w = ring_view(self.storage_seq().update(r, v), n, u);
            assert forall|i: int| 0 <= i < self.used() - 1 implies #[trigger] w[i] == self@.skip(1)[i] by {
                lemma_shift(r, 1, i, c);
                lemma_wrap(r + 1 + i, c);
            }
            assert(w =~= self@.skip(1));
        }
        assert forall|v: T, u: nat|
            u == self.used() implies
            #[trigger] ring_view(self.storage_seq().update(r, v), r, u)
                == self@.update(0, v) by {
            let w = ring_view(self.storage_seq().update(r, v), r, u);
            assert forall|i: int| 0 <= i < self.used() implies #[trigger] w[i] == self@.update(0, v)[i] by {
                lemma_wrap(r + i, c);
                lemma_wrap(r, c);
            }
            assert(w =~= self@.update(0, v));
        }
    }

    /// Writing the `room` cells after the last element, without wrapping, and counting
    /// some of them as used appends what was written there.
    pub(crate) proof fn lemma_append_view(&self, start: int, room: nat)
        requires
            self.wf(),
            start == self.phys(self.used() as int),
            room <= self.free(),
            start + room <= self.cap(),
        ensures
            forall|x: Seq<T>, u: nat|
                x.len() == room && self.used() <= u <= self.used() + room ==>
                #[trigger] ring_view(splice(self.storage_seq(), start, x), self.read_pos(), u)
                    == self@ + x.take(u - self.used()),
    {
        let c = self.cap() as int;
        let r = self.read_pos();
        let n = self.used() as int;
        assert forall|x: Seq<T>, u: nat|
            x.len() == room && self.used() <= u <= self.used() + room implies
            #[trigger] ring_view(splice(self.storage_seq(), start, x), r, u)
                == self@ + x.take(u - self.used()) by {
            let w = ring_view(splice(self.storage_seq(), start, x), r, u);
            let z = self@ + x.take(u - self.used());
            if c > 0 {
                lemma_wrap(r + n, c);
                assert forall|i: int| 0 <= i < u implies #[trigger] w[i] == z[i] by {
                    lemma_wrap(r + i, c);
                    if i >= n {
                        assert((r + i) % c == start + (i - n));
                    }
                }
            }
            assert(w =~= z);
        }
    }

    /// Handing the `room` cells of the oldest elements out as `x` and dropping `k`
    /// of them leaves the rest, with `x` in place of what was handed out.
    proof fn lemma_drop_view(&self)
        requires
            self.wf(),
        ensures
            forall|x: Seq<T>, n: int, u: nat|
                x.len() == self.dequeue_room() && u <= self.used() && self.used() - u <= self.dequeue_room()
                    && n == self.advanced(self.used() - u) ==>
                #[trigger] ring_view(splice(self.storage_seq(), self.read_pos(), x), n, u)
                    == (x + self@.skip(self.dequeue_room() as int)).skip(self.used() - u),
    {
        let c = self.cap() as int;
        let r = self.read_pos();
        let room = self.dequeue_room() as int;
        assert forall|x: Seq<T>, n: int, u: nat|
            x.len() == self.dequeue_room() && u <= self.used() && self.used() - u <= self.dequeue_room()
                && n == self.advanced(self.used() - u) implies
            #[trigger] ring_view(splice(self.storage_seq(), r, x), n, u)
                == (x + self@.skip(room)).skip(self.used() - u) by {
            let k = self.used() - u;
            let w = ring_view(splice(self.storage_seq(), r, x), n, u);
            let z = (x + self@.skip(room)).skip(k);
            if c > 0 {
                assert forall|i: int| 0 <= i < u implies #[trigger] w[i] == z[i] by {
                    lemma_shift(r, k, i, c);
                    lemma_wrap(r + k + i, c);
                    lemma_wrap(r + k, c);
                }
            }
            assert(w =~= z);
        }
    }

    /// Writing `d` into the free cells from the first one onwards, wrapping around,
    /// and counting them as used appends `d`.
    proof fn lemma_ring_write_view(&self, d: Seq<T>)
        requires
            self.wf(),
            self.cap() > 0,
            d.len() <= self.free(),
        ensures
            ring_view(ring_write(self.storage_seq(), self.phys(self.used() as int), d), self.read_pos(), self.used() + d.len())
                == self@ + d,
    {
        let c = self.cap() as int;
        let r = self.read_pos();
        let n = self.used() as int;
        let start = self.phys(n);
        let w = ring_view(ring_write(self.storage_seq(), start, d), r, self.used() + d.len());
        let z = self@ + d;
        lemma_wrap(r + n, c);
        assert forall|i: int| 0 <= i < n + d.len() implies #[trigger] w[i] == z[i] by {
            lemma_wrap(r + i, c);
        }
        assert(w =~= z);
    }

    /// Writing `d` into free cells leaves the contents alone.
    proof fn lemma_ring_write_free(&self, offset: int, d: Seq<T>)
        requires
            self.wf(),
            self.cap() > 0,
            0 <= offset,
            offset + d.len() <= self.free(),
        ensures
            ring_view(ring_write(self.storage_seq(), self.phys(self.used() + offset), d), self.read_pos(), self.used())
                == self@,
    {
        let c = self.cap() as int;
        let r = self.read_pos();
        let n = self.used() as int;
        let start = self.phys(n + offset);
        let w = ring_view(ring_write(self.storage_seq(), start, d), r, self.used());
        lemma_wrap(r + n + offset, c);
        assert forall|i: int| 0 <= i < n implies #[trigger] w[i] == self@[i] by {
            lemma_wrap(r + i, c);
        }
        assert(w =~= self@);
    }

    /// One more written cell: `ring_write` of a longer prefix is an update of the shorter one.
    proof fn lemma_ring_write_step(s: Seq<T>, start: int, d: Seq<T>, k: int)
        requires
            0 <= start < s.len(),
            0 <= k < d.len() <= s.len(),
        ensures
            ring_write(s, start, d.take(k + 1)) == ring_write(s, start, d.take(k)).update(
                (start + k) % (s.len() as int),
                d[k],
            ),
    {
        let c = s.len() as int;
        lemma_wrap(start + k, c);
        assert(ring_write(s, start, d.take(k + 1)) =~= ring_write(s, start, d.take(k)).update(
            (start + k) % c,
            d[k],
        ));
    }

    /// Overwriting a contiguous run of free cells leaves the contents alone.
    proof fn lemma_splice_free(&self, offset: int)
        requires
            self.wf(),
            0 <= offset <= self.free(),
        ensures
            forall|x: Seq<T>|
                x.len() <= self.unalloc_room(offset) ==>
                #[trigger] ring_view(splice(self.storage_seq(), self.unalloc_start(offset), x), self.read_pos(), self.used())
                    == self@,
    {
        let c = self.cap() as int;
        let r = self.read_pos();
        let n = self.used() as int;
        let start = self.unalloc_start(offset);
        assert forall|x: Seq<T>|
            x.len() <= self.unalloc_room(offset) implies
            #[trigger] ring_view(splice(self.storage_seq(), start, x), r, self.used()) == self@ by {
            let w = ring_view(splice(self.storage_seq(), start, x), r, self.used());
            if c > 0 {
                lemma_wrap(r + n + offset, c);
                assert forall|i: int| 0 <= i < n implies #[trigger] w[i] == self@[i] by {
                    lemma_wrap(r + i, c);
                }
            }
            assert(w =~= self@);
        }
    }

    /// Create a ring buffer with the given storage.
    ///
    /// The buffer starts empty and takes the elements of `storage` as they are: a cell
    /// keeps its value until an enqueue writes it. Elements that are `Resettable` are
    /// brought to their known state by `reset`, which clears the buffer and resets
    /// every element of its storage.
    pub fn new(storage: Vec<T>) -> (r: RingBuffer<T>)
        ensures
            r.wf(),
            r.storage_seq() == storage@,
            r.read_pos() == 0,
            r.used() == 0,
            r@ == Seq::<T>::empty(),
    {
        let _ = storage.len();
        let r = RingBuffer { storage, read_at: 0, length: 0 };
        assert(r@ =~= Seq::<T>::empty());
        r
    }

    /// Clear the ring buffer.
    pub fn clear(&mut self)
        requires
            old(self).wf(),
        ensures
            final(self).wf(),
            final(self).storage_seq() == old(self).storage_seq(),
            final(self).read_pos() == 0,
            final(self).used() == 0,
            final(self)@ == Seq::<T>::empty(),
    {
        self.read_at = 0;
        self.length = 0;
        assert(self@ =~= Seq::<T>::empty());
    }

    /// Return the maximum number of elements in the ring buffer.
    pub fn capacity(&self) -> (r: usize)
        ensures
            r == self.cap(),
    {
        self.storage.len()
    }

    /// Clear the ring buffer, and reset every element.
    pub fn reset(&mut self)
        where
            T: Resettable,
        requires
            old(self).wf(),
        ensures
            final(self).wf(),
            final(self).cap() == old(self).cap(),
            final(self).read_pos() == 0,
            final(self).used() == 0,
            final(self)@ == Seq::<T>::empty(),
    {
        self.clear();
        let n = self.storage.len();
        let mut i: usize = 0;
        while i < n
            invariant
                n == self.cap(),
                i <= n,
                self.read_pos() == 0,
                self.used() == 0,
            decreases n - i,
        {
            let elem = &mut self.storage[i];
            elem.reset();
            i = i + 1;
        }
        assert(self@ =~= Seq::<T>::empty());
    }

    /// Return the whole backing storage, allocated or not, in physical order.
    pub fn storage(&self) -> (r: &[T])
        ensures
            r@ == self.storage_seq(),
    {
        self.storage.as_slice()
    }

    /// Return the current number of elements in the ring buffer.
    pub fn len(&self) -> (r: usize)
        ensures
            r == self.used(),
    {
        self.length
    }

    /// Return the number of elements that can be added to the ring buffer.
    pub fn window(&self) -> (r: usize)
        requires
            self.wf(),
        ensures
            r == self.free(),
    {
        self.storage.len() - self.length
    }

    /// Return the largest number of elements that can be added to the buffer
    /// without wrapping around (i.e. in a single `enqueue_many` call).
    pub fn contiguous_window(&self) -> (r: usize)
        requires
            self.wf(),
        ensures
            r == self.contig(),
    {
        let to_end = self.storage.len() - self.get_idx(self.length);
        let window = self.window();
        if window < to_end {
            window
        } else {
            to_end
        }
    }

    /// Query whether the buffer is empty.
    pub fn is_empty(&self) -> (r: bool)
        ensures
            r == (self.used() == 0),
    {
        self.length == 0
    }

    /// Query whether the buffer is full.
    pub fn is_full(&self) -> (r: bool)
        requires
            self.wf(),
        ensures
            r == (self.free() == 0),
    {
        self.window() == 0
    }

    /// Shorthand for `(self.read + idx) % self.capacity()` with an
    /// additional check to ensure that the capacity is not zero.
    fn get_idx(&self, idx: usize) -> (r: usize)
        requires
            self.wf(),
            idx <= self.cap(),
        ensures
            r == self.phys(idx as int),
            self.cap() > 0 ==> r < self.cap(),
            self.cap() == 0 ==> r == 0,
    {
        let len = self.storage.len();
        if len > 0 {
            proof {
                lemma_wrap(self.read_at + idx, len as int);
            }
            let room = len - self.read_at;
            if idx < room {
                self.read_at + idx
            } else {
                idx - room
            }
        } else {
            0
        }
    }

    /// Shorthand for `(self.read + idx) % self.capacity()` without
    /// first testing that the capacity is not zero.
    fn get_idx_unchecked(&self, idx: usize) -> (r: usize)
        requires
            self.wf(),
            self.cap() > 0,
            idx <= self.cap(),
        ensures
            r == self.phys(idx as int),
            r < self.cap(),
    {
        self.get_idx(idx)
    }
}

/// This is the "discrete" ring buffer interface: it operates with single elements,
/// and boundary conditions (empty/full) are errors.
impl<T> RingBuffer<T> {
    /// Call `f` with a single buffer element, and enqueue the element if `f`
    /// returns successfully, or return `Err(Full)` if the buffer is full.
    pub fn enqueue_one_with<'b, R, E, F>(&'b mut self, f: F) -> (r: Result<Result<R, E>, Full>)
        where
            F: FnOnce(&'b mut T) -> Result<R, E>,
        requires
            old(self).wf(),
            forall|e: &'b mut T| call_requires(f, (e,)),
        ensures
            final(self).wf(),
            r is Err <==> old(self).free() == 0,
            r is Err ==> *final(self) == *old(self),
            r matches Ok(res) ==> exists|e: &'b mut T|
                {
                    let p = old(self).phys(old(self).used() as int);
                    &&& *e == old(self).storage_seq()[p]
                    &&& #[trigger] call_ensures(f, (e,), res)
                    &&& final(self).storage_seq() == old(self).storage_seq().update(p, *final(e))
                    &&& final(self).read_pos() == old(self).read_pos()
                    &&& res is Ok ==> final(self).used() == old(self).used() + 1
                        && final(self)@ == old(self)@.push(*final(e))
                    &&& res is Err ==> final(self).used() == old(self).used()
                        && final(self)@ == old(self)@
                },
    {
        if self.is_full() {
            return Err(Full);
        }
        let index = self.get_idx_unchecked(self.length);
        proof {
            self.lemma_push_view(index as int);
        }
        let grown = self.length + 1;
        let elem = &mut self.storage[index];
        let res = f(elem);
        if res.is_ok() {
            self.length = grown;
        }
        Ok(res)
    }

    /// Enqueue a single element into the buffer, and return a reference to it,
    /// or return `Err(Full)` if the buffer is full.
    ///
    /// This function is a shortcut for `ring_buf.enqueue_one_with(Ok)`.
    pub fn enqueue_one<'b>(&'b mut self) -> (r: Result<&'b mut T, Full>)
        requires
            old(self).wf(),
        ensures
            final(self).wf(),
            r is Err <==> old(self).free() == 0,
            r is Err ==> *final(self) == *old(self),
            r matches Ok(e) ==> {
                let p = old(self).phys(old(self).used() as int);
                &&& *e == old(self).storage_seq()[p]
                &&& final(self).storage_seq() == old(self).storage_seq().update(p, *final(e))
                &&& final(self).read_pos() == old(self).read_pos()
                &&& final(self).used() == old(self).used() + 1
                &&& final(self)@ == old(self)@.push(*final(e))
            },
    {
        if self.is_full() {
            return Err(Full);
        }
        let index = self.get_idx_unchecked(self.length);
        proof {
            self.lemma_push_view(index as int);
        }
        self.length = self.length + 1;
        Ok(&mut self.storage[index])
    }

    /// Call `f` with a single buffer element, and dequeue the element if `f`
    /// returns successfully, or return `Err(Empty)` if the buffer is empty.
    pub fn dequeue_one_with<'b, R, E, F>(&'b mut self, f: F) -> (r: Result<Result<R, E>, Empty>)
        where
            F: FnOnce(&'b mut T) -> Result<R, E>,
        requires
            old(self).wf(),
            forall|e: &'b mut T| call_requires(f, (e,)),
        ensures
            final(self).wf(),
            r is Err <==> old(self).used() == 0,
            r is Err ==> *final(self) == *old(self),
            r matches Ok(res) ==> exists|e: &'b mut T|
                {
                    let p = old(self).read_pos();
                    &&& *e == old(self)@[0]
                    &&& #[trigger] call_ensures(f, (e,), res)
                    &&& final(self).storage_seq() == old(self).storage_seq().update(p, *final(e))
                    &&& res is Ok ==> final(self).read_pos() == old(self).phys(1)
                        && final(self).used() == old(self).used() - 1
                        && final(self)@ == old(self)@.skip(1)
                    &&& res is Err ==> final(self).read_pos() == old(self).read_pos()
                        && final(self).used() == old(self).used()
                        && final(self)@ == old(self)@.update(0, *final(e))
                },
    {
        if self.is_empty() {
            return Err(Empty);
        }
        let next_at = self.get_idx_unchecked(1);
        proof {
            self.lemma_pop_view();
            lemma_wrap(self.read_pos(), self.cap() as int);
        }
        let shrunk = self.length - 1;
        let read_at = self.read_at;
        let elem = &mut self.storage[read_at];
        let res = f(elem);
        if res.is_ok() {
            self.length = shrunk;
            self.read_at = next_at;
        }
        Ok(res)
    }

    /// Dequeue an element from the buffer, and return a reference to it,
    /// or return `Err(Empty)` if the buffer is empty.
    ///
    /// This function is a shortcut for `ring_buf.dequeue_one_with(Ok)`.
    pub fn dequeue_one<'b>(&'b mut self) -> (r: Result<&'b mut T, Empty>)
        requires
            old(self).wf(),
        ensures
            final(self).wf(),
            r is Err <==> old(self).used() == 0,
            r is Err ==> *final(self) == *old(self),
            r matches Ok(e) ==> {
                &&& *e == old(self)@[0]
                &&& final(self).storage_seq() == old(self).storage_seq().update(old(self).read_pos(), *final(e))
                &&& final(self).read_pos() == old(self).phys(1)
                &&& final(self).used() == old(self).used() - 1
                &&& final(self)@ == old(self)@.skip(1)
            },
    {
        if self.is_empty() {
            return Err(Empty);
        }
        let next_at = self.get_idx_unchecked(1);
        proof {
            self.lemma_pop_view();
            lemma_wrap(self.read_pos(), self.cap() as int);
        }
        let read_at = self.read_at;
        self.length = self.length - 1;
        self.read_at = next_at;
        Ok(&mut self.storage[read_at])
    }
}


/// This is the "continuous" ring buffer interface: it operates with element slices,
/// and boundary conditions (empty/full) simply result in empty slices.
impl<T> RingBuffer<T> {
    /// Call `f` with the largest contiguous slice of unallocated buffer elements,
    /// and enqueue the amount of elements returned by `f`.
    ///
    /// `f` must not return a number larger than the size of the slice it was
    /// given: the buffer would then hold elements that were never written.
    pub fn enqueue_many_with<'b, R, F>(&'b mut self, f: F) -> (r: (usize, R))
        where
            F: FnOnce(&'b mut [T]) -> (usize, R),
        requires
            old(self).wf(),
            forall|s: &'b mut [T]|
                s@ == old(self).storage_seq().subrange(
                    old(self).write_start(),
                    old(self).write_start() + old(self).enqueue_room(),
                ) ==> call_requires(f, (s,)),
            forall|s: &'b mut [T], res: (usize, R)|
                call_ensures(f, (s,), res) ==> res.0 <= s@.len() && final(s)@.len() == s@.len(),
        ensures
            final(self).wf(),
            r.0 <= old(self).enqueue_room(),
            final(self).read_pos() == old(self).read_pos_for_enqueue(),
            final(self).used() == old(self).used() + r.0,
            exists|s: &'b mut [T]|
                {
                    &&& s@ == old(self).storage_seq().subrange(
                        old(self).write_start(),
                        old(self).write_start() + old(self).enqueue_room(),
                    )
                    &&& #[trigger] call_ensures(f, (s,), r)
                    &&& final(self).storage_seq() == splice(old(self).storage_seq(), old(self).write_start(), final(s)@)
                    &&& final(self)@ == old(self)@ + final(s)@.take(r.0 as int)
                },
    {
        let ghost old_self = *self;
        if self.length == 0 {
            self.read_at = 0;
        }
        let write_at = self.get_idx(self.length);
        let max_size = self.contiguous_window();
        proof {
            if self.cap() > 0 {
                lemma_wrap(self.read_pos() + self.used(), self.cap() as int);
            }
            self.lemma_append_view(write_at as int, max_size as nat);
            assert(write_at == old_self.write_start());
            assert(max_size == old_self.enqueue_room());
        }
        let ghost reset_self = *self;
        let base = self.length;
        let ghost old_storage = self.storage@;
        let s = self.storage.as_mut_slice();
        let (_head, rest) = s.split_at_mut(write_at);
        let (window, _tail) = rest.split_at_mut(max_size);
        assert(window@ =~= old_storage.subrange(write_at as int, write_at + max_size));
        let ghost w0 = window;
        let res = f(window);
        proof {
            assert(final(_head)@ == old_storage.subrange(0, write_at as int));
            assert(final(_tail)@ == old_storage.subrange(write_at + max_size, old_storage.len() as int));
            assert(final(w0)@.len() == max_size);
            assert(old_storage.subrange(0, write_at as int) + (final(w0)@ + old_storage.subrange(write_at + max_size, old_storage.len() as int))
                =~= splice(old_storage, write_at as int, final(w0)@));
            assert(ring_view(splice(reset_self.storage_seq(), write_at as int, final(w0)@), reset_self.read_pos(), (base + res.0) as nat)
                == reset_self@ + final(w0)@.take(res.0 as int));
        }
        self.length = base + res.0;
        res
    }

    /// Enqueue a slice of elements up to the given size into the buffer,
    /// and return a reference to them.
    ///
    /// This function may return a slice smaller than the given size
    /// if the free space in the buffer is not contiguous.
    pub fn enqueue_many<'b>(&'b mut self, size: usize) -> (r: &'b mut [T])
        requires
            old(self).wf(),
        ensures
            final(r)@.len() == r@.len() ==> final(self).wf(),
            r@.len() == if size < old(self).enqueue_room() {
                size as nat
            } else {
                old(self).enqueue_room()
            },
            r@ == old(self).storage_seq().subrange(old(self).write_start(), old(self).write_start() + r@.len()),
            final(r)@.len() == r@.len() ==> final(self).storage_seq() == splice(
                old(self).storage_seq(),
                old(self).write_start(),
                final(r)@,
            ),
            final(self).read_pos() == old(self).read_pos_for_enqueue(),
            final(self).used() == old(self).used() + r@.len(),
            final(r)@.len() == r@.len() ==> final(self)@ == old(self)@ + final(r)@,
    {
        let ghost old_self = *self;
        if self.length == 0 {
            self.read_at = 0;
        }
        let write_at = self.get_idx(self.length);
        let max_size = self.contiguous_window();
        let n = if size < max_size {
            size
        } else {
            max_size
        };
        proof {
            if self.cap() > 0 {
                lemma_wrap(self.read_pos() + self.used(), self.cap() as int);
            }
            self.lemma_append_view(write_at as int, n as nat);
            assert(write_at == old_self.write_start());
            assert(max_size == old_self.enqueue_room());
        }
        let ghost reset_self = *self;
        assert(old_self@ =~= reset_self@);
        let ghost old_storage = self.storage@;
        self.length = self.length + n;
        let s = self.storage.as_mut_slice();
        let (_head, rest) = s.split_at_mut(write_at);
        let (window, _tail) = rest.split_at_mut(n);
        proof {
            assert(window@ =~= old_storage.subrange(write_at as int, write_at + n));
            assert(final(_head)@ == old_storage.subrange(0, write_at as int));
            assert(final(_tail)@ == old_storage.subrange(write_at + n, old_storage.len() as int));
            assert forall|x: Seq<T>| x.len() == n implies
                #[trigger] splice(old_storage, write_at as int, x)
                    == old_storage.subrange(0, write_at as int) + (x + old_storage.subrange(write_at + n, old_storage.len() as int))
                    && ring_view(splice(reset_self.storage_seq(), write_at as int, x), reset_self.read_pos(), (reset_self.used() + n) as nat)
                    == reset_self@ + x by {
                assert(old_storage.subrange(0, write_at as int) + (x + old_storage.subrange(write_at + n, old_storage.len() as int))
                    =~= splice(old_storage, write_at as int, x));
                assert(x.take(n as int) =~= x);
            }
            assert(final(window)@.len() == n ==> splice(old_storage, write_at as int, final(window)@)
                == old_storage.subrange(0, write_at as int) + (final(window)@ + old_storage.subrange(write_at + n, old_storage.len() as int)));
        }
        window
    }

    /// Enqueue as many elements from the given slice into the buffer as possible,
    /// and return the amount of elements that could fit.
    pub fn enqueue_slice(&mut self, data: &[T]) -> (r: usize)
        where
            T: Copy,
        requires
            old(self).wf(),
        ensures
            final(self).wf(),
            r == if data@.len() < old(self).free() {
                data@.len()
            } else {
                old(self).free()
            },
            old(self).cap() > 0 ==> final(self).storage_seq() == ring_write(
                old(self).storage_seq(),
                old(self).write_start(),
                data@.take(r as int),
            ),
            old(self).cap() == 0 ==> final(self).storage_seq() == old(self).storage_seq(),
            final(self).read_pos() == old(self).read_pos_for_enqueue(),
            final(self).used() == old(self).used() + r,
            final(self)@ == old(self)@ + data@.take(r as int),
    {
        let ghost old_self = *self;
        if self.length == 0 {
            self.read_at = 0;
        }
        let window = self.window();
        let n = if data.len() < window {
            data.len()
        } else {
            window
        };
        let ghost base = *self;
        let cap = self.storage.len();
        if cap == 0 {
            assert(self@ =~= old_self@ + data@.take(0));
            return 0;
        }
        let start = self.get_idx(self.length);
        proof {
            lemma_wrap(self.read_pos() + self.used(), cap as int);
            assert(start == old_self.write_start());
            assert(ring_write(base.storage_seq(), start as int, data@.take(n as int).take(0)) =~= base.storage_seq());
        }
        let mut k: usize = 0;
        while k < n
            invariant
                base.wf(),
                base.cap() == cap > 0,
                k <= n <= data@.len(),
                n <= base.free(),
                start == base.phys(base.used() as int),
                self.storage@ == ring_write(base.storage_seq(), start as int, data@.take(n as int).take(k as int)),
                self.read_at == base.read_pos(),
                self.length == base.used(),
            decreases n - k,
        {
            proof {
                Self::lemma_ring_write_step(base.storage_seq(), start as int, data@.take(n as int), k as int);
                lemma_wrap(start + k, cap as int);
            }
            let room = cap - start;
            let p = if k < room {
                start + k
            } else {
                k - room
            };
            self.storage.set(p, data[k]);
            k = k + 1;
        }
        proof {
            assert(data@.take(n as int).take(n as int) =~= data@.take(n as int));
            base.lemma_ring_write_view(data@.take(n as int));
        }
        self.length = self.length + n;
        n
    }

    /// Call `f` with the largest contiguous slice of allocated buffer elements,
    /// and dequeue the amount of elements returned by `f`.
    ///
    /// `f` must not return a number larger than the size of the slice it was given.
    pub fn dequeue_many_with<'b, R, F>(&'b mut self, f: F) -> (r: (usize, R))
        where
            F: FnOnce(&'b mut [T]) -> (usize, R),
        requires
            old(self).wf(),
            forall|s: &'b mut [T]| s@ == old(self)@.take(old(self).dequeue_room() as int) ==> call_requires(f, (s,)),
            forall|s: &'b mut [T], res: (usize, R)|
                call_ensures(f, (s,), res) ==> res.0 <= s@.len() && final(s)@.len() == s@.len(),
        ensures
            final(self).wf(),
            r.0 <= old(self).dequeue_room(),
            final(self).read_pos() == old(self).advanced(r.0 as int),
            final(self).used() == old(self).used() - r.0,
            exists|s: &'b mut [T]|
                {
                    &&& s@ == old(self)@.take(old(self).dequeue_room() as int)
                    &&& #[trigger] call_ensures(f, (s,), r)
                    &&& final(self).storage_seq() == splice(old(self).storage_seq(), old(self).read_pos(), final(s)@)
                    &&& final(self)@ == (final(s)@ + old(self)@.skip(old(self).dequeue_room() as int)).skip(r.0 as int)
                },
    {
        let capacity = self.storage.len();
        let to_end = capacity - self.read_at;
        let max_size = if self.length < to_end {
            self.length
        } else {
            to_end
        };
        let read_at = self.read_at;
        let ghost old_self = *self;
        let ghost old_storage = self.storage@;
        proof {
            self.lemma_drop_view();
            if capacity > 0 {
                assert forall|i: int| 0 <= i < max_size implies #[trigger] old_storage.subrange(
                    read_at as int,
                    read_at + max_size,
                )[i] == self@.take(max_size as int)[i] by {
                    lemma_wrap(read_at + i, capacity as int);
                }
            }
            assert(old_storage.subrange(read_at as int, read_at + max_size) =~= self@.take(max_size as int));
        }
        let base = self.length;
        let s = self.storage.as_mut_slice();
        let (_head, rest) = s.split_at_mut(read_at);
        let (window, _tail) = rest.split_at_mut(max_size);
        assert(window@ =~= old_storage.subrange(read_at as int, read_at + max_size));
        let ghost w0 = window;
        let res = f(window);
        let size = res.0;
        proof {
            assert(final(_head)@ == old_storage.subrange(0, read_at as int));
            assert(final(_tail)@ == old_storage.subrange(read_at + max_size, old_storage.len() as int));
            assert(final(w0)@.len() == max_size);
            assert(old_storage.subrange(0, read_at as int) + (final(w0)@ + old_storage.subrange(read_at + max_size, old_storage.len() as int))
                =~= splice(old_storage, read_at as int, final(w0)@));
            if capacity > 0 {
                lemma_wrap(read_at + size, capacity as int);
            }
        }
        self.read_at = if capacity > 0 {
            if size < to_end {
                read_at + size
            } else {
                size - to_end
            }
        } else {
            0
        };
        self.length = base - size;
        proof {
            assert(ring_view(splice(old_self.storage_seq(), read_at as int, final(w0)@), old_self.advanced(size as int), (base - size) as nat)
                == (final(w0)@ + old_self@.skip(max_size as int)).skip(size as int));
        }
        res
    }

    /// Dequeue a slice of elements up to the given size from the buffer,
    /// and return a reference to them.
    ///
    /// This function may return a slice smaller than the given size
    /// if the allocated space in the buffer is not contiguous.
    pub fn dequeue_many<'b>(&'b mut self, size: usize) -> (r: &'b mut [T])
        requires
            old(self).wf(),
        ensures
            final(r)@.len() == r@.len() ==> final(self).wf(),
            r@.len() == if size < old(self).dequeue_room() {
                size as nat
            } else {
                old(self).dequeue_room()
            },
            r@ == old(self)@.take(r@.len() as int),
            final(r)@.len() == r@.len() ==> final(self).storage_seq() == splice(
                old(self).storage_seq(),
                old(self).read_pos(),
                final(r)@,
            ),
            final(self).read_pos() == old(self).advanced(r@.len() as int),
            final(self).used() == old(self).used() - r@.len(),
            final(r)@.len() == r@.len() ==> final(self)@ == old(self)@.skip(r@.len() as int),
    {
        let capacity = self.storage.len();
        let to_end = capacity - self.read_at;
        let max_size = if self.length < to_end {
            self.length
        } else {
            to_end
        };
        let n = if size < max_size {
            size
        } else {
            max_size
        };
        let read_at = self.read_at;
        let ghost old_self = *self;
        let ghost old_storage = self.storage@;
        proof {
            if capacity > 0 {
                assert forall|i: int| 0 <= i < n implies #[trigger] old_storage.subrange(
                    read_at as int,
                    read_at + n,
                )[i] == self@.take(n as int)[i] by {
                    lemma_wrap(read_at + i, capacity as int);
                }
                lemma_wrap(read_at + n, capacity as int);
            }
            assert(old_storage.subrange(read_at as int, read_at + n) =~= self@.take(n as int));
        }
        self.read_at = if capacity > 0 {
            if n < to_end {
                read_at + n
            } else {
                n - to_end
            }
        } else {
            0
        };
        self.length = self.length - n;
        let s = self.storage.as_mut_slice();
        let (_head, rest) = s.split_at_mut(read_at);
        let (window, _tail) = rest.split_at_mut(n);
        proof {
            assert(window@ =~= old_storage.subrange(read_at as int, read_at + n));
            assert(final(_head)@ == old_storage.subrange(0, read_at as int));
            assert(final(_tail)@ == old_storage.subrange(read_at + n, old_storage.len() as int));
            assert forall|x: Seq<T>| x.len() == n implies
                #[trigger] splice(old_storage, read_at as int, x)
                    == old_storage.subrange(0, read_at as int) + (x + old_storage.subrange(read_at + n, old_storage.len() as int))
                    && ring_view(splice(old_storage, read_at as int, x), old_self.advanced(n as int), (old_self.used() - n) as nat)
                    == old_self@.skip(n as int) by {
                assert(old_storage.subrange(0, read_at as int) + (x + old_storage.subrange(read_at + n, old_storage.len() as int))
                    =~= splice(old_storage, read_at as int, x));
                let c = capacity as int;
                let w = ring_view(splice(old_storage, read_at as int, x), old_self.advanced(n as int), (old_self.used() - n) as nat);
                if c > 0 {
                    assert forall|i: int| 0 <= i < old_self.used() - n implies #[trigger] w[i] == old_self@.skip(n as int)[i] by {
                        lemma_shift(read_at as int, n as int, i, c);
                        lemma_wrap(read_at + n + i, c);
                    }
                }
                assert(w =~= old_self@.skip(n as int));
            }
            assert(final(window)@.len() == n ==> splice(old_storage, read_at as int, final(window)@)
                == old_storage.subrange(0, read_at as int) + (final(window)@ + old_storage.subrange(read_at + n, old_storage.len() as int)));
        }
        window
    }

    /// Dequeue as many elements from the buffer into the given slice as possible,
    /// and return the amount of elements that could fit.
    pub fn dequeue_slice(&mut self, data: &mut [T]) -> (r: usize)
        where
            T: Copy,
        requires
            old(self).wf(),
        ensures
            final(self).wf(),
            r == if old(data)@.len() < old(self).used() {
                old(data)@.len()
            } else {
                old(self).used()
            },
            final(data)@ == old(self)@.take(r as int) + old(data)@.skip(r as int),
            final(self).storage_seq() == old(self).storage_seq(),
            final(self).read_pos() == old(self).advanced(r as int),
            final(self).used() == old(self).used() - r,
            final(self)@ == old(self)@.skip(r as int),
    {
        let n = if data.len() < self.length {
            data.len()
        } else {
            self.length
        };
        let ghost old_data = data@;
        let mut k: usize = 0;
        while k < n
            invariant
                self.wf(),
                k <= n <= self.used(),
                n <= old_data.len(),
                data@.len() == old_data.len(),
                data@ == self@.take(k as int) + old_data.skip(k as int),
            decreases n - k,
        {
            let p = self.get_idx(k);
            let v = self.storage[p];
            data[k] = v;
            assert(data@ =~= self@.take(k + 1) + old_data.skip(k + 1));
            k = k + 1;
        }
        let ghost old_self = *self;
        let next = self.get_idx(n);
        proof {
            let c = self.cap() as int;
            if c > 0 {
                assert forall|i: int| 0 <= i < old_self.used() - n implies
                    #[trigger] ring_view(old_self.storage_seq(), next as int, (old_self.used() - n) as nat)[i]
                        == old_self@.skip(n as int)[i] by {
                    lemma_shift(old_self.read_pos(), n as int, i, c);
                    lemma_wrap(old_self.read_pos() + n + i, c);
                }
            }
            assert(ring_view(old_self.storage_seq(), next as int, (old_self.used() - n) as nat)
                =~= old_self@.skip(n as int));
        }
        self.read_at = next;
        self.length = self.length - n;
        n
    }
}


/// This is the "random access" ring buffer interface: it operates with element slices,
/// and allows to access elements of the buffer that are not adjacent to its head or tail.
impl<T> RingBuffer<T> {
    /// Return the largest contiguous slice of unallocated buffer elements starting
    /// at the given offset past the last allocated element, and up to the given size.
    pub fn get_unallocated<'b>(&'b mut self, offset: usize, size: usize) -> (r: &'b mut [T])
        requires
            old(self).wf(),
        ensures
            final(r)@.len() == r@.len() ==> final(self).wf(),
            r@.len() == if size < old(self).unalloc_room(offset as int) {
                size as nat
            } else {
                old(self).unalloc_room(offset as int)
            },
            r@ == old(self).storage_seq().subrange(
                old(self).unalloc_start(offset as int),
                old(self).unalloc_start(offset as int) + r@.len(),
            ),
            final(r)@.len() == r@.len() ==> final(self).storage_seq() == splice(
                old(self).storage_seq(),
                old(self).unalloc_start(offset as int),
                final(r)@,
            ),
            final(self).read_pos() == old(self).read_pos(),
            final(self).used() == old(self).used(),
            final(r)@.len() == r@.len() ==> final(self)@ == old(self)@,
    {
        let window = self.window();
        let ghost old_storage = self.storage@;
        let ghost old_self = *self;
        let (start_at, n) = if offset > window {
            (0, 0)
        } else {
            let start_at = self.get_idx(self.length + offset);
            let clamped_window = window - offset;
            let until_end = self.storage.len() - start_at;
            let mut n = size;
            if n > clamped_window {
                n = clamped_window;
            }
            if n > until_end {
                n = until_end;
            }
            (start_at, n)
        };
        proof {
            if offset <= window {
                self.lemma_splice_free(offset as int);
            }
        }
        let s = self.storage.as_mut_slice();
        let (_head, rest) = s.split_at_mut(start_at);
        let (slice, _tail) = rest.split_at_mut(n);
        proof {
            assert(slice@ =~= old_storage.subrange(start_at as int, start_at + n));
            assert(final(_head)@ == old_storage.subrange(0, start_at as int));
            assert(final(_tail)@ == old_storage.subrange(start_at + n, old_storage.len() as int));
            assert forall|x: Seq<T>| x.len() == n implies
                #[trigger] splice(old_storage, start_at as int, x)
                    == old_storage.subrange(0, start_at as int) + (x + old_storage.subrange(start_at + n, old_storage.len() as int))
                    && ring_view(splice(old_storage, start_at as int, x), old_self.read_pos(), old_self.used()) == old_self@ by {
                assert(old_storage.subrange(0, start_at as int) + (x + old_storage.subrange(start_at + n, old_storage.len() as int))
                    =~= splice(old_storage, start_at as int, x));
                if offset > window {
                    assert(splice(old_storage, start_at as int, x) =~= old_storage);
                }
            }
            assert(final(slice)@.len() == n ==> splice(old_storage, start_at as int, final(slice)@)
                == old_storage.subrange(0, start_at as int) + (final(slice)@ + old_storage.subrange(start_at + n, old_storage.len() as int)));
        }
        slice
    }

    /// Write as many elements from the given slice into unallocated buffer elements
    /// starting at the given offset past the last allocated element, and return
    /// the amount written.
    pub fn write_unallocated(&mut self, offset: usize, data: &[T]) -> (r: usize)
        where
            T: Copy,
        requires
            old(self).wf(),
        ensures
            final(self).wf(),
            r == if offset > old(self).free() {
                0
            } else if data@.len() < old(self).free() - offset {
                data@.len()
            } else {
                (old(self).free() - offset) as nat
            },
            r > 0 ==> final(self).storage_seq() == ring_write(
                old(self).storage_seq(),
                old(self).unalloc_start(offset as int),
                data@.take(r as int),
            ),
            r == 0 ==> final(self).storage_seq() == old(self).storage_seq(),
            final(self).read_pos() == old(self).read_pos(),
            final(self).used() == old(self).used(),
            final(self)@ == old(self)@,
    {
        let window = self.window();
        if offset > window {
            return 0;
        }
        let room = window - offset;
        let n = if data.len() < room {
            data.len()
        } else {
            room
        };
        if n == 0 {
            return 0;
        }
        let ghost base = *self;
        let cap = self.storage.len();
        let start = self.get_idx(self.length + offset);
        proof {
            assert(ring_write(base.storage_seq(), start as int, data@.take(n as int).take(0)) =~= base.storage_seq());
        }
        let mut k: usize = 0;
        while k < n
            invariant
                base.wf(),
                base.cap() == cap > 0,
                k <= n <= data@.len(),
                offset + n <= base.free(),
                start < cap,
                start == base.phys(base.used() + offset),
                self.storage@ == ring_write(base.storage_seq(), start as int, data@.take(n as int).take(k as int)),
                self.read_at == base.read_pos(),
                self.length == base.used(),
            decreases n - k,
        {
            proof {
                Self::lemma_ring_write_step(base.storage_seq(), start as int, data@.take(n as int), k as int);
                lemma_wrap(start + k, cap as int);
            }
            let to_end = cap - start;
            let p = if k < to_end {
                start + k
            } else {
                k - to_end
            };
            self.storage.set(p, data[k]);
            k = k + 1;
        }
        proof {
            assert(data@.take(n as int).take(n as int) =~= data@.take(n as int));
            base.lemma_ring_write_free(offset as int, data@.take(n as int));
        }
        n
    }

    /// Enqueue the given number of unallocated buffer elements.
    ///
    /// The count must not exceed the number of unallocated elements.
    pub fn enqueue_unallocated(&mut self, count: usize)
        requires
            old(self).wf(),
            count <= old(self).free(),
        ensures
            final(self).wf(),
            final(self).storage_seq() == old(self).storage_seq(),
            final(self).read_pos() == old(self).read_pos(),
            final(self).used() == old(self).used() + count,
            final(self)@ == ring_view(old(self).storage_seq(), old(self).read_pos(), (old(self).used() + count) as nat),
            final(self)@.take(old(self).used() as int) == old(self)@,
    {
        self.length = self.length + count;
        assert(self@.take(old(self).used() as int) =~= old(self)@);
    }

    /// Return the largest contiguous slice of allocated buffer elements starting
    /// at the given offset past the first allocated element, and up to the given size.
    pub fn get_allocated(&self, offset: usize, size: usize) -> (r: &[T])
        requires
            self.wf(),
        ensures
            r@.len() == if size < self.alloc_room(offset as int) {
                size as nat
            } else {
                self.alloc_room(offset as int)
            },
            offset <= self.used() ==> r@ == self@.subrange(offset as int, offset + r@.len()),
    {
        if offset > self.length {
            return &self.storage.as_slice()[0..0];
        }
        let start_at = self.get_idx(offset);
        let clamped_length = self.length - offset;
        let until_end = self.storage.len() - start_at;
        let mut n = size;
        if n > clamped_length {
            n = clamped_length;
        }
        if n > until_end {
            n = until_end;
        }
        proof {
            let c = self.cap() as int;
            if c > 0 {
                lemma_wrap(self.read_pos() + offset, c);
                assert forall|j: int| 0 <= j < n implies #[trigger] self@.subrange(offset as int, offset + n)[j]
                    == self.storage_seq()[start_at + j] by {
                    lemma_wrap(self.read_pos() + offset + j, c);
                }
            }
            assert(self.storage@.subrange(start_at as int, start_at + n) =~= self@.subrange(offset as int, offset + n));
        }
        &self.storage.as_slice()[start_at..start_at + n]
    }

    /// Read as many elements from allocated buffer elements into the given slice
    /// starting at the given offset past the first allocated element, and return
    /// the amount read.
    pub fn read_allocated(&mut self, offset: usize, data: &mut [T]) -> (r: usize)
        where
            T: Copy,
        requires
            old(self).wf(),
        ensures
            *final(self) == *old(self),
            r == if offset > old(self).used() {
                0
            } else if old(data)@.len() < old(self).used() - offset {
                old(data)@.len()
            } else {
                (old(self).used() - offset) as nat
            },
            offset <= old(self).used() ==> final(data)@ == old(self)@.subrange(offset as int, offset + r)
                + old(data)@.skip(r as int),
            offset > old(self).used() ==> final(data)@ == old(data)@,
    {
        let ghost old_data = data@;
        if offset > self.length {
            return 0;
        }
        let held = self.length - offset;
        let n = if data.len() < held {
            data.len()
        } else {
            held
        };
        let mut k: usize = 0;
        while k < n
            invariant
                self.wf(),
                offset + n <= self.used(),
                k <= n <= old_data.len(),
                data@.len() == old_data.len(),
                data@ == self@.subrange(offset as int, offset + k) + old_data.skip(k as int),
            decreases n - k,
        {
            let p = self.get_idx(offset + k);
            let v = self.storage[p];
            data[k] = v;
            assert(data@ =~= self@.subrange(offset as int, offset + k + 1) + old_data.skip(k + 1));
            k = k + 1;
        }
        n
    }

    /// Dequeue the given number of allocated buffer elements.
    ///
    /// The count must not exceed the number of allocated elements.
    pub fn dequeue_allocated(&mut self, count: usize)
        requires
            old(self).wf(),
            count <= old(self).used(),
        ensures
            final(self).wf(),
            final(self).storage_seq() == old(self).storage_seq(),
            final(self).read_pos() == old(self).advanced(count as int),
            final(self).used() == old(self).used() - count,
            final(self)@ == old(self)@.skip(count as int),
    {
        let ghost old_self = *self;
        let next = self.get_idx(count);
        proof {
            let c = self.cap() as int;
            if c > 0 {
                assert forall|i: int| 0 <= i < old_self.used() - count implies
                    #[trigger] ring_view(old_self.storage_seq(), next as int, (old_self.used() - count) as nat)[i]
                        == old_self@.skip(count as int)[i] by {
                    lemma_shift(old_self.read_pos(), count as int, i, c);
                    lemma_wrap(old_self.read_pos() + count + i, c);
                }
            }
            assert(ring_view(old_self.storage_seq(), next as int, (old_self.used() - count) as nat)
                =~= old_self@.skip(count as int));
        }
        self.length = self.length - count;
        self.read_at = next;
    }
}


/// Access to the oldest elements in place, for the containers built on this buffer.
impl<T> RingBuffer<T> {
    /// Return a reference to the oldest element, leaving it in the buffer.
    pub(crate) fn front_mut<'b>(&'b mut self) -> (r: &'b mut T)
        requires
            old(self).wf(),
            old(self).used() > 0,
        ensures
            final(self).wf(),
            *r == old(self)@[0],
            final(self).storage_seq() == old(self).storage_seq().update(old(self).read_pos(), *final(r)),
            final(self).read_pos() == old(self).read_pos(),
            final(self).used() == old(self).used(),
            final(self)@ == old(self)@.update(0, *final(r)),
    {
        proof {
            self.lemma_pop_view();
            lemma_wrap(self.read_pos(), self.cap() as int);
        }
        let read_at = self.read_at;
        &mut self.storage[read_at]
    }

    /// Return the largest contiguous slice of the oldest elements, up to the given
    /// size, leaving them in the buffer.
    pub(crate) fn front_many_mut<'b>(&'b mut self, size: usize) -> (r: &'b mut [T])
        requires
            old(self).wf(),
        ensures
            final(r)@.len() == r@.len() ==> final(self).wf(),
            r@.len() == if size < old(self).dequeue_room() {
                size as nat
            } else {
                old(self).dequeue_room()
            },
            r@ == old(self)@.take(r@.len() as int),
            final(r)@.len() == r@.len() ==> final(self).storage_seq() == splice(
                old(self).storage_seq(),
                old(self).read_pos(),
                final(r)@,
            ),
            final(self).read_pos() == old(self).read_pos(),
            final(self).used() == old(self).used(),
            final(r)@.len() == r@.len() ==> final(self)@ == final(r)@ + old(self)@.skip(r@.len() as int),
    {
        let capacity = self.storage.len();
        let to_end = capacity - self.read_at;
        let max_size = if self.length < to_end {
            self.length
        } else {
            to_end
        };
        let n = if size < max_size {
            size
        } else {
            max_size
        };
        let read_at = self.read_at;
        let ghost old_self = *self;
        let ghost old_storage = self.storage@;
        proof {
            if capacity > 0 {
                assert forall|i: int| 0 <= i < n implies #[trigger] old_storage.subrange(
                    read_at as int,
                    read_at + n,
                )[i] == self@.take(n as int)[i] by {
                    lemma_wrap(read_at + i, capacity as int);
                }
            }
            assert(old_storage.subrange(read_at as int, read_at + n) =~= self@.take(n as int));
        }
        let s = self.storage.as_mut_slice();
        let (_head, rest) = s.split_at_mut(read_at);
        let (window, _tail) = rest.split_at_mut(n);
        proof {
            assert(window@ =~= old_storage.subrange(read_at as int, read_at + n));
            assert(final(_head)@ == old_storage.subrange(0, read_at as int));
            assert(final(_tail)@ == old_storage.subrange(read_at + n, old_storage.len() as int));
            assert forall|x: Seq<T>| x.len() == n implies
                #[trigger] splice(old_storage, read_at as int, x)
                    == old_storage.subrange(0, read_at as int) + (x + old_storage.subrange(read_at + n, old_storage.len() as int))
                    && ring_view(splice(old_storage, read_at as int, x), read_at as int, old_self.used())
                    == x + old_self@.skip(n as int) by {
                assert(old_storage.subrange(0, read_at as int) + (x + old_storage.subrange(read_at + n, old_storage.len() as int))
                    =~= splice(old_storage, read_at as int, x));
                let c = capacity as int;
                let w = ring_view(splice(old_storage, read_at as int, x), read_at as int, old_self.used());
                if c > 0 {
                    assert forall|i: int| 0 <= i < old_self.used() implies #[trigger] w[i] == (x + old_self@.skip(n as int))[i] by {
                        lemma_wrap(read_at + i, c);
                    }
                }
                assert(w =~= x + old_self@.skip(n as int));
            }
            assert(final(window)@.len() == n ==> splice(old_storage, read_at as int, final(window)@)
                == old_storage.subrange(0, read_at as int) + (final(window)@ + old_storage.subrange(read_at + n, old_storage.len() as int)));
        }
        window
    }
}

/// The elements held and the room left always make up the capacity, and the
/// contiguous room never exceeds the room left.
pub proof fn law_len_window<T>(rb: RingBuffer<T>)
    requires
        rb.wf(),
    ensures
        rb@.len() + rb.free() == rb.cap(),
        rb.contig() <= rb.free(),
        rb.enqueue_room() <= rb.free(),
        rb.dequeue_room() <= rb@.len(),
{
    rb.lemma_view();
}

/// An empty buffer offers its whole storage to the contiguous enqueue interface: an
/// empty buffer restarts at the beginning of its storage.
pub proof fn law_empty_offers_whole_storage<T>(rb: RingBuffer<T>)
    requires
        rb.wf(),
        rb@.len() == 0,
    ensures
        rb.enqueue_room() == rb.cap(),
{
    rb.lemma_view();
    if rb.cap() > 0 {
        lemma_wrap(0, rb.cap() as int);
    }
}

/// The random-access read interface offers, `offset` elements past the oldest one, the
/// run of held elements that starts at that element's cell and goes up to the last
/// held element or the end of the storage, whichever comes first; so it offers at
/// least one element whenever one is held there, wrapped past the end of the storage
/// or not.
pub proof fn law_allocated_run<T>(rb: RingBuffer<T>, offset: int)
    requires
        rb.wf(),
        0 <= offset <= rb@.len(),
    ensures
        offset < rb@.len() ==> rb.alloc_room(offset) >= 1,
        rb.cap() > 0 ==> {
            let start = (rb.read_pos() + offset) % (rb.cap() as int);
            &&& rb.alloc_room(offset) <= rb@.len() - offset
            &&& rb.alloc_room(offset) <= rb.cap() - start
            &&& (rb.alloc_room(offset) == rb@.len() - offset || rb.alloc_room(offset) == rb.cap() - start)
        },
{
    rb.lemma_view();
    if rb.cap() > 0 {
        let c = rb.cap() as int;
        let x = rb.read_pos() + offset;
        assert(0 <= x % c < c) by (nonlinear_arith)
            requires
                c > 0,
                x >= 0,
        ;
    }
}

/// The random-access write interface offers, `offset` free cells past the last held
/// element, the run of free cells that starts there and goes up to the last free cell
/// or the end of the storage, whichever comes first; so it offers at least one cell
/// whenever one is free there.
pub proof fn law_unallocated_run<T>(rb: RingBuffer<T>, offset: int)
    requires
        rb.wf(),
        0 <= offset <= rb.free(),
    ensures
        offset < rb.free() ==> rb.unalloc_room(offset) >= 1,
        rb.cap() > 0 ==> {
            let start = (rb.read_pos() + rb@.len() + offset) % (rb.cap() as int);
            &&& rb.unalloc_room(offset) <= rb.free() - offset
            &&& rb.unalloc_room(offset) <= rb.cap() - start
            &&& (rb.unalloc_room(offset) == rb.free() - offset || rb.unalloc_room(offset) == rb.cap() - start)
        },
{
    rb.lemma_view();
    if rb.cap() > 0 {
        let c = rb.cap() as int;
        let x = rb.read_pos() + rb@.len() + offset;
        assert(0 <= x % c < c) by (nonlinear_arith)
            requires
                c > 0,
                x >= 0,
        ;
    }
}


/// The contiguous interfaces offer the run of held elements from the oldest one up to
/// the last held one or the end of the storage, and the run of free cells from the first
/// free one (from the start of the storage when nothing is held) up to the last free one
/// or the end of the storage; so each offers at least one element whenever there is one.
pub proof fn law_contiguous_runs<T>(rb: RingBuffer<T>)
    requires
        rb.wf(),
    ensures
        rb@.len() > 0 ==> rb.dequeue_room() >= 1,
        rb.free() > 0 ==> rb.enqueue_room() >= 1 && rb.contig() >= 1,
        rb.cap() > 0 ==> {
            let c = rb.cap() as int;
            let ws = if rb@.len() == 0 {
                0
            } else {
                (rb.read_pos() + rb@.len()) % c
            };
            let we = (rb.read_pos() + rb@.len()) % c;
            &&& rb.enqueue_room() <= rb.free() && rb.enqueue_room() <= c - ws
            &&& (rb.enqueue_room() == rb.free() || rb.enqueue_room() == c - ws)
            &&& rb.contig() <= rb.free() && rb.contig() <= c - we
            &&& (rb.contig() == rb.free() || rb.contig() == c - we)
            &&& rb.dequeue_room() <= rb@.len() && rb.dequeue_room() <= c - rb.read_pos()
            &&& (rb.dequeue_room() == rb@.len() || rb.dequeue_room() == c - rb.read_pos())
        },
{
    rb.lemma_view();
    if rb.cap() > 0 {
        let c = rb.cap() as int;
        let x = rb.read_pos() + rb@.len();
        assert(0 <= x % c < c) by (nonlinear_arith)
            requires
                c > 0,
                x >= 0,
        ;
        assert(0int % c == 0) by (nonlinear_arith)
            requires
                c > 0,
        ;
        assert(rb.write_start() == if rb@.len() == 0 { 0 } else { x % c });
    }
}

} // verus!
