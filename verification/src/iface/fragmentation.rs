//! Reassembly of packets that arrive in fragments.

use vstd::prelude::*;

use crate::config::{FRAGMENTATION_BUFFER_SIZE, REASSEMBLY_BUFFER_COUNT};
use crate::storage::Assembler;
use crate::time::Instant;
use crate::wire::bytes::{copy_at, write_at, zeros};
use crate::wire::ethernet::Address as EthernetAddress;
use crate::wire::ieee802154::Address as Ieee802154Address;
use crate::wire::ip::IpProtocol;
use crate::wire::ipv4::{Address as Ipv4Address, Repr as Ipv4Repr};

verus! {

/// Problem when assembling: something was out of bounds.
#[derive(Copy, Clone, PartialEq, Eq, Debug, Structural)]
pub struct AssemblerError;

/// Packet assembler is full
#[derive(Copy, Clone, PartialEq, Eq, Debug, Structural)]
pub struct AssemblerFullError;

/// `s` lengthened with zeros to at least `n` bytes.
pub open spec fn pad_to(s: Seq<u8>, n: int) -> Seq<u8> {
    if s.len() >= n {
        s
    } else {
        s + Seq::new((n - s.len()) as nat, |i: int| 0u8)
    }
}

/// Holds different fragments of one packet, used for assembling fragmented packets.
///
/// The buffer grows to the size of the packet being reassembled.
#[derive(Debug)]
pub struct PacketAssembler<K> {
    key: Option<K>,
    buffer: Vec<u8>,
    assembler: Assembler,
    total_size: Option<usize>,
    expires_at: Instant,
}

impl<K> PacketAssembler<K> {
    /// The key of the packet being reassembled, if the assembler is in use.
    pub closed spec fn key_view(&self) -> Option<K> {
        self.key
    }

    /// The bytes received so far, in place; bytes not received are zero or left over
    /// from an earlier packet.
    pub closed spec fn data(&self) -> Seq<u8> {
        self.buffer@
    }

    /// The offsets of the bytes received so far.
    pub closed spec fn received(&self) -> Set<int> {
        self.assembler.view_set()
    }

    /// Whether the bytes received from offset 0 on run up to offset `n`, and no further.
    pub open spec fn is_front_len(&self, n: int) -> bool {
        &&& 0 <= n
        &&& forall|i: int| 0 <= i < n ==> #[trigger] self.received().contains(i)
        &&& !self.received().contains(n)
    }

    /// The total size of the packet, once it is known.
    pub closed spec fn total_size_view(&self) -> Option<usize> {
        self.total_size
    }

    /// When the reassembly expires.
    pub closed spec fn expires_view(&self) -> Instant {
        self.expires_at
    }

    /// The assembler's invariant: a known total size fits in the buffer.
    pub open spec fn wf(&self) -> bool {
        self.total_size_view() matches Some(t) ==> t <= self.data().len()
    }

    /// Whether the whole packet is there: its total size is known and the bytes received
    /// from offset 0 on run exactly up to it.
    pub open spec fn is_complete_spec(&self) -> bool {
        self.total_size_view() matches Some(t) && self.is_front_len(t as int)
    }

    /// Whether a free assembler holds nothing of a packet: no total size and no byte
    /// received. `new`, `reset` and `assemble` leave it so.
    pub open spec fn idle_is_empty(&self) -> bool {
        self.key_view() is None ==> self.total_size_view() is None && self.received() == Set::<int>::empty()
    }

    /// Whether this assembler is `old` after `reset`: free, with nothing received and no
    /// total size, expiring at the epoch; the buffer stays.
    pub open spec fn is_reset_of(&self, old: Self) -> bool {
        &&& self.key_view() is None
        &&& self.received() == Set::<int>::empty()
        &&& self.total_size_view() is None
        &&& self.expires_view().micros_view() == 0
        &&& self.data() == old.data()
    }

    /// Create a new empty fragmented packet.
    pub fn new() -> (r: Self)
        ensures
            r.wf(),
            r.key_view() is None,
            r.data() == Seq::<u8>::empty(),
            r.received() == Set::<int>::empty(),
            r.total_size_view() is None,
            r.expires_view().micros_view() == 0,
    {
        Self {
            key: None,
            buffer: Vec::new(),
            assembler: Assembler::new(),
            total_size: None,
            expires_at: Instant::zero(),
        }
    }

    /// Free the assembler for another packet: forget the key, the bytes received and
    /// the total size.
    pub fn reset(&mut self)
        ensures
            final(self).wf(),
            final(self).is_reset_of(*old(self)),
    {
        self.key = None;
        self.assembler.clear();
        self.total_size = None;
        self.expires_at = Instant::zero();
    }

    /// Set the total size of the packet assembler, growing the buffer to hold it.
    ///
    /// Returns `Err(AssemblerError)` if a different total size was set before.
    pub fn set_total_size(&mut self, size: usize) -> (r: Result<(), AssemblerError>)
        requires
            old(self).wf(),
        ensures
            final(self).wf(),
            r is Err <==> (old(self).total_size_view() matches Some(t) && t != size),
            r is Err ==> *final(self) == *old(self),
            r is Ok ==> {
                &&& final(self).total_size_view() == Some(size)
                &&& final(self).data() == pad_to(old(self).data(), size as int)
                &&& final(self).received() == old(self).received()
                &&& final(self).key_view() == old(self).key_view()
                &&& final(self).expires_view() == old(self).expires_view()
            },
    {
        if let Some(old_size) = self.total_size {
            if old_size != size {
                return Err(AssemblerError);
            }
        }
        let ghost d0 = self.buffer@;
        let ghost key0 = self.key;
        let ghost asm0 = self.assembler;
        let ghost ts0 = self.total_size;
        let ghost exp0 = self.expires_at;
        while self.buffer.len() < size
            invariant
                self.key == key0,
                self.assembler == asm0,
                self.total_size == ts0,
                self.expires_at == exp0,
                self.buffer@.len() <= d0.len() || self.buffer@.len() <= size,
                self.buffer@ == pad_to(d0, self.buffer@.len() as int),
                self.buffer@.len() >= d0.len(),
            decreases size - self.buffer@.len(),
        {
            self.buffer.push(0);
            assert(self.buffer@ =~= pad_to(d0, self.buffer@.len() as int));
        }
        assert(self.buffer@ =~= pad_to(d0, size as int));
        self.total_size = Some(size);
        Ok(())
    }

    /// Return the instant when the assembler expires.
    pub fn expires_at(&self) -> (r: Instant)
        ensures
            r == self.expires_view(),
    {
        self.expires_at
    }

    /// Hand `f` the buffer from `offset` on, and record the number of bytes it reports
    /// written as received. An error of `f` is passed on, with nothing recorded.
    ///
    /// `f` must not report more bytes than it was given.
    pub fn add_with<F>(&mut self, offset: usize, f: F) -> (r: Result<(), AssemblerError>)
        where
            F: FnOnce(&mut [u8]) -> Result<usize, AssemblerError>,
        requires
            old(self).wf(),
            forall|s: &mut [u8]| call_requires(f, (s,)),
            forall|s: &mut [u8], res: Result<usize, AssemblerError>|
                call_ensures(f, (s,), res) ==> final(s)@.len() == s@.len() && (res matches Ok(n) ==> n <= s@.len()),
        ensures
            final(self).wf(),
            old(self).data().len() < offset ==> r is Err && *final(self) == *old(self),
            old(self).data().len() >= offset ==> exists|s: &mut [u8], res: Result<usize, AssemblerError>|
                {
                    &&& s@ == old(self).data().skip(offset as int)
                    &&& #[trigger] call_ensures(f, (s,), res)
                    &&& final(self).data() == old(self).data().take(offset as int) + final(s)@
                    &&& r is Ok <==> res is Ok
                    &&& res matches Ok(n) ==> final(self).received() == old(self).received().union(
                        Set::new(|i: int| offset <= i < offset + n),
                    )
                    &&& res is Err ==> final(self).received() == old(self).received()
                },
            final(self).key_view() == old(self).key_view(),
            final(self).total_size_view() == old(self).total_size_view(),
            final(self).expires_view() == old(self).expires_view(),
    {
        if self.buffer.len() < offset {
            return Err(AssemblerError);
        }
        let ghost d0 = self.buffer@;
        let s = self.buffer.as_mut_slice();
        let (head, rest) = s.split_at_mut(offset);
        let res = f(rest);
        proof {
            assert(final(head)@ == d0.take(offset as int));
        }
        let len = match res {
            Ok(len) => len,
            Err(e) => {
                assert(self.buffer@ == d0.take(offset as int) + final(rest)@);
                return Err(e);
            },
        };
        self.assembler.add(offset, len);
        Ok(())
    }

    /// Add a fragment into the packet that is being reassembled, growing the buffer
    /// with zeros when the fragment reaches past its end.
    pub fn add(&mut self, data: &[u8], offset: usize) -> (r: Result<(), AssemblerError>)
        requires
            old(self).wf(),
            offset + data@.len() <= usize::MAX,
        ensures
            final(self).wf(),
            r is Ok,
            final(self).data() == write_at(pad_to(old(self).data(), offset + data@.len()), offset as int, data@),
            final(self).received() == old(self).received().union(
                Set::new(|i: int| offset <= i < offset + data@.len()),
            ),
            final(self).key_view() == old(self).key_view(),
            final(self).total_size_view() == old(self).total_size_view(),
            final(self).expires_view() == old(self).expires_view(),
    {
        let end = offset + data.len();
        let ghost d0 = self.buffer@;
        let ghost key0 = self.key;
        let ghost asm0 = self.assembler;
        let ghost ts0 = self.total_size;
        let ghost exp0 = self.expires_at;
        while self.buffer.len() < end
            invariant
                self.key == key0,
                self.assembler == asm0,
                self.total_size == ts0,
                self.expires_at == exp0,
                self.buffer@.len() >= d0.len(),
                self.buffer@.len() <= d0.len() || self.buffer@.len() <= end,
                self.buffer@ == pad_to(d0, self.buffer@.len() as int),
                end == offset + data@.len(),
            decreases end - self.buffer@.len(),
        {
            self.buffer.push(0);
            assert(self.buffer@ =~= pad_to(d0, self.buffer@.len() as int));
        }
        assert(self.buffer@ =~= pad_to(d0, end as int));
        copy_at(&mut self.buffer, offset, data);
        self.assembler.add(offset, data.len());
        Ok(())
    }

    /// Get an immutable slice of the underlying packet data, if reassembly is complete,
    /// and reset the assembler for reuse; return `None` if it is not complete.
    pub fn assemble(&mut self) -> (r: Option<&[u8]>)
        requires
            old(self).wf(),
        ensures
            final(self).wf(),
            r is Some <==> old(self).is_complete_spec(),
            r is None ==> *final(self) == *old(self),
            r matches Some(d) ==> {
                &&& d@ == old(self).data().take(old(self).total_size_view()->Some_0 as int)
                &&& final(self).is_reset_of(*old(self))
            },
    {
        if !self.is_complete() {
            return None;
        }
        // `is_complete` already checked that the total size is known.
        let total_size = match self.total_size {
            Some(t) => t,
            None => {
                return None;
            },
        };
        self.reset();
        Some(&self.buffer.as_slice()[0..total_size])
    }

    /// Returns `true` when all fragments have been received, otherwise `false`.
    pub fn is_complete(&self) -> (r: bool)
        ensures
            r == self.is_complete_spec(),
    {
        let front = self.assembler.peek_front();
        proof {
            if let Some(t) = self.total_size {
                if self.assembler.is_front_len(t as int) {
                    crate::storage::assembler::lemma_front_len_unique(self.assembler, t as int, front as int);
                }
            }
        }
        match self.total_size {
            Some(t) => t == front,
            None => false,
        }
    }

    /// Returns `true` when the packet assembler is free to use.
    fn is_free(&self) -> (r: bool)
        ensures
            r == self.key_view() is None,
    {
        self.key.is_none()
    }
}

/// Whether slot `i` of `s` is the first that reassembles the packet with key `k`.
pub open spec fn is_first_with_key<K>(s: Seq<PacketAssembler<K>>, k: K, i: int) -> bool {
    &&& 0 <= i < s.len()
    &&& s[i].key_view() == Some(k)
    &&& forall|j: int| 0 <= j < i ==> #[trigger] s[j].key_view() != Some(k)
}

/// Whether slot `i` of `s` is the last free one.
pub open spec fn is_last_free<K>(s: Seq<PacketAssembler<K>>, i: int) -> bool {
    &&& 0 <= i < s.len()
    &&& s[i].key_view() is None
    &&& forall|j: int| i < j < s.len() ==> #[trigger] s[j].key_view() is Some
}

/// Whether no two slots of `s` reassemble the packet with the same key.
pub open spec fn keys_unique<K>(s: Seq<PacketAssembler<K>>) -> bool {
    forall|i: int, j: int|
        0 <= i < s.len() && 0 <= j < s.len() && i != j && (#[trigger] s[i].key_view()) is Some ==> s[i].key_view()
            != #[trigger] s[j].key_view()
}

/// Freeing a slot keeps the keys unique.
proof fn lemma_free_keeps_unique<K>(s: Seq<PacketAssembler<K>>, i: int, x: PacketAssembler<K>)
    requires
        keys_unique(s),
        0 <= i < s.len(),
        x.key_view() is None,
    ensures
        keys_unique(s.update(i, x)),
{
    let t = s.update(i, x);
    assert forall|a: int, b: int|
        0 <= a < t.len() && 0 <= b < t.len() && a != b && (#[trigger] t[a].key_view()) is Some implies t[a].key_view()
            != #[trigger] t[b].key_view() by {
        if b != i {
            assert(s[a].key_view() != s[b].key_view());
        }
    }
}

/// Putting into the slot that `get` hands out for `k` an assembler that is well formed,
/// empty when free, and free or keyed `k`, keeps the slots' invariant.
proof fn lemma_handed_out_keeps_wf<K>(s: Seq<PacketAssembler<K>>, i: int, k: K, x: PacketAssembler<K>)
    requires
        slots_wf(s),
        0 <= i < s.len(),
        is_first_with_key(s, k, i) || (!has_key(s, k) && s[i].key_view() is None),
        x.wf(),
        x.idle_is_empty(),
        x.key_view() is None || x.key_view() == Some(k),
    ensures
        slots_wf(s.update(i, x)),
{
    let t = s.update(i, x);
    assert forall|j: int| 0 <= j < t.len() implies #[trigger] t[j].wf() && t[j].idle_is_empty() by {
        if j != i {
            assert(s[j].wf());
            assert(s[j].idle_is_empty());
        }
    }
    assert forall|a: int, b: int|
        0 <= a < t.len() && 0 <= b < t.len() && a != b && (#[trigger] t[a].key_view()) is Some implies t[a].key_view()
            != #[trigger] t[b].key_view() by {
        if a == i {
            if is_first_with_key(s, k, i) {
                if b > i {
                    assert(s[i].key_view() != s[b].key_view());
                } else {
                    assert(s[b].key_view() != Some(k));
                }
            } else {
                assert(!(0 <= b < s.len() && s[b].key_view() == Some(k)));
            }
        } else if b == i {
            if x.key_view() == Some(k) {
                if is_first_with_key(s, k, i) {
                    if a > i {
                        assert(s[a].key_view() != s[i].key_view());
                    } else {
                        assert(s[a].key_view() != Some(k));
                    }
                } else {
                    assert(!(0 <= a < s.len() && s[a].key_view() == Some(k)));
                }
            }
        } else {
            assert(s[a].key_view() != s[b].key_view());
        }
    }
}

/// The invariant of the slots of a set: a fixed number of them, each well formed and,
/// when free, empty; and no two reassemble the packet with the same key.
pub open spec fn slots_wf<K>(s: Seq<PacketAssembler<K>>) -> bool {
    &&& s.len() == REASSEMBLY_BUFFER_COUNT
    &&& forall|i: int| 0 <= i < s.len() ==> #[trigger] s[i].wf()
    &&& forall|i: int| 0 <= i < s.len() ==> #[trigger] s[i].idle_is_empty()
    &&& keys_unique(s)
}

/// Whether some slot of `s` reassembles the packet with key `k`.
pub open spec fn has_key<K>(s: Seq<PacketAssembler<K>>, k: K) -> bool {
    exists|i: int| 0 <= i < s.len() && #[trigger] s[i].key_view() == Some(k)
}

/// Whether some slot of `s` is free.
pub open spec fn has_free<K>(s: Seq<PacketAssembler<K>>) -> bool {
    exists|i: int| 0 <= i < s.len() && (#[trigger] s[i].key_view()) is None
}

/// The slot that `get` hands out for the key `k`: the first that reassembles the
/// packet with that key, or else the last free one.
pub open spec fn slot_for<K>(s: Seq<PacketAssembler<K>>, k: K) -> int {
    if has_key(s, k) {
        choose|i: int| is_first_with_key(s, k, i)
    } else {
        choose|i: int| is_last_free(s, i)
    }
}

/// The first slot with a key is the only one.
proof fn lemma_first_with_key_unique<K>(s: Seq<PacketAssembler<K>>, k: K, i: int, j: int)
    requires
        is_first_with_key(s, k, i),
        is_first_with_key(s, k, j),
    ensures
        i == j,
{
    if i < j {
        assert(s[i].key_view() != Some(k));
    } else if j < i {
        assert(s[j].key_view() != Some(k));
    }
}

/// The last free slot is the only one.
proof fn lemma_last_free_unique<K>(s: Seq<PacketAssembler<K>>, i: int, j: int)
    requires
        is_last_free(s, i),
        is_last_free(s, j),
    ensures
        i == j,
{
    if i < j {
        assert(s[j].key_view() is Some);
    } else if j < i {
        assert(s[i].key_view() is Some);
    }
}

/// Set holding multiple [`PacketAssembler`].
#[derive(Debug)]
pub struct PacketAssemblerSet<K: Eq + Copy> {
    assemblers: Vec<PacketAssembler<K>>,
}

impl<K: Eq + Copy> PacketAssemblerSet<K> {
    /// The assemblers, slot by slot.
    pub closed spec fn slots(&self) -> Seq<PacketAssembler<K>> {
        self.assemblers@
    }

    /// The set's invariant: a fixed number of slots, each well formed and, when free,
    /// empty; and no two slots reassemble the packet with the same key.
    pub open spec fn wf(&self) -> bool {
        slots_wf(self.slots())
    }

    /// Create a new set of packet assemblers, all of them free and empty.
    pub fn new() -> (r: Self)
        ensures
            r.wf(),
            forall|i: int| 0 <= i < r.slots().len() ==> {
                &&& (#[trigger] r.slots()[i]).key_view() is None
                &&& r.slots()[i].total_size_view() is None
                &&& r.slots()[i].received() == Set::<int>::empty()
                &&& r.slots()[i].data() == Seq::<u8>::empty()
                &&& r.slots()[i].expires_view().micros_view() == 0
            },
    {
        let mut assemblers: Vec<PacketAssembler<K>> = Vec::new();
        let mut i: usize = 0;
        while i < REASSEMBLY_BUFFER_COUNT
            invariant
                i <= REASSEMBLY_BUFFER_COUNT,
                assemblers@.len() == i,
                forall|j: int| 0 <= j < i ==> {
                    &&& (#[trigger] assemblers@[j]).wf()
                    &&& assemblers@[j].key_view() is None
                    &&& assemblers@[j].total_size_view() is None
                    &&& assemblers@[j].received() == Set::<int>::empty()
                    &&& assemblers@[j].data() == Seq::<u8>::empty()
                    &&& assemblers@[j].expires_view().micros_view() == 0
                },
            decreases REASSEMBLY_BUFFER_COUNT - i,
        {
            assemblers.push(PacketAssembler::new());
            i = i + 1;
        }
        Self { assemblers }
    }

    /// The slot `get` hands out for `key`, and whether it already reassembles the packet
    /// with that key; `Err` when no slot has the key and none is free.
    ///
    /// Keys are compared with their `==`; where Verus knows that it is the equality of
    /// values, the slot is the one `slot_for` names.
    fn find_slot(&self, key: &K) -> (r: Result<(usize, bool), AssemblerFullError>)
        ensures
            r is Err ==> !has_free(self.slots()),
            r matches Ok((i, found)) ==> i < self.slots().len() && (!found ==> is_last_free(self.slots(), i as int)),
            vstd::laws_eq::obeys_concrete_eq::<K>() ==> {
                &&& r is Err <==> !has_key(self.slots(), *key) && !has_free(self.slots())
                &&& r matches Ok((i, found)) ==> {
                    &&& found == has_key(self.slots(), *key)
                    &&& found ==> is_first_with_key(self.slots(), *key, i as int)
                }
            },
    {
        proof {
            reveal(vstd::laws_eq::obeys_concrete_eq);
        }
        let ghost s0 = self.assemblers@;
        let mut empty_slot: Option<usize> = None;
        let n = self.assemblers.len();
        let mut i: usize = 0;
        while i < n
            invariant
                n == s0.len(),
                self.assemblers@ == s0,
                i <= n,
                vstd::laws_eq::obeys_concrete_eq::<K>() ==> forall|j: int| 0 <= j < i ==> #[trigger] s0[j].key_view() != Some(*key),
                empty_slot matches Some(e) ==> e < i && s0[e as int].key_view() is None
                    && forall|j: int| e < j < i ==> (#[trigger] s0[j]).key_view() is Some,
                empty_slot is None ==> forall|j: int| 0 <= j < i ==> (#[trigger] s0[j]).key_view() is Some,
            decreases n - i,
        {
            proof {
                reveal(vstd::laws_eq::obeys_concrete_eq);
            }
            let matches = match &self.assemblers[i].key {
                Some(k) => *k == *key,
                None => false,
            };
            if matches {
                proof {
                    if vstd::laws_eq::obeys_concrete_eq::<K>() {
                        assert(s0[i as int].key_view() == Some(*key));
                        assert(is_first_with_key(s0, *key, i as int));
                    }
                }
                return Ok((i, true));
            }
            if self.assemblers[i].is_free() {
                empty_slot = Some(i);
            }
            i = i + 1;
        }
        match empty_slot {
            Some(e) => {
                assert(is_last_free(s0, e as int));
                Ok((e, false))
            },
            None => Err(AssemblerFullError),
        }
    }

    /// Get a [`PacketAssembler`] for a specific key: the first that reassembles the
    /// packet with that key; otherwise the last free one, which takes the key and
    /// the `expires_at` timestamp.
    ///
    /// If the assembler set is full, an error is returned.
    ///
    /// Keys are compared with their `==`; what this states of the slot handed out holds
    /// where Verus knows that `==` is the equality of values.
    pub fn get<'b>(&'b mut self, key: &K, expires_at: Instant) -> (r: Result<&'b mut PacketAssembler<K>, AssemblerFullError>)
        requires
            old(self).wf(),
        ensures
            r is Err ==> final(self).slots() == old(self).slots(),
            r is Err ==> !has_free(old(self).slots()),
            vstd::laws_eq::obeys_concrete_eq::<K>() ==> (r is Err <==> !has_key(old(self).slots(), *key) && !has_free(
                old(self).slots(),
            )),
            r matches Ok(a) ==> vstd::laws_eq::obeys_concrete_eq::<K>() ==> {
                let s = old(self).slots();
                let i = slot_for(s, *key);
                &&& 0 <= i < s.len()
                &&& final(self).slots() == s.update(i, *final(a))
                &&& final(a).wf() && final(a).idle_is_empty() && (final(a).key_view() is None
                    || final(a).key_view() == Some(*key)) ==> final(self).wf()
                &&& a.wf()
                &&& has_key(s, *key) ==> *a == s[i]
                &&& !has_key(s, *key) ==> {
                    &&& a.key_view() == Some(*key)
                    &&& a.expires_view() == expires_at
                    &&& a.data() == s[i].data()
                    &&& a.received() == Set::<int>::empty()
                    &&& a.total_size_view() is None
                }
            },
    {
        let ghost s0 = self.assemblers@;
        let (index, found) = match self.find_slot(key) {
            Ok(x) => x,
            Err(e) => {
                return Err(e);
            },
        };
        proof {
            if vstd::laws_eq::obeys_concrete_eq::<K>() {
                if found {
                    lemma_first_with_key_unique(s0, *key, index as int, slot_for(s0, *key));
                } else {
                    lemma_last_free_unique(s0, index as int, slot_for(s0, *key));
                }
                assert(s0[index as int].wf());
                assert(s0[index as int].idle_is_empty());
                assert forall|x: PacketAssembler<K>|
                    x.wf() && x.idle_is_empty() && (x.key_view() is None || x.key_view() == Some(*key)) implies
                    #[trigger] slots_wf(s0.update(index as int, x)) by {
                    lemma_handed_out_keeps_wf(s0, index as int, *key, x);
                }
            }
        }
        let slot = &mut self.assemblers[index];
        if !found {
            slot.key = Some(*key);
            slot.expires_at = expires_at;
        }
        Ok(slot)
    }

    /// Remove all [`PacketAssembler`]s that are expired: those in use whose expiry lies
    /// before `timestamp`.
    pub fn remove_expired(&mut self, timestamp: Instant)
        requires
            old(self).wf(),
        ensures
            final(self).wf(),
            forall|i: int| 0 <= i < old(self).slots().len() ==> {
                let a = #[trigger] old(self).slots()[i];
                if a.key_view() is Some && a.expires_view().micros_view() < timestamp.micros_view() {
                    final(self).slots()[i].is_reset_of(a)
                } else {
                    final(self).slots()[i] == a
                }
            },
    {
        let ghost s0 = self.assemblers@;
        let n = self.assemblers.len();
        let mut i: usize = 0;
        while i < n
            invariant
                n == s0.len(),
                self.assemblers@.len() == n,
                i <= n,
                n == REASSEMBLY_BUFFER_COUNT,
                forall|j: int| 0 <= j < n ==> (#[trigger] self.assemblers@[j]).wf(),
                forall|j: int| 0 <= j < n ==> (#[trigger] self.assemblers@[j]).idle_is_empty(),
                keys_unique(self.assemblers@),
                forall|j: int| i <= j < n ==> #[trigger] self.assemblers@[j] == s0[j],
                forall|j: int| 0 <= j < i ==> {
                    let a = #[trigger] s0[j];
                    if a.key_view() is Some && a.expires_view().micros_view() < timestamp.micros_view() {
                        self.assemblers@[j].is_reset_of(a)
                    } else {
                        self.assemblers@[j] == a
                    }
                },
            decreases n - i,
        {
            let ghost s1 = self.assemblers@;
            let frag = &mut self.assemblers[i];
            if !frag.is_free() && frag.expires_at.total_micros() < timestamp.total_micros() {
                frag.reset();
            }
            proof {
                if self.assemblers@[i as int] != s1[i as int] {
                    lemma_free_keeps_unique(s1, i as int, self.assemblers@[i as int]);
                    assert(self.assemblers@ == s1.update(i as int, self.assemblers@[i as int]));
                } else {
                    assert(self.assemblers@ =~= s1);
                }
            }
            i = i + 1;
        }
    }
}

/// Max len of non-fragmented packets after decompression (including ipv6 header and payload).
pub const MAX_DECOMPRESSED_LEN: usize = 1500;

/// The state of a packet being sent in fragments: the unfragmented packet, how much
/// of it has gone out, and what the IPv4 and 6LoWPAN fragment headers carry.
pub struct Fragmenter {
    /// The buffer that holds the unfragmented packet.
    pub buffer: Vec<u8>,
    /// The size of the packet without the link-layer header and the fragmentation headers.
    pub packet_len: usize,
    /// The amount of bytes that already have been transmitted.
    pub sent_bytes: usize,
    /// The state of IPv4 fragmentation.
    pub ipv4: Ipv4Fragmenter,
    /// The state of 6LoWPAN fragmentation.
    pub sixlowpan: SixlowpanFragmenter,
}

/// The state of IPv4 fragmentation.
pub struct Ipv4Fragmenter {
    /// The IPv4 representation.
    pub repr: Ipv4Repr,
    /// The destination hardware address.
    pub dst_hardware_addr: EthernetAddress,
    /// The offset of the next fragment.
    pub frag_offset: u16,
    /// The identifier of the stream.
    pub ident: u16,
}

/// The state of 6LoWPAN fragmentation.
pub struct SixlowpanFragmenter {
    /// The datagram size that is used for the fragmentation headers.
    pub datagram_size: u16,
    /// The datagram tag that is used for the fragmentation headers.
    pub datagram_tag: u16,
    /// The offset of the next fragment in the datagram.
    pub datagram_offset: usize,
    /// The size of the FRAG_N packets.
    pub fragn_size: usize,
    /// The link layer IEEE802.15.4 destination address.
    pub ll_dst_addr: Ieee802154Address,
    /// The link layer IEEE802.15.4 source address.
    pub ll_src_addr: Ieee802154Address,
}

/// Whether `r` is the blank IPv4 header that a fragmenter starts with: addresses
/// 0.0.0.0, protocol number 0, no payload, hop limit 0.
pub open spec fn is_blank_ipv4_repr(r: Ipv4Repr) -> bool {
    &&& r.src_addr.octets_view() == seq![0u8, 0u8, 0u8, 0u8]
    &&& r.dst_addr.octets_view() == seq![0u8, 0u8, 0u8, 0u8]
    &&& r.next_header == IpProtocol::Unknown(0)
    &&& r.payload_len == 0
    &&& r.hop_limit == 0
}

/// The all-zero hardware address that a fragmenter starts with.
pub open spec fn is_blank_hardware_addr(a: EthernetAddress) -> bool {
    a.0@ == seq![0u8, 0u8, 0u8, 0u8, 0u8, 0u8]
}

/// The blank IPv4 header.
fn blank_ipv4_repr() -> (r: Ipv4Repr)
    ensures
        is_blank_ipv4_repr(r),
{
    Ipv4Repr {
        src_addr: Ipv4Address::new(0, 0, 0, 0),
        dst_addr: Ipv4Address::new(0, 0, 0, 0),
        next_header: IpProtocol::Unknown(0),
        payload_len: 0,
        hop_limit: 0,
    }
}

/// The all-zero hardware address.
fn blank_hardware_addr() -> (r: EthernetAddress)
    ensures
        is_blank_hardware_addr(r),
{
    let r = EthernetAddress([0, 0, 0, 0, 0, 0]);
    assert(r.0@ =~= seq![0u8, 0u8, 0u8, 0u8, 0u8, 0u8]);
    r
}

impl Fragmenter {
    /// Create a fragmenter with an empty packet, a zeroed buffer, and blank fragment
    /// header state.
    pub fn new() -> (r: Self)
        ensures
            r.buffer@ == Seq::new(FRAGMENTATION_BUFFER_SIZE as nat, |i: int| 0u8),
            r.packet_len == 0,
            r.sent_bytes == 0,
            is_blank_ipv4_repr(r.ipv4.repr),
            is_blank_hardware_addr(r.ipv4.dst_hardware_addr),
            r.ipv4.frag_offset == 0,
            r.ipv4.ident == 0,
            r.sixlowpan.datagram_size == 0,
            r.sixlowpan.datagram_tag == 0,
            r.sixlowpan.datagram_offset == 0,
            r.sixlowpan.fragn_size == 0,
            r.sixlowpan.ll_dst_addr == Ieee802154Address::Absent,
            r.sixlowpan.ll_src_addr == Ieee802154Address::Absent,
    {
        Self {
            buffer: zeros(FRAGMENTATION_BUFFER_SIZE),
            packet_len: 0,
            sent_bytes: 0,
            ipv4: Ipv4Fragmenter {
                repr: blank_ipv4_repr(),
                dst_hardware_addr: blank_hardware_addr(),
                frag_offset: 0,
                ident: 0,
            },
            sixlowpan: SixlowpanFragmenter {
                datagram_size: 0,
                datagram_tag: 0,
                datagram_offset: 0,
                fragn_size: 0,
                ll_dst_addr: Ieee802154Address::Absent,
                ll_src_addr: Ieee802154Address::Absent,
            },
        }
    }

    /// Return `true` when everything is transmitted.
    pub fn finished(&self) -> (r: bool)
        ensures
            r == (self.packet_len == self.sent_bytes),
    {
        self.packet_len == self.sent_bytes
    }

    /// Returns `true` when there is nothing to transmit.
    pub fn is_empty(&self) -> (r: bool)
        ensures
            r == (self.packet_len == 0),
    {
        self.packet_len == 0
    }

    /// Reset the buffer: nothing to transmit, nothing transmitted, and the fragment
    /// header state blank again, but for the IPv4 fragment offset and identifier and the
    /// 6LoWPAN datagram offset, which stay.
    pub fn reset(&mut self)
        ensures
            final(self).packet_len == 0,
            final(self).sent_bytes == 0,
            final(self).buffer == old(self).buffer,
            is_blank_ipv4_repr(final(self).ipv4.repr),
            is_blank_hardware_addr(final(self).ipv4.dst_hardware_addr),
            final(self).ipv4.frag_offset == old(self).ipv4.frag_offset,
            final(self).ipv4.ident == old(self).ipv4.ident,
            final(self).sixlowpan.datagram_size == 0,
            final(self).sixlowpan.datagram_tag == 0,
            final(self).sixlowpan.datagram_offset == old(self).sixlowpan.datagram_offset,
            final(self).sixlowpan.fragn_size == 0,
            final(self).sixlowpan.ll_dst_addr == Ieee802154Address::Absent,
            final(self).sixlowpan.ll_src_addr == Ieee802154Address::Absent,
    {
        self.packet_len = 0;
        self.sent_bytes = 0;
        self.ipv4.repr = blank_ipv4_repr();
        self.ipv4.dst_hardware_addr = blank_hardware_addr();
        self.sixlowpan.datagram_size = 0;
        self.sixlowpan.datagram_tag = 0;
        self.sixlowpan.fragn_size = 0;
        self.sixlowpan.ll_dst_addr = Ieee802154Address::Absent;
        self.sixlowpan.ll_src_addr = Ieee802154Address::Absent;
    }
}

/// A packet whose fragments together cover exactly the bytes before its total size is
/// complete.
pub proof fn law_complete_when_covered<K>(a: PacketAssembler<K>, t: usize)
    requires
        a.total_size_view() == Some(t),
        a.received() == Set::new(|i: int| 0 <= i < t),
    ensures
        a.is_complete_spec(),
{
    assert(a.is_front_len(t as int));
}

/// Once `get` has handed a slot to a new key, asking for that key again gives the same slot.
pub proof fn law_get_same_slot<K>(s: Seq<PacketAssembler<K>>, k: K, a: PacketAssembler<K>)
    requires
        !has_key(s, k),
        has_free(s),
        a.key_view() == Some(k),
    ensures
        has_key(s.update(slot_for(s, k), a), k),
        slot_for(s.update(slot_for(s, k), a), k) == slot_for(s, k),
{
    let j = choose|j: int| 0 <= j < s.len() && (#[trigger] s[j].key_view()) is None;
    let last = last_free_index(s, s.len() as int, j);
    lemma_last_free_unique(s, last, slot_for(s, k));
    let i = slot_for(s, k);
    let s2 = s.update(i, a);
    assert(s2[i].key_view() == Some(k));
    assert(is_first_with_key(s2, k, i)) by {
        assert forall|m: int| 0 <= m < i implies #[trigger] s2[m].key_view() != Some(k) by {
            if s2[m].key_view() == Some(k) {
                assert(s[m].key_view() == Some(k));
            }
        }
    }
    lemma_first_with_key_unique(s2, k, i, slot_for(s2, k));
}

/// With a free slot at or before `n`, there is a last free slot, at or before `n`.
proof fn last_free_index<K>(s: Seq<PacketAssembler<K>>, n: int, j: int) -> (r: int)
    requires
        0 <= j < n <= s.len(),
        s[j].key_view() is None,
        forall|m: int| n <= m < s.len() ==> #[trigger] s[m].key_view() is Some,
    ensures
        is_last_free(s, r),
    decreases n,
{
    if s[n - 1].key_view() is None {
        n - 1
    } else {
        last_free_index(s, n - 1, j)
    }
}


/// A complete packet has every byte before its total size received, and none at it.
pub proof fn law_complete_means_covered<K>(a: PacketAssembler<K>)
    requires
        a.is_complete_spec(),
    ensures
        a.total_size_view() is Some,
        forall|i: int| 0 <= i < a.total_size_view()->Some_0 ==> a.received().contains(i),
        !a.received().contains(a.total_size_view()->Some_0 as int),
{
}

} // verus!
