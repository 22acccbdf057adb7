//! A ring buffer of variable-size packets, each with a header.

use vstd::prelude::*;

use super::ring_buffer::{lemma_shift, lemma_wrap, splice, RingBuffer};
use super::{Empty, Full};

verus! {

/// Size and header of a packet.
#[derive(Debug, Clone, Copy)]
pub struct PacketMetadata<H> {
    size: usize,
    header: Option<H>,
}

impl<H> PacketMetadata<H> {
    /// Empty packet description.
    pub fn empty() -> (r: PacketMetadata<H>)
        ensures
            r.size_view() == 0,
            r.header_view() is None,
    {
        PacketMetadata { size: 0, header: None }
    }

    /// Number of payload bytes the entry covers.
    pub closed spec fn size_view(&self) -> nat {
        self.size as nat
    }

    /// Header of a packet; `None` for the padding that skips the end of the storage.
    pub closed spec fn header_view(&self) -> Option<H> {
        self.header
    }

    fn padding(size: usize) -> (r: PacketMetadata<H>)
        ensures
            r.size_view() == size,
            r.header_view() is None,
    {
        PacketMetadata { size: size, header: None }
    }

    fn packet(size: usize, header: H) -> (r: PacketMetadata<H>)
        ensures
            r.size_view() == size,
            r.header_view() == Some(header),
    {
        PacketMetadata { size: size, header: Some(header) }
    }

    fn is_padding(&self) -> (r: bool)
        ensures
            r == self.header_view() is None,
    {
        self.header.is_none()
    }
}

/// Number of payload bytes the entries `m` cover together.
pub open spec fn total_size<H>(m: Seq<PacketMetadata<H>>) -> nat
    decreases m.len(),
{
    if m.len() == 0 {
        0
    } else {
        total_size(m.drop_last()) + m.last().size_view()
    }
}

/// The packets that the entries `m` describe over the payload bytes `data`, in
/// order: each entry covers the next `size` bytes, and padding entries carry none.
pub open spec fn packets_of<H>(m: Seq<PacketMetadata<H>>, data: Seq<u8>) -> Seq<(H, Seq<u8>)>
    decreases m.len(),
{
    if m.len() == 0 {
        Seq::empty()
    } else {
        let rest = packets_of(m.skip(1), data.skip(m[0].size_view() as int));
        match m[0].header_view() {
            Some(h) => seq![(h, data.take(m[0].size_view() as int))] + rest,
            None => rest,
        }
    }
}

/// Entry `i` of `m` lies in the payload ring `pr` as the buffer requires: no entry
/// wraps around the end of the storage, and a padding is followed by a packet or,
/// when it is the last entry, runs exactly up to the end of the storage.
pub open spec fn entry_ok<H>(m: Seq<PacketMetadata<H>>, pr: RingBuffer<u8>, i: int) -> bool {
    let p = pr.phys(total_size(m.take(i)) as int);
    match m[i].header_view() {
        None => {
            &&& m[i].size_view() > 0
            &&& p + m[i].size_view() <= pr.cap()
            &&& i + 1 < m.len() ==> m[i + 1].header_view() is Some
            &&& i + 1 == m.len() ==> p + m[i].size_view() == pr.cap()
        },
        Some(_) => p + m[i].size_view() <= pr.cap(),
    }
}

/// Entry `i` of `m` lies in the payload ring `pr` as `entry_ok` requires, except that
/// a last padding need not reach the end of the storage: the state in which a
/// padding has just been added and its packet is to follow.
pub open spec fn entry_loose<H>(m: Seq<PacketMetadata<H>>, pr: RingBuffer<u8>, i: int) -> bool {
    let p = pr.phys(total_size(m.take(i)) as int);
    match m[i].header_view() {
        None => {
            &&& m[i].size_view() > 0
            &&& p + m[i].size_view() <= pr.cap()
            &&& i + 1 < m.len() ==> m[i + 1].header_view() is Some
        },
        Some(_) => p + m[i].size_view() <= pr.cap(),
    }
}

/// Every entry of `m` lies in the payload ring `pr` as `entry_loose` requires.
pub open spec fn layout_loose<H>(m: Seq<PacketMetadata<H>>, pr: RingBuffer<u8>) -> bool {
    forall|i: int| 0 <= i < m.len() ==> #[trigger] entry_loose(m, pr, i)
}

/// Every entry of `m` lies in its place in the payload ring `pr`.
pub open spec fn layout_ok<H>(m: Seq<PacketMetadata<H>>, pr: RingBuffer<u8>) -> bool {
    forall|i: int| 0 <= i < m.len() ==> #[trigger] entry_ok(m, pr, i)
}

/// Total size is additive at the front too.
pub proof fn lemma_total_size_front<H>(m: Seq<PacketMetadata<H>>)
    requires
        m.len() > 0,
    ensures
        total_size(m) == m[0].size_view() + total_size(m.skip(1)),
    decreases m.len(),
{
    if m.len() > 1 {
        lemma_total_size_front(m.drop_last());
        assert(m.drop_last().skip(1) =~= m.skip(1).drop_last());
    } else {
        assert(m.skip(1) =~= Seq::<PacketMetadata<H>>::empty());
        assert(m.drop_last() =~= Seq::<PacketMetadata<H>>::empty());
    }
}

/// The total size of a prefix never exceeds the total.
pub proof fn lemma_total_size_prefix<H>(m: Seq<PacketMetadata<H>>, i: int)
    requires
        0 <= i <= m.len(),
    ensures
        total_size(m.take(i)) + m[i].size_view() <= total_size(m) || i == m.len(),
        total_size(m.take(i)) <= total_size(m),
    decreases m.len() - i,
{
    if i < m.len() {
        lemma_total_size_prefix(m, i + 1);
        assert(m.take(i + 1).drop_last() =~= m.take(i));
    } else {
        assert(m.take(i) =~= m);
    }
}

/// When the entries cover no byte, every entry is empty.
pub proof fn lemma_total_size_zero<H>(m: Seq<PacketMetadata<H>>, i: int)
    requires
        total_size(m) == 0,
        0 <= i < m.len(),
    ensures
        m[i].size_view() == 0,
        total_size(m.take(i)) == 0,
{
    lemma_total_size_prefix(m, i);
    lemma_total_size_prefix(m, i + 1);
    assert(m.take(i + 1).drop_last() =~= m.take(i));
}

/// Appending an entry and its bytes appends its packet, if it is one.
pub proof fn lemma_packets_push<H>(m: Seq<PacketMetadata<H>>, data: Seq<u8>, x: PacketMetadata<H>, d: Seq<u8>)
    requires
        total_size(m) == data.len(),
        x.size_view() == d.len(),
    ensures
        packets_of(m.push(x), data + d) == packets_of(m, data) + match x.header_view() {
            Some(h) => seq![(h, d)],
            None => Seq::<(H, Seq<u8>)>::empty(),
        },
    decreases m.len(),
{
    let tail = match x.header_view() {
        Some(h) => seq![(h, d)],
        None => Seq::<(H, Seq<u8>)>::empty(),
    };
    if m.len() == 0 {
        assert(m.push(x).skip(1) =~= Seq::<PacketMetadata<H>>::empty());
        assert(data + d =~= d);
        assert((data + d).take(x.size_view() as int) =~= d);
        assert(packets_of(m.push(x).skip(1), (data + d).skip(x.size_view() as int)) =~= Seq::<(H, Seq<u8>)>::empty());
        assert(packets_of(m, data) =~= Seq::<(H, Seq<u8>)>::empty());
        assert(packets_of(m.push(x), data + d) =~= packets_of(m, data) + tail);
    } else {
        lemma_total_size_front(m);
        let s0 = m[0].size_view() as int;
        assert(m.push(x).skip(1) =~= m.skip(1).push(x));
        assert((data + d).skip(s0) =~= data.skip(s0) + d);
        assert((data + d).take(s0) =~= data.take(s0));
        lemma_packets_push(m.skip(1), data.skip(s0), x, d);
        assert(packets_of(m.push(x), data + d) =~= packets_of(m, data) + tail);
    }
}

/// Bytes past the ones the entries cover belong to no packet.
pub proof fn lemma_packets_extra<H>(m: Seq<PacketMetadata<H>>, data: Seq<u8>, extra: Seq<u8>)
    requires
        total_size(m) == data.len(),
    ensures
        packets_of(m, data + extra) == packets_of(m, data),
    decreases m.len(),
{
    if m.len() > 0 {
        lemma_total_size_front(m);
        let s0 = m[0].size_view() as int;
        assert((data + extra).skip(s0) =~= data.skip(s0) + extra);
        assert((data + extra).take(s0) =~= data.take(s0));
        lemma_packets_extra(m.skip(1), data.skip(s0), extra);
    }
}

/// Positions of the read cursor are bounded by the capacity.
pub proof fn lemma_phys_bound(pr: RingBuffer<u8>, x: int)
    requires
        pr.wf(),
        0 <= x,
    ensures
        0 <= pr.phys(x) <= pr.cap(),
        pr.cap() > 0 ==> pr.phys(x) < pr.cap(),
{
}

/// Appending an entry whose place is right keeps every entry's place right.
pub proof fn lemma_layout_push<H>(
    m: Seq<PacketMetadata<H>>,
    pr0: RingBuffer<u8>,
    pr1: RingBuffer<u8>,
    x: PacketMetadata<H>,
)
    requires
        pr0.wf(),
        pr1.wf(),
        pr1.cap() == pr0.cap(),
        pr1.read_pos() == pr0.read_pos() || total_size(m) == 0,
        forall|i: int| 0 <= i < m.len() ==> #[trigger] entry_ok(m, pr0, i),
        entry_ok(m.push(x), pr1, m.len() as int),
        m.len() > 0 && m.last().header_view() is None ==> x.header_view() is Some,
    ensures
        forall|i: int| 0 <= i < m.len() + 1 ==> #[trigger] entry_ok(m.push(x), pr1, i),
{
    assert forall|i: int| 0 <= i < m.len() + 1 implies #[trigger] entry_ok(m.push(x), pr1, i) by {
        if i < m.len() {
            assert(m.push(x).take(i) =~= m.take(i));
            assert(entry_ok(m, pr0, i));
            if pr1.read_pos() != pr0.read_pos() {
                lemma_total_size_zero(m, i);
                lemma_phys_bound(pr1, 0);
            }
        }
    }
}

/// A right layout is a loose one.
pub proof fn lemma_layout_loosen<H>(m: Seq<PacketMetadata<H>>, pr: RingBuffer<u8>)
    requires
        layout_ok(m, pr),
    ensures
        layout_loose(m, pr),
{
    assert forall|i: int| 0 <= i < m.len() implies #[trigger] entry_loose(m, pr, i) by {
        assert(entry_ok(m, pr, i));
    }
}

/// Appending a packet in its place after a loose layout gives a right one.
pub proof fn lemma_layout_close<H>(m: Seq<PacketMetadata<H>>, pr1: RingBuffer<u8>, pr2: RingBuffer<u8>, x: PacketMetadata<H>)
    requires
        pr1.wf(),
        pr2.wf(),
        pr2.cap() == pr1.cap(),
        pr2.read_pos() == pr1.read_pos() || total_size(m) == 0,
        layout_loose(m, pr1),
        x.header_view() is Some,
        entry_ok(m.push(x), pr2, m.len() as int),
    ensures
        layout_ok(m.push(x), pr2),
{
    assert forall|i: int| 0 <= i < m.len() + 1 implies #[trigger] entry_ok(m.push(x), pr2, i) by {
        if i < m.len() {
            assert(m.push(x).take(i) =~= m.take(i));
            assert(entry_loose(m, pr1, i));
            if pr2.read_pos() != pr1.read_pos() {
                lemma_total_size_zero(m, i);
                lemma_phys_bound(pr2, 0);
            }
        }
    }
}

/// When the contiguous room after the last payload byte is smaller than the free
/// room, the last entry is no padding: a last padding runs up to the end of the
/// storage, and then all the free room would be contiguous.
pub proof fn lemma_last_not_padding<H>(m: Seq<PacketMetadata<H>>, pr: RingBuffer<u8>, contig: nat)
    requires
        pr.wf(),
        layout_ok(m, pr),
        total_size(m) == pr.used(),
        contig == pr.contig(),
        contig < pr.free(),
    ensures
        m.len() > 0 ==> m.last().header_view() is Some,
{
    if m.len() > 0 && m.last().header_view() is None {
        let last = m.len() - 1;
        assert(entry_ok(m, pr, last));
        assert(m.take(last + 1) =~= m);
        assert(m.take(last + 1).drop_last() =~= m.take(last));
        lemma_shift(pr.read_pos(), total_size(m.take(last)) as int, m[last].size_view() as int, pr.cap() as int);
        lemma_wrap(pr.read_pos() + total_size(m.take(last)), pr.cap() as int);
        lemma_wrap(pr.phys(total_size(m.take(last)) as int) + m[last].size_view(), pr.cap() as int);
        assert(false);
    }
}

/// Dropping the first entry, and its bytes from the payload ring, keeps every
/// remaining entry's place right.
pub proof fn lemma_layout_pop<H>(m: Seq<PacketMetadata<H>>, pr0: RingBuffer<u8>, pr1: RingBuffer<u8>)
    requires
        m.len() > 0,
        pr0.wf(),
        pr1.wf(),
        pr1.cap() == pr0.cap(),
        pr1.read_pos() == pr0.advanced(m[0].size_view() as int),
        forall|i: int| 0 <= i < m.len() ==> #[trigger] entry_ok(m, pr0, i),
    ensures
        forall|i: int| 0 <= i < m.len() - 1 ==> #[trigger] entry_ok(m.skip(1), pr1, i),
{
    let s0 = m[0].size_view() as int;
    assert forall|i: int| 0 <= i < m.len() - 1 implies #[trigger] entry_ok(m.skip(1), pr1, i) by {
        assert(entry_ok(m, pr0, i + 1));
        lemma_total_size_front(m.take(i + 1));
        assert(m.take(i + 1).skip(1) =~= m.skip(1).take(i));
        let t = total_size(m.skip(1).take(i)) as int;
        if pr0.cap() > 0 {
            lemma_shift(pr0.read_pos(), s0, t, pr0.cap() as int);
        }
    }
}

/// Replacing the first entry, a packet, by another packet of the same size, along with
/// its bytes, replaces the first packet and keeps every entry's place.
pub proof fn lemma_front_replace<H>(
    m: Seq<PacketMetadata<H>>,
    data: Seq<u8>,
    pr0: RingBuffer<u8>,
    pr1: RingBuffer<u8>,
    x: PacketMetadata<H>,
    d: Seq<u8>,
)
    requires
        pr1.cap() == pr0.cap(),
        pr1.read_pos() == pr0.read_pos(),
        m.len() > 0,
        m[0].header_view() is Some,
        x.header_view() is Some,
        x.size_view() == m[0].size_view(),
        d.len() == x.size_view(),
        total_size(m) == data.len(),
    ensures
        total_size(m.update(0, x)) == total_size(m),
        packets_of(m.update(0, x), d + data.skip(x.size_view() as int)) == packets_of(m, data).update(
            0,
            (x.header_view()->Some_0, d),
        ),
        layout_ok(m, pr0) ==> layout_ok(m.update(0, x), pr1),
{
    let m1 = m.update(0, x);
    let s = x.size_view() as int;
    lemma_total_size_front(m);
    lemma_total_size_front(m1);
    assert(m1.skip(1) =~= m.skip(1));
    assert forall|i: int| 0 <= i <= m.len() implies #[trigger] total_size(m1.take(i)) == total_size(m.take(i)) by {
        if i > 0 {
            lemma_total_size_front(m.take(i));
            lemma_total_size_front(m1.take(i));
            assert(m1.take(i).skip(1) =~= m.take(i).skip(1));
        } else {
            assert(m1.take(i) =~= m.take(i));
        }
    }
    if layout_ok(m, pr0) {
        assert forall|i: int| 0 <= i < m1.len() implies #[trigger] entry_ok(m1, pr1, i) by {
            assert(entry_ok(m, pr0, i));
            assert(total_size(m1.take(i)) == total_size(m.take(i)));
        }
    }
    let rest = packets_of(m.skip(1), data.skip(s));
    assert((d + data.skip(s)).take(s) =~= d);
    assert((d + data.skip(s)).skip(s) =~= data.skip(s));
    assert(packets_of(m1, d + data.skip(s)) == seq![(x.header_view()->Some_0, d)] + rest);
    assert(packets_of(m, data) == seq![(m[0].header_view()->Some_0, data.take(s))] + rest);
    assert(packets_of(m1, d + data.skip(s)) =~= packets_of(m, data).update(0, (x.header_view()->Some_0, d)));
}

/// Dropping the first entry, a packet, along with its bytes, drops the first packet.
pub proof fn lemma_front_drop<H>(m: Seq<PacketMetadata<H>>, data: Seq<u8>)
    requires
        m.len() > 0,
        m[0].header_view() is Some,
    ensures
        packets_of(m.skip(1), data.skip(m[0].size_view() as int)) == packets_of(m, data).skip(1),
{
    let rest = packets_of(m.skip(1), data.skip(m[0].size_view() as int));
    assert(packets_of(m, data) == seq![(m[0].header_view()->Some_0, data.take(m[0].size_view() as int))] + rest);
    assert(packets_of(m, data).skip(1) =~= rest);
}

/// A ring buffer of packets.
#[derive(Debug)]
pub struct PacketBuffer<H> {
    metadata_ring: RingBuffer<PacketMetadata<H>>,
    payload_ring: RingBuffer<u8>,
}

impl<H> PacketBuffer<H> {
    /// The ring of entries: packets and the paddings that skip the end of the payload storage.
    pub closed spec fn metadata(&self) -> RingBuffer<PacketMetadata<H>> {
        self.metadata_ring
    }

    /// The ring of payload bytes.
    pub closed spec fn payload(&self) -> RingBuffer<u8> {
        self.payload_ring
    }

    /// The buffer's internal invariant: the entries cover the payload bytes exactly,
    /// each in its place.
    pub open spec fn wf(&self) -> bool {
        &&& self.metadata().wf()
        &&& self.payload().wf()
        &&& total_size(self.metadata()@) == self.payload().used()
        &&& layout_ok(self.metadata()@, self.payload())
    }

    /// Whether a packet of `size` bytes fits, given the contiguous room `contig`
    /// after the last payload byte: either directly, or at the start of the storage
    /// after a padding, which takes an entry of its own.
    pub open spec fn fits(&self, size: nat, contig: nat) -> bool {
        &&& self.payload().cap() >= size
        &&& self.metadata().free() > 0
        &&& self.payload().free() >= size
        &&& (contig >= size || (self.payload().free() - contig >= size && self.metadata().free() >= 2))
    }

    /// The inputs on which `enqueue_with_infallible` adds a padding, writes the packet
    /// and then finds no entry left for it: it fails, but the packet's bytes stay
    /// in the payload ring with no entry to describe them.
    pub open spec fn infallible_strands_payload(&self, size: nat) -> bool {
        &&& self.enqueue_pads(size)
        &&& self.metadata().free() == 1
    }

    /// Whether `enqueue` of `size` bytes succeeds.
    pub open spec fn can_enqueue(&self, size: nat) -> bool {
        self.fits(size, self.payload().enqueue_room())
    }

    /// The entries of the metadata ring, oldest first, as (size, header) pairs: a
    /// packet has its header, a padding `None`.
    pub open spec fn entries(&self) -> Seq<(nat, Option<H>)> {
        entries_of(self.metadata()@)
    }

    /// Whether `enqueue` of `size` bytes first pads out the end of the payload storage:
    /// there is an entry and room for the packet, but the contiguous room after the
    /// last payload byte is too small and the room from the start of the storage is not.
    pub open spec fn enqueue_pads(&self, size: nat) -> bool {
        &&& self.payload().cap() >= size
        &&& self.metadata().free() > 0
        &&& self.payload().free() >= size
        &&& self.payload().enqueue_room() < size
        &&& self.payload().free() - self.payload().enqueue_room() >= size
    }

    /// The buffer `b1` that `enqueue` of `size` bytes with header `h` makes of `b0`, where
    /// `ok` tells whether it succeeded. A failure before any padding leaves `b0` as it
    /// was. Otherwise an empty payload ring restarts at the beginning of its storage, a
    /// padding is added if `enqueue_pads` holds, and then the packet if `ok`, each entry
    /// with as many payload bytes as it covers.
    pub open spec fn enqueue_result(b0: PacketBuffer<H>, b1: PacketBuffer<H>, size: nat, h: H, ok: bool) -> bool {
        let pads = b0.enqueue_pads(size);
        let room = b0.payload().enqueue_room();
        let padded = if pads {
            b0.entries().push((room, None))
        } else {
            b0.entries()
        };
        let pad_len: nat = if pads {
            room
        } else {
            0
        };
        if !ok && !pads {
            b1 == b0
        } else {
            &&& b1.metadata().cap() == b0.metadata().cap()
            &&& b1.payload().cap() == b0.payload().cap()
            &&& b1.payload().read_pos() == b0.payload().read_pos_for_enqueue()
            &&& b1.entries() == if ok {
                padded.push((size, Some(h)))
            } else {
                padded
            }
            &&& b1.payload().used() == b0.payload().used() + pad_len + if ok {
                size
            } else {
                0
            }
        }
    }

    /// Whether `enqueue_with_infallible` of up to `size` bytes goes ahead and calls its
    /// closure: there is an entry and room for `size` bytes, contiguous after the last
    /// payload byte (from the start of the storage once the payload ring is empty) or
    /// else from the start of the storage.
    pub open spec fn infallible_proceeds(&self, size: nat) -> bool {
        &&& self.payload().cap() >= size
        &&& self.metadata().free() > 0
        &&& self.payload().free() >= size
        &&& (self.payload().enqueue_room() >= size || self.payload().free() - self.payload().enqueue_room() >= size)
    }

    /// Whether `enqueue_with_infallible` of up to `size` bytes first pads out the end of
    /// the payload storage: exactly when `enqueue` of `size` bytes does.
    pub open spec fn infallible_pads(&self, size: nat) -> bool {
        self.infallible_proceeds(size) && self.payload().enqueue_room() < size
    }

    /// The entries of `b0` followed by the padding that `enqueue_with_infallible` of
    /// up to `size` bytes adds, if any.
    pub open spec fn infallible_padded(b0: PacketBuffer<H>, size: nat) -> Seq<(nat, Option<H>)> {
        if b0.infallible_pads(size) {
            b0.entries().push((b0.payload().enqueue_room(), None))
        } else {
            b0.entries()
        }
    }

    /// Number of payload bytes that the padding `enqueue_with_infallible` of up to
    /// `size` bytes adds covers.
    pub open spec fn infallible_pad_len(b0: PacketBuffer<H>, size: nat) -> nat {
        if b0.infallible_pads(size) {
            b0.payload().enqueue_room()
        } else {
            0
        }
    }

    /// Number of entries before the first packet: a padding at the front, which skips
    /// the end of the payload storage and which dequeueing drops first.
    pub open spec fn front_skip(&self) -> nat {
        if self.entries().len() > 0 && self.entries()[0].1 is None {
            1
        } else {
            0
        }
    }

    /// Number of payload bytes that the padding at the front, if any, covers.
    pub open spec fn front_pad(&self) -> nat {
        if self.front_skip() == 1 {
            self.entries()[0].0
        } else {
            0
        }
    }

    /// The rings of `b1` are those of `b0` after the padding at the front, if any, and
    /// then, if `taken`, the first packet left them: the entries are dropped and the
    /// payload ring's read position moves past their bytes. (Capacities are stated apart.)
    pub open spec fn front_dropped(b0: PacketBuffer<H>, b1: PacketBuffer<H>, taken: bool) -> bool {
        let k = b0.front_skip();
        let n: nat = if taken {
            b0.front_pad() + b0.entries()[k as int].0
        } else {
            b0.front_pad()
        };
        &&& b1.payload().read_pos() == b0.payload().advanced(n as int)
        &&& b1.payload().used() == b0.payload().used() - n
        &&& taken ==> b1.entries() == b0.entries().skip(k + 1int)
    }
}

/// Dropping the padding at the front and then taking the first packet is what taking
/// the first packet does at once.
pub proof fn lemma_front_dropped_then_taken<H>(b0: PacketBuffer<H>, b1: PacketBuffer<H>, b2: PacketBuffer<H>)
    requires
        b0.wf(),
        PacketBuffer::front_dropped(b0, b1, false),
        b1.entries() == b0.entries().skip(b0.front_skip() as int),
        b1.front_skip() == 0,
        b1.front_skip() < b1.entries().len(),
        b1.payload().cap() == b0.payload().cap(),
        PacketBuffer::front_dropped(b1, b2, true),
    ensures
        PacketBuffer::front_dropped(b0, b2, true),
{
    let k = b0.front_skip() as int;
    assert(b0.entries().skip(k).skip(1) =~= b0.entries().skip(k + 1));
    assert(b0.entries().skip(k)[0] == b0.entries()[k]);
    if b0.payload().cap() > 0 {
        lemma_shift(b0.payload().read_pos(), b0.front_pad() as int, b1.entries()[0].0 as int, b0.payload().cap() as int);
    }
}

/// With a packet at the front, dropping the padding at the front moves nothing.
pub proof fn lemma_front_dropped_nothing<H>(b1: PacketBuffer<H>, b2: PacketBuffer<H>)
    requires
        b1.wf(),
        b1.front_skip() == 0,
        PacketBuffer::front_dropped(b1, b2, false),
    ensures
        b2.payload().read_pos() == b1.payload().read_pos(),
        b2.payload().used() == b1.payload().used(),
{
    if b1.payload().cap() > 0 {
        lemma_wrap(b1.payload().read_pos(), b1.payload().cap() as int);
    }
}

/// The entries `m` as (size, header) pairs.
pub open spec fn entries_of<H>(m: Seq<PacketMetadata<H>>) -> Seq<(nat, Option<H>)> {
    m.map_values(|e: PacketMetadata<H>| (e.size_view(), e.header_view()))
}

/// Appending an entry appends its pair.
proof fn lemma_entries_push<H>(m: Seq<PacketMetadata<H>>, x: PacketMetadata<H>)
    ensures
        entries_of(m.push(x)) == entries_of(m).push((x.size_view(), x.header_view())),
{
    assert(entries_of(m.push(x)) =~= entries_of(m).push((x.size_view(), x.header_view())));
}

/// Dropping entries at the front drops their pairs.
proof fn lemma_entries_skip<H>(m: Seq<PacketMetadata<H>>, k: int)
    requires
        0 <= k <= m.len(),
    ensures
        entries_of(m.skip(k)) == entries_of(m).skip(k),
{
    assert(entries_of(m.skip(k)) =~= entries_of(m).skip(k));
}

impl<H> View for PacketBuffer<H> {
    type V = Seq<(H, Seq<u8>)>;

    /// The packets held, oldest first, each with its header and payload.
    closed spec fn view(&self) -> Seq<(H, Seq<u8>)> {
        packets_of(self.metadata_ring@, self.payload_ring@)
    }
}

impl<H> PacketBuffer<H> {
    /// Create a new packet buffer with the provided metadata and payload storage.
    ///
    /// Metadata storage limits the maximum _number_ of packets in the buffer and payload
    /// storage limits the maximum _total size_ of packets.
    pub fn new(metadata_storage: Vec<PacketMetadata<H>>, payload_storage: Vec<u8>) -> (r: PacketBuffer<H>)
        ensures
            r.wf(),
            r@ == Seq::<(H, Seq<u8>)>::empty(),
            r.metadata().cap() == metadata_storage@.len(),
            r.payload().cap() == payload_storage@.len(),
            r.metadata()@.len() == 0,
    {
        let r = PacketBuffer {
            metadata_ring: RingBuffer::new(metadata_storage),
            payload_ring: RingBuffer::new(payload_storage),
        };
        assert(r@ =~= Seq::<(H, Seq<u8>)>::empty());
        r
    }

    /// Query whether the buffer is empty.
    pub fn is_empty(&self) -> (r: bool)
        ensures
            r == (self.metadata()@.len() == 0),
    {
        let r = self.metadata_ring.is_empty();
        proof {
            self.metadata_ring.lemma_view();
        }
        r
    }

    /// Query whether the buffer is full.
    pub fn is_full(&self) -> (r: bool)
        requires
            self.wf(),
        ensures
            r == (self.metadata().free() == 0),
    {
        self.metadata_ring.is_full()
    }

    /// Add a padding entry covering the `contig` free bytes after the last payload byte
    /// (from the start of the storage when the payload ring is empty), so that the
    /// next packet starts where the free room is no longer cut by the end of the storage.
    fn add_padding(&mut self, contig: usize)
        requires
            old(self).wf(),
            old(self).metadata().free() > 0,
            contig == old(self).payload().contig(),
            0 < contig < old(self).payload().free(),
        ensures
            final(self).metadata().wf(),
            final(self).payload().wf(),
            final(self).metadata().cap() == old(self).metadata().cap(),
            final(self).payload().cap() == old(self).payload().cap(),
            final(self).metadata()@ == old(self).metadata()@.push(PacketMetadata { size: contig, header: None }),
            final(self).payload().read_pos() == old(self).payload().read_pos_for_enqueue(),
            final(self).payload().used() == old(self).payload().used() + contig,
            final(self).payload()@.take(old(self).payload().used() as int) == old(self).payload()@,
            final(self)@ == old(self)@,
            total_size(final(self).metadata()@) == final(self).payload().used(),
            old(self).metadata()@.len() > 0 ==> old(self).metadata()@.last().header_view() is Some,
            final(self).payload().phys(old(self).payload().used() as int) + contig <= final(self).payload().cap(),
            old(self).payload().used() > 0 ==> layout_ok(final(self).metadata()@, final(self).payload()),
            layout_loose(final(self).metadata()@, final(self).payload()),
            final(self).payload().cap() > 0,
            final(self).metadata().free() == old(self).metadata().free() - 1,
            final(self).payload().free() == old(self).payload().free() - contig,
            final(self).payload().phys(old(self).payload().used() + contig) == if old(self).payload().used() > 0 {
                0
            } else {
                contig as int
            },
    {
        let ghost m0 = self.metadata_ring@;
        let ghost pr0 = self.payload_ring;
        let ghost data0 = self.payload_ring@;
        proof {
            self.payload_ring.lemma_view();
            self.metadata_ring.lemma_view();
            lemma_last_not_padding(m0, pr0, contig as nat);
            if pr0.cap() > 0 {
                lemma_wrap(pr0.read_pos() + pr0.used(), pr0.cap() as int);
                lemma_wrap(pr0.read_pos_for_enqueue() + pr0.used(), pr0.cap() as int);
            }
        }
        match self.metadata_ring.enqueue_one() {
            Ok(slot) => {
                *slot = PacketMetadata::padding(contig);
            },
            Err(_) => {
                assert(false);
            },
        }
        let _buf_enqueued = self.payload_ring.enqueue_many(contig);
        proof {
            let x = PacketMetadata::<H> { size: contig, header: None };
            assert(self.metadata_ring@ == m0.push(x));
            assert(m0.push(x).take(m0.len() as int) =~= m0);
            assert(m0.push(x).drop_last() =~= m0);
            lemma_packets_push(m0, data0, x, _buf_enqueued@);
            assert(self.payload_ring@ == data0 + _buf_enqueued@);
            assert(self.payload_ring@.take(pr0.used() as int) =~= data0);
            assert(self@ == packets_of(m0, data0));
            if pr0.used() > 0 {
                lemma_layout_push(m0, pr0, self.payload_ring, x);
                lemma_layout_loosen(self.metadata_ring@, self.payload_ring);
            } else {
                let m1 = m0.push(x);
                let pr1 = self.payload_ring;
                assert forall|i: int| 0 <= i < m1.len() implies #[trigger] entry_loose(m1, pr1, i) by {
                    if i < m0.len() {
                        assert(m1.take(i) =~= m0.take(i));
                        assert(entry_ok(m0, pr0, i));
                        lemma_total_size_zero(m0, i);
                        lemma_phys_bound(pr1, 0);
                    } else {
                        assert(m1.take(i) =~= m0);
                        lemma_wrap(pr1.read_pos() + pr0.used(), pr0.cap() as int);
                    }
                }
            }
            self.metadata_ring.lemma_view();
            lemma_wrap(self.payload_ring.read_pos() + pr0.used(), pr0.cap() as int);
            lemma_wrap(self.payload_ring.read_pos() + pr0.used() + contig, pr0.cap() as int);
        }
    }

    /// Enqueue a single packet with the given header into the buffer, and
    /// return a reference to its payload, or return `Err(Full)`
    /// if the buffer is full.
    pub fn enqueue<'b>(&'b mut self, size: usize, header: H) -> (r: Result<&'b mut [u8], Full>)
        requires
            old(self).wf(),
        ensures
            r is Err ==> final(self).wf(),
            r is Err ==> final(self)@ == old(self)@,
            r is Ok <==> old(self).can_enqueue(size as nat),
            r matches Ok(buf) ==> {
                &&& buf@.len() == size
                &&& final(buf)@.len() == size ==> final(self).wf()
                &&& final(buf)@.len() == size ==> final(self)@ == old(self)@.push((header, final(buf)@))
                &&& final(buf)@.len() == size ==> final(self).payload().cap() == old(self).payload().cap()
            },
            final(self).metadata().cap() == old(self).metadata().cap(),
            r is Err ==> final(self).payload().cap() == old(self).payload().cap(),
            r is Err ==> PacketBuffer::enqueue_result(*old(self), *final(self), size as nat, header, false),
            r matches Ok(buf) ==> final(buf)@.len() == size ==> PacketBuffer::enqueue_result(
                *old(self),
                *final(self),
                size as nat,
                header,
                true,
            ),
    {
        let ghost g_header = header;
        let ghost b0 = *self;
        if self.payload_ring.capacity() < size || self.metadata_ring.is_full() {
            return Err(Full);
        }
        if self.payload_ring.is_empty() {
            let ghost m = self.metadata_ring@;
            let ghost pr_old = self.payload_ring;
            proof {
                self.payload_ring.lemma_view();
            }
            self.payload_ring.clear();
            proof {
                assert(self.payload_ring@ =~= pr_old@);
                assert forall|i: int| 0 <= i < m.len() implies #[trigger] entry_ok(m, self.payload_ring, i) by {
                    assert(entry_ok(m, pr_old, i));
                    lemma_total_size_zero(m, i);
                    lemma_phys_bound(self.payload_ring, 0);
                }
            }
        }
        let window = self.payload_ring.window();
        let contig_window = self.payload_ring.contiguous_window();
        proof {
            if self.payload_ring.cap() > 0 {
                lemma_wrap(self.payload_ring.read_pos() + self.payload_ring.used(), self.payload_ring.cap() as int);
            }
            assert(contig_window == old(self).payload().enqueue_room());
        }
        let ghost padded = false;
        if window < size {
            return Err(Full);
        } else if contig_window < size {
            if window - contig_window < size {
                return Err(Full);
            } else {
                // Add padding to the end of the ring buffer so that the
                // contiguous window is at the beginning of the ring buffer.
                self.add_padding(contig_window);
                proof {
                    padded = true;
                    lemma_entries_push(b0.metadata()@, PacketMetadata { size: contig_window, header: None });
                }
            }
        }
        let ghost m1 = self.metadata_ring@;
        let ghost pr1 = self.payload_ring;
        let ghost data1 = self.payload_ring@;
        let ghost view1 = self@;
        proof {
            self.payload_ring.lemma_view();
            if self.payload_ring.cap() > 0 {
                lemma_wrap(self.payload_ring.read_pos() + self.payload_ring.used(), self.payload_ring.cap() as int);
            }
        }
        match self.metadata_ring.enqueue_one() {
            Ok(slot) => {
                *slot = PacketMetadata::packet(size, header);
            },
            Err(e) => {
                proof {
                    assert(padded);
                }
                return Err(e);
            },
        }
        proof {
            let x = PacketMetadata::<H> { size: size, header: Some(g_header) };
            let m2 = m1.push(x);
            lemma_entries_push(m1, x);
            assert(padded == b0.enqueue_pads(size as nat));
            assert(pr1.read_pos_for_enqueue() == b0.payload().read_pos_for_enqueue());
            assert(self.metadata_ring@ == m2);
            assert(m2.take(m1.len() as int) =~= m1);
            assert(m2.drop_last() =~= m1);
            assert(pr1.enqueue_room() >= size);
            assert(total_size(m1) == pr1.used());
            assert(total_size(m2) == pr1.used() + size);
            assert(view1 == packets_of(m1, data1));
            assert(view1 == old(self)@);
            assert forall|pr: RingBuffer<u8>|
                pr.wf() && pr.cap() == pr1.cap() && pr.read_pos() == pr1.read_pos_for_enqueue()
                    && pr.used() == pr1.used() + size implies #[trigger] layout_ok(m2, pr) by {
                if pr.cap() > 0 {
                    lemma_wrap(pr1.read_pos_for_enqueue() + pr1.used(), pr.cap() as int);
                }
                assert(entry_ok(m2, pr, m1.len() as int));
                lemma_layout_push(m1, pr1, pr, x);
            }
            assert forall|d: Seq<u8>| d.len() == size implies
                #[trigger] packets_of(m2, data1 + d) == view1.push((g_header, d)) by {
                lemma_packets_push(m1, data1, x, d);
            }
        }
        let payload_buf = self.payload_ring.enqueue_many(size);
        proof {
            let x = PacketMetadata::<H> { size: size, header: Some(g_header) };
            let m2 = m1.push(x);
            assert(final(payload_buf)@.len() == size ==> packets_of(m2, data1 + final(payload_buf)@)
                == view1.push((g_header, final(payload_buf)@)));
        }
        Ok(payload_buf)
    }

    /// Hand `f` the `max_size` free bytes after the last payload byte, count the bytes it
    /// reports written as payload, and add a packet entry for them.
    #[verifier::spinoff_prover]
    fn fill_packet<F>(&mut self, max_size: usize, header: H, f: F) -> (r: Result<usize, Full>)
        where
            F: FnOnce(&mut [u8]) -> usize,
        requires
            old(self).metadata().wf(),
            old(self).payload().wf(),
            total_size(old(self).metadata()@) == old(self).payload().used(),
            layout_loose(old(self).metadata()@, old(self).payload()),
            old(self).payload().enqueue_room() >= max_size,
            forall|s: &mut [u8]| s@.len() == max_size ==> call_requires(f, (s,)),
            forall|s: &mut [u8], n: usize| call_ensures(f, (s,), n) ==> n <= s@.len() && final(s)@.len() == s@.len(),
        ensures
            r is Ok <==> old(self).metadata().free() > 0,
            r is Err ==> final(self)@ == old(self)@,
            r is Ok ==> final(self).wf(),
            r is Ok ==> final(self)@ == old(self)@.push((header, final(self)@.last().1)),
            r is Ok ==> final(self)@.last().1.len() == r->Ok_0,
            r is Ok ==> exists|s: &mut [u8]|
                {
                    &&& s@.len() == max_size
                    &&& #[trigger] call_ensures(f, (s,), r->Ok_0)
                    &&& final(s)@.take(r->Ok_0 as int) == final(self)@.last().1
                },
            final(self).metadata().cap() == old(self).metadata().cap(),
            final(self).payload().cap() == old(self).payload().cap(),
            final(self).payload().read_pos() == old(self).payload().read_pos_for_enqueue(),
            r is Ok ==> final(self).entries() == old(self).entries().push((r->Ok_0 as nat, Some(header))),
            r is Ok ==> final(self).payload().used() == old(self).payload().used() + r->Ok_0,
            r is Err ==> final(self).entries() == old(self).entries(),
            r is Err ==> exists|s: &mut [u8], n: usize|
                {
                    &&& s@.len() == max_size
                    &&& #[trigger] call_ensures(f, (s,), n)
                    &&& final(self).payload().used() == old(self).payload().used() + n
                },
    {
        let ghost g_header = header;
        if self.payload_ring.is_empty() {
            let ghost m = self.metadata_ring@;
            let ghost pr_old = self.payload_ring;
            proof {
                self.payload_ring.lemma_view();
            }
            self.payload_ring.clear();
            proof {
                assert(self.payload_ring@ =~= pr_old@);
                assert forall|i: int| 0 <= i < m.len() implies #[trigger] entry_loose(m, self.payload_ring, i) by {
                    assert(entry_loose(m, pr_old, i));
                    lemma_total_size_zero(m, i);
                    lemma_phys_bound(self.payload_ring, 0);
                }
            }
        }
        let ghost m1 = self.metadata_ring@;
        let ghost pr1 = self.payload_ring;
        let ghost data1 = self.payload_ring@;
        let ghost view1 = self@;
        proof {
            self.payload_ring.lemma_view();
            self.metadata_ring.lemma_view();
            if pr1.cap() > 0 {
                lemma_wrap(pr1.read_pos() + pr1.used(), pr1.cap() as int);
            }
            assert(pr1.unalloc_room(0) >= max_size);
        }
        let buf = self.payload_ring.get_unallocated(0, max_size);
        let ghost b0 = buf;
        let size = f(buf);
        self.payload_ring.enqueue_unallocated(size);
        let ghost pr2 = self.payload_ring;
        proof {
            assert(final(b0)@.len() == max_size);
            pr1.lemma_append_view(pr1.unalloc_start(0), max_size as nat);
            assert(pr2@ == data1 + final(b0)@.take(size as int));
        }
        match self.metadata_ring.enqueue_one() {
            Ok(slot) => {
                *slot = PacketMetadata::packet(size, header);
            },
            Err(e) => {
                proof {
                    lemma_packets_extra(m1, data1, final(b0)@.take(size as int));
                    assert(self@ == view1);
                    assert(self.payload_ring.used() == old(self).payload().used() + size);
                    assert(exists|s: &mut [u8], n: usize|
                        {
                            &&& s@.len() == max_size
                            &&& #[trigger] call_ensures(f, (s,), n)
                            &&& self.payload_ring.used() == old(self).payload().used() + n
                        });
                }
                return Err(e);
            },
        }
        proof {
            let x = PacketMetadata::<H> { size: size, header: Some(g_header) };
            let m2 = m1.push(x);
            assert(self.metadata_ring@ == m2);
            assert(m2.take(m1.len() as int) =~= m1);
            assert(m2.drop_last() =~= m1);
            assert(total_size(m2) == pr1.used() + size);
            if pr2.cap() > 0 {
                lemma_wrap(pr1.read_pos() + pr1.used(), pr2.cap() as int);
            }
            assert(entry_ok(m2, pr2, m1.len() as int));
            lemma_layout_close(m1, pr1, pr2, x);
            lemma_entries_push(m1, x);
            lemma_packets_push(m1, data1, x, final(b0)@.take(size as int));
            assert(self@ == old(self)@.push((g_header, final(b0)@.take(size as int))));
            assert(self@.last().1 == final(b0)@.take(size as int));
            assert(exists|s: &mut [u8]|
                {
                    &&& s@.len() == max_size
                    &&& #[trigger] call_ensures(f, (s,), size)
                    &&& final(s)@.take(size as int) == final(b0)@.take(size as int)
                });
        }
        let r: Result<usize, Full> = Ok(size);
        proof {
            let w = choose|s: &mut [u8]|
                {
                    &&& s@.len() == max_size
                    &&& #[trigger] call_ensures(f, (s,), size)
                    &&& final(s)@.take(size as int) == final(b0)@.take(size as int)
                };
            assert(r->Ok_0 == size);
            assert(call_ensures(f, (w,), r->Ok_0));
            assert(exists|s: &mut [u8]|
                {
                    &&& s@.len() == max_size
                    &&& #[trigger] call_ensures(f, (s,), r->Ok_0)
                    &&& final(s)@.take(r->Ok_0 as int) == self@.last().1
                });
        }
        r
    }

    /// Call `f` with a packet from the buffer large enough to fit `max_size` bytes. The packet
    /// is shrunk to the size returned from `f` and enqueued into the buffer.
    ///
    /// It succeeds exactly when `enqueue` of `max_size` bytes would: an empty payload
    /// ring is first restarted at the beginning of its storage.
    ///
    /// `f` must not return more than the `max_size` bytes it was given. When a padding is
    /// needed and it takes the last free entry, the packet written by `f` finds no entry:
    /// `Err(Full)` is returned and its bytes stay in the payload ring.
    pub fn enqueue_with_infallible<F>(&mut self, max_size: usize, header: H, f: F) -> (r: Result<usize, Full>)
        where
            F: FnOnce(&mut [u8]) -> usize,
        requires
            old(self).wf(),
            forall|s: &mut [u8]| s@.len() == max_size ==> call_requires(f, (s,)),
            forall|s: &mut [u8], n: usize| call_ensures(f, (s,), n) ==> n <= s@.len() && final(s)@.len() == s@.len(),
        ensures
            !old(self).infallible_strands_payload(max_size as nat) ==> final(self).wf(),
            r is Ok <==> old(self).can_enqueue(max_size as nat),
            r is Err ==> final(self)@ == old(self)@,
            r is Ok ==> final(self)@ == old(self)@.push((header, final(self)@.last().1)),
            r is Ok ==> final(self)@.last().1.len() == r->Ok_0,
            r is Ok ==> exists|s: &mut [u8]|
                {
                    &&& s@.len() == max_size
                    &&& #[trigger] call_ensures(f, (s,), r->Ok_0)
                    &&& final(s)@.take(r->Ok_0 as int) == final(self)@.last().1
                },
            final(self).metadata().cap() == old(self).metadata().cap(),
            final(self).payload().cap() == old(self).payload().cap(),
            !old(self).infallible_proceeds(max_size as nat) ==> *final(self) == *old(self),
            old(self).infallible_proceeds(max_size as nat) ==> final(self).payload().read_pos()
                == old(self).payload().read_pos_for_enqueue(),
            r is Ok ==> final(self).entries() == PacketBuffer::infallible_padded(*old(self), max_size as nat).push(
                (r->Ok_0 as nat, Some(header)),
            ),
            r is Ok ==> final(self).payload().used() == old(self).payload().used() + PacketBuffer::infallible_pad_len(
                *old(self),
                max_size as nat,
            ) + r->Ok_0,
            r is Err && old(self).infallible_proceeds(max_size as nat) ==> final(self).entries()
                == PacketBuffer::infallible_padded(*old(self), max_size as nat),
            r is Err && old(self).infallible_proceeds(max_size as nat) ==> exists|s: &mut [u8], n: usize|
                {
                    &&& s@.len() == max_size
                    &&& #[trigger] call_ensures(f, (s,), n)
                    &&& final(self).payload().used() == old(self).payload().used() + PacketBuffer::infallible_pad_len(
                        *old(self),
                        max_size as nat,
                    ) + n
                },
    {
        let ghost b0 = *self;
        if self.payload_ring.capacity() < max_size || self.metadata_ring.is_full() {
            return Err(Full);
        }
        let window = self.payload_ring.window();
        if window < max_size {
            return Err(Full);
        }
        if self.payload_ring.is_empty() {
            // An empty ring offers its whole storage, from the beginning.
            let ghost m = self.metadata_ring@;
            let ghost pr_old = self.payload_ring;
            proof {
                self.payload_ring.lemma_view();
            }
            self.payload_ring.clear();
            proof {
                assert(self.payload_ring@ =~= pr_old@);
                assert forall|i: int| 0 <= i < m.len() implies #[trigger] entry_ok(m, self.payload_ring, i) by {
                    assert(entry_ok(m, pr_old, i));
                    lemma_total_size_zero(m, i);
                    lemma_phys_bound(self.payload_ring, 0);
                }
            }
        }
        let contig_window = self.payload_ring.contiguous_window();
        proof {
            lemma_layout_loosen(self.metadata_ring@, self.payload_ring);
            self.metadata_ring.lemma_view();
            if self.payload_ring.cap() > 0 {
                lemma_wrap(self.payload_ring.read_pos() + self.payload_ring.used(), self.payload_ring.cap() as int);
            }
            assert(contig_window == b0.payload().enqueue_room());
        }
        if contig_window < max_size {
            if window - contig_window < max_size {
                return Err(Full);
            } else {
                // Add padding to the end of the ring buffer so that the
                // contiguous window is at the beginning of the ring buffer.
                self.add_padding(contig_window);
                proof {
                    lemma_entries_push(b0.metadata()@, PacketMetadata { size: contig_window, header: None });
                    let pr = self.payload_ring;
                    if pr.cap() > 0 {
                        lemma_wrap(pr.read_pos() + pr.used(), pr.cap() as int);
                        lemma_wrap(pr.read_pos_for_enqueue() + pr.used(), pr.cap() as int);
                    }
                    self.metadata_ring.lemma_view();
                }
            }
        } else {
            proof {
                let pr = self.payload_ring;
                if pr.cap() > 0 {
                    lemma_wrap(pr.read_pos() + pr.used(), pr.cap() as int);
                    lemma_wrap(pr.read_pos_for_enqueue() + pr.used(), pr.cap() as int);
                }
            }
        }
        self.fill_packet(max_size, header, f)
    }

    /// Drop a padding at the front, if there is one: afterwards the first entry,
    /// if any, is a packet.
    fn dequeue_padding(&mut self)
        requires
            old(self).wf(),
        ensures
            final(self).wf(),
            final(self)@ == old(self)@,
            final(self).metadata().cap() == old(self).metadata().cap(),
            final(self).payload().cap() == old(self).payload().cap(),
            final(self).metadata()@.len() > 0 ==> final(self).metadata()@[0].header_view() is Some,
            final(self).metadata()@.len() == 0 <==> old(self)@.len() == 0,
            PacketBuffer::front_dropped(*old(self), *final(self), false),
            final(self).entries() == old(self).entries().skip(old(self).front_skip() as int),
    {
        proof {
            self.metadata_ring.lemma_view();
            self.payload_ring.lemma_view();
        }
        if self.metadata_ring.is_empty() {
            assert(self@ =~= Seq::<(H, Seq<u8>)>::empty());
            proof {
                assert(self.entries().skip(0) =~= self.entries());
                if self.payload_ring.cap() > 0 {
                    lemma_wrap(self.payload_ring.read_pos(), self.payload_ring.cap() as int);
                }
            }
            return;
        }
        let front = self.metadata_ring.get_allocated(0, 1);
        proof {
            lemma_wrap(self.metadata_ring.read_pos(), self.metadata_ring.cap() as int);
        }
        let is_padding = front[0].is_padding();
        let size = front[0].size;
        let ghost m0 = self.metadata_ring@;
        let ghost pr0 = self.payload_ring;
        let ghost data0 = self.payload_ring@;
        proof {
            assert(front@[0] == m0[0]);
            assert(entry_ok(m0, pr0, 0));
            assert(m0.take(0) =~= Seq::<PacketMetadata<H>>::empty());
            lemma_total_size_front(m0);
            if pr0.cap() > 0 {
                lemma_wrap(pr0.read_pos(), pr0.cap() as int);
            }
        }
        if is_padding {
            let _buf_dequeued = self.payload_ring.dequeue_many(size);
            let _meta = self.metadata_ring.dequeue_one();
            proof {
                lemma_layout_pop(m0, pr0, self.payload_ring);
                assert(self.payload_ring@ == data0.skip(size as int));
                assert(self.metadata_ring@ == m0.skip(1));
                if m0.len() > 1 {
                    assert(m0.skip(1)[0] == m0[1]);
                    assert(entry_ok(m0, pr0, 0));
                }
                lemma_entries_skip(m0, 1);
            }
        } else {
            proof {
                assert(entries_of(m0).skip(0) =~= entries_of(m0));
                if pr0.cap() > 0 {
                    lemma_wrap(pr0.read_pos(), pr0.cap() as int);
                }
            }
        }
        proof {
            if self.metadata_ring@.len() == 0 {
                assert(self@ =~= Seq::<(H, Seq<u8>)>::empty());
            }
            if self.metadata_ring@.len() > 0 {
                assert(self@ == seq![(self.metadata_ring@[0].header_view()->Some_0,
                    self.payload_ring@.take(self.metadata_ring@[0].size_view() as int))]
                    + packets_of(self.metadata_ring@.skip(1), self.payload_ring@.skip(self.metadata_ring@[0].size_view() as int)));
            }
        }
    }

    /// Call `f` with a single packet from the buffer, and dequeue the packet if `f`
    /// returns successfully, or return `Err(Empty)` if the buffer is empty.
    pub fn dequeue_with<R, E, F>(&mut self, f: F) -> (r: Result<Result<R, E>, Empty>)
        where
            F: FnOnce(&mut H, &mut [u8]) -> Result<R, E>,
        requires
            old(self).wf(),
            forall|h: &mut H, b: &mut [u8]| call_requires(f, (h, b)),
            forall|h: &mut H, b: &mut [u8], res: Result<R, E>|
                call_ensures(f, (h, b), res) ==> final(b)@.len() == b@.len(),
        ensures
            final(self).wf(),
            r is Err <==> old(self)@.len() == 0,
            r is Err ==> final(self)@ == old(self)@,
            r matches Ok(res) ==> exists|h: &mut H, b: &mut [u8]|
                {
                    &&& *h == old(self)@[0].0
                    &&& b@ == old(self)@[0].1
                    &&& #[trigger] call_ensures(f, (h, b), res)
                    &&& res is Ok ==> final(self)@ == old(self)@.skip(1)
                    &&& res is Err ==> final(self)@ == old(self)@.update(0, (*final(h), final(b)@))
                    &&& res is Err ==> final(self).entries() == old(self).entries().skip(
                        old(self).front_skip() as int,
                    ).update(0, (old(self).entries()[old(self).front_skip() as int].0, Some(*final(h))))
                },
            final(self).metadata().cap() == old(self).metadata().cap(),
            final(self).payload().cap() == old(self).payload().cap(),
            PacketBuffer::front_dropped(*old(self), *final(self), r matches Ok(Ok(_))),
            r is Err ==> final(self).entries() == old(self).entries().skip(old(self).front_skip() as int),
    {
        let ghost b0 = *self;
        self.dequeue_padding();
        proof {
            self.metadata_ring.lemma_view();
        }
        if self.metadata_ring.is_empty() {
            return Err(Empty);
        }
        let ghost m0 = self.metadata_ring@;
        let ghost pr0 = self.payload_ring;
        let ghost data0 = self.payload_ring@;
        let ghost view0 = self@;
        proof {
            self.payload_ring.lemma_view();
            assert(entry_ok(m0, pr0, 0));
            assert(m0.take(0) =~= Seq::<PacketMetadata<H>>::empty());
            lemma_total_size_front(m0);
            if pr0.cap() > 0 {
                lemma_wrap(pr0.read_pos(), pr0.cap() as int);
            }
            lemma_wrap(self.metadata_ring.read_pos(), self.metadata_ring.cap() as int);
        }
        let size = self.metadata_ring.get_allocated(0, 1)[0].size;
        let meta = self.metadata_ring.front_mut();
        let header = match &mut meta.header {
            Some(h) => h,
            None => {
                assert(false);
                return Err(Empty);
            },
        };
        let payload = self.payload_ring.front_many_mut(size);
        proof {
            assert(payload@ =~= data0.take(size as int));
        }
        let res = f(header, payload);
        let ghost m1 = self.metadata_ring@;
        let ghost data1 = self.payload_ring@;
        proof {
            let x = m1[0];
            assert(final(payload)@.len() == size);
            assert(m1 == m0.update(0, x));
            assert(x.size_view() == size);
            assert(x.header_view() == Some(*final(header)));
            assert(data1 == final(payload)@ + data0.skip(size as int));
            lemma_front_replace(m0, data0, pr0, self.payload_ring, x, final(payload)@);
            lemma_front_drop(m0, data0);
        }
        if res.is_ok() {
            let _meta = self.metadata_ring.dequeue_one();
            let _buf = self.payload_ring.dequeue_many(size);
            proof {
                self.payload_ring.lemma_view();
                assert(m1.skip(1) =~= m0.skip(1));
                assert(data1.skip(size as int) =~= data0.skip(size as int));
                lemma_layout_pop(m0, pr0, self.payload_ring);
                assert(self@ == view0.skip(1));
                let k = b0.front_skip() as int;
                lemma_entries_skip(m0, 1);
                assert(b0.entries().skip(k).skip(1) =~= b0.entries().skip(k + 1));
                assert(entries_of(m0)[0] == (m0[0].size_view(), m0[0].header_view()));
                assert(entries_of(m0)[0] == b0.entries()[k]);
                if pr0.cap() > 0 {
                    lemma_shift(b0.payload().read_pos(), b0.front_pad() as int, size as int, pr0.cap() as int);
                }
            }
        } else {
            proof {
                assert(self@ == view0.update(0, (*final(header), final(payload)@)));
                let k = b0.front_skip() as int;
                assert(entries_of(m0) == b0.entries().skip(k));
                assert(m0.len() > 0);
                assert(entries_of(m0).len() == m0.len());
                assert(b0.entries().skip(k)[0] == b0.entries()[k]);
                assert(entries_of(m0)[0] == (m0[0].size_view(), m0[0].header_view()));
                assert(entries_of(m0)[0] == b0.entries()[k]);
                assert(entries_of(m1) =~= entries_of(m0).update(0, (size as nat, Some(*final(header)))));
            }
        }
        proof {
            assert(exists|h: &mut H, b: &mut [u8]|
                {
                    &&& *h == view0[0].0
                    &&& b@ == view0[0].1
                    &&& #[trigger] call_ensures(f, (h, b), res)
                    &&& res is Ok ==> self@ == view0.skip(1)
                    &&& res is Err ==> self@ == view0.update(0, (*final(h), final(b)@))
                    &&& res is Err ==> self.entries() == b0.entries().skip(b0.front_skip() as int).update(
                        0,
                        (b0.entries()[b0.front_skip() as int].0, Some(*final(h))),
                    )
                });
        }
        Ok(res)
    }

    /// Dequeue a single packet from the buffer, and return a reference to its payload
    /// as well as its header, or return `Err(Empty)` if the buffer is empty.
    pub fn dequeue<'b>(&'b mut self) -> (r: Result<(H, &'b mut [u8]), Empty>)
        requires
            old(self).wf(),
        ensures
            r is Err <==> old(self)@.len() == 0,
            r is Err ==> final(self).wf() && final(self)@ == old(self)@,
            r matches Ok((h, buf)) ==> {
                &&& h == old(self)@[0].0
                &&& buf@ == old(self)@[0].1
                &&& final(buf)@.len() == buf@.len() ==> final(self).wf()
                &&& final(buf)@.len() == buf@.len() ==> final(self)@ == old(self)@.skip(1)
                &&& final(buf)@.len() == buf@.len() ==> final(self).payload().cap() == old(self).payload().cap()
            },
            final(self).metadata().cap() == old(self).metadata().cap(),
            r is Err ==> final(self).payload().cap() == old(self).payload().cap(),
            PacketBuffer::front_dropped(*old(self), *final(self), r is Ok),
            r is Ok ==> old(self).front_skip() < old(self).entries().len(),
            r is Err ==> final(self).entries() == old(self).entries().skip(old(self).front_skip() as int),
    {
        let ghost b0 = *self;
        self.dequeue_padding();
        let ghost m0 = self.metadata_ring@;
        let ghost pr0 = self.payload_ring;
        let ghost data0 = self.payload_ring@;
        let ghost view0 = self@;
        proof {
            self.metadata_ring.lemma_view();
            self.payload_ring.lemma_view();
            if m0.len() > 0 {
                assert(entry_ok(m0, pr0, 0));
                assert(m0.take(0) =~= Seq::<PacketMetadata<H>>::empty());
                lemma_total_size_front(m0);
                if pr0.cap() > 0 {
                    lemma_wrap(pr0.read_pos(), pr0.cap() as int);
                }
                lemma_front_drop(m0, data0);
            }
        }
        let meta = match self.metadata_ring.dequeue_one() {
            Ok(meta) => meta,
            Err(e) => {
                return Err(e);
            },
        };
        let size = meta.size;
        proof {
            assert forall|pr: RingBuffer<u8>|
                pr.wf() && pr.cap() == pr0.cap() && pr.read_pos() == pr0.advanced(size as int) implies
                #[trigger] layout_ok(m0.skip(1), pr) by {
                lemma_layout_pop(m0, pr0, pr);
            }
        }
        let payload_buf = self.payload_ring.dequeue_many(size);
        proof {
            assert(payload_buf@ =~= data0.take(size as int));
            let k = b0.front_skip() as int;
            lemma_entries_skip(m0, 1);
            assert(b0.entries().skip(k).skip(1) =~= b0.entries().skip(k + 1));
            assert(entries_of(m0)[0] == (m0[0].size_view(), m0[0].header_view()));
            assert(entries_of(m0)[0] == b0.entries()[k]);
            if pr0.cap() > 0 {
                lemma_shift(b0.payload().read_pos(), b0.front_pad() as int, size as int, pr0.cap() as int);
            }
        }
        match meta.header.take() {
            Some(h) => Ok((h, payload_buf)),
            None => {
                assert(false);
                Err(Empty)
            },
        }
    }

    /// Peek at a single packet from the buffer without removing it, and return a reference to
    /// its payload as well as its header, or return `Err(Empty)` if the buffer is empty.
    ///
    /// This function otherwise behaves identically to [dequeue](#method.dequeue).
    pub fn peek(&mut self) -> (r: Result<(&H, &[u8]), Empty>)
        requires
            old(self).wf(),
        ensures
            final(self).wf(),
            final(self)@ == old(self)@,
            r is Err <==> old(self)@.len() == 0,
            r matches Ok((h, buf)) ==> *h == old(self)@[0].0 && buf@ == old(self)@[0].1,
            final(self).metadata().cap() == old(self).metadata().cap(),
            final(self).payload().cap() == old(self).payload().cap(),
            PacketBuffer::front_dropped(*old(self), *final(self), false),
            final(self).entries() == old(self).entries().skip(old(self).front_skip() as int),
            final(self).front_skip() == 0,
    {
        self.dequeue_padding();
        let ghost m0 = self.metadata_ring@;
        let ghost pr0 = self.payload_ring;
        let ghost data0 = self.payload_ring@;
        proof {
            self.metadata_ring.lemma_view();
            self.payload_ring.lemma_view();
            if m0.len() > 0 {
                assert(entry_ok(m0, pr0, 0));
                assert(m0.take(0) =~= Seq::<PacketMetadata<H>>::empty());
                lemma_total_size_front(m0);
                if pr0.cap() > 0 {
                    lemma_wrap(pr0.read_pos(), pr0.cap() as int);
                }
                lemma_wrap(self.metadata_ring.read_pos(), self.metadata_ring.cap() as int);
            }
        }
        let front = self.metadata_ring.get_allocated(0, 1);
        if front.len() == 0 {
            return Err(Empty);
        }
        let metadata = &front[0];
        proof {
            assert(front@[0] == m0[0]);
        }
        match &metadata.header {
            Some(h) => {
                let payload = self.payload_ring.get_allocated(0, metadata.size);
                proof {
                    assert(payload@ =~= data0.take(m0[0].size_view() as int));
                }
                Ok((h, payload))
            },
            None => {
                assert(false);
                Err(Empty)
            },
        }
    }

    /// Return the number of entries in the metadata ring: the packets held, and the
    /// paddings that skip the end of the payload storage.
    pub fn metadata_len(&self) -> (r: usize)
        ensures
            r == self.metadata()@.len(),
    {
        proof {
            self.metadata_ring.lemma_view();
        }
        self.metadata_ring.len()
    }

    /// Return the maximum number packets that can be stored.
    pub fn packet_capacity(&self) -> (r: usize)
        ensures
            r == self.metadata().cap(),
    {
        self.metadata_ring.capacity()
    }

    /// Return the maximum number of bytes in the payload ring buffer.
    pub fn payload_capacity(&self) -> (r: usize)
        ensures
            r == self.payload().cap(),
    {
        self.payload_ring.capacity()
    }

    /// Return the current number of bytes in the payload ring buffer.
    pub fn payload_bytes_count(&self) -> (r: usize)
        requires
            self.wf(),
        ensures
            r == total_size(self.metadata()@),
    {
        self.payload_ring.len()
    }

    /// Reset the packet buffer and clear any staged.
    pub fn reset(&mut self)
        requires
            old(self).wf(),
        ensures
            final(self).wf(),
            final(self)@ == Seq::<(H, Seq<u8>)>::empty(),
            final(self).metadata()@.len() == 0,
            final(self).metadata().cap() == old(self).metadata().cap(),
            final(self).payload().cap() == old(self).payload().cap(),
    {
        self.payload_ring.clear();
        self.metadata_ring.clear();
        assert(self@ =~= Seq::<(H, Seq<u8>)>::empty());
    }
}

/// The number of payload bytes the packets `v` hold together.
pub open spec fn payload_total<H>(v: Seq<(H, Seq<u8>)>) -> nat
    decreases v.len(),
{
    if v.len() == 0 {
        0
    } else {
        v[0].1.len() + payload_total(v.skip(1))
    }
}

/// The packets that entries describe are no more than the entries, and hold no more
/// bytes than the entries cover.
proof fn lemma_packets_bounds<H>(m: Seq<PacketMetadata<H>>, data: Seq<u8>)
    requires
        total_size(m) == data.len(),
    ensures
        packets_of(m, data).len() <= m.len(),
        payload_total(packets_of(m, data)) <= total_size(m),
    decreases m.len(),
{
    if m.len() > 0 {
        lemma_total_size_front(m);
        let s0 = m[0].size_view() as int;
        lemma_packets_bounds(m.skip(1), data.skip(s0));
        let rest = packets_of(m.skip(1), data.skip(s0));
        if let Some(h) = m[0].header_view() {
            let v = seq![(h, data.take(s0))] + rest;
            assert(v.skip(1) =~= rest);
        }
    }
}

/// A buffer never holds more packets than its metadata storage has entries, nor more
/// payload bytes than its payload storage has room for.
pub proof fn law_packet_buffer_bounds<H>(b: PacketBuffer<H>)
    requires
        b.wf(),
    ensures
        b@.len() <= b.metadata().cap(),
        payload_total(b@) <= b.payload().cap(),
{
    b.metadata().lemma_view();
    b.payload().lemma_view();
    lemma_packets_bounds(b.metadata()@, b.payload()@);
}

/// An empty buffer with room for an entry takes any packet that fits its payload storage.
pub proof fn law_empty_takes_fitting_packet<H>(b: PacketBuffer<H>, size: nat)
    requires
        b.wf(),
        b.metadata()@.len() == 0,
        b.metadata().cap() > 0,
        size <= b.payload().cap(),
    ensures
        b.can_enqueue(size),
{
    b.metadata().lemma_view();
    b.payload().lemma_view();
}


/// `enqueue` of `size` bytes succeeds only with room for them: a free entry, a payload
/// storage that large and that many free payload bytes. It succeeds whenever the bytes
/// also fit contiguously after the last payload byte (from the start of the storage once
/// no payload is held), and when a size succeeds, every smaller size does.
pub proof fn law_enqueue_acceptance<H>(b: PacketBuffer<H>, size: nat, smaller: nat)
    requires
        b.wf(),
        smaller <= size,
    ensures
        b.can_enqueue(size) ==> {
            &&& size <= b.payload().cap()
            &&& b.entries().len() < b.metadata().cap()
            &&& size + total_size(b.metadata()@) <= b.payload().cap()
        },
        size <= b.payload().cap() && b.entries().len() < b.metadata().cap() && size <= b.payload().enqueue_room()
            ==> b.can_enqueue(size),
        b.can_enqueue(size) ==> b.can_enqueue(smaller),
{
    b.metadata().lemma_view();
    b.payload().lemma_view();
}

} // verus!
