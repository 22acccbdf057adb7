//! Big-endian fields inside byte buffers, read and written through `byteorder`.

use byteorder::{ByteOrder, NetworkEndian};
use vstd::prelude::*;

verus! {

/// `s` with the bytes from `start` on replaced by `x`.
pub open spec fn write_at(s: Seq<u8>, start: int, x: Seq<u8>) -> Seq<u8> {
    s.subrange(0, start) + x + s.subrange(start + x.len(), s.len() as int)
}

/// The two bytes of `n`, most significant first.
pub open spec fn be16_bytes(n: u16) -> Seq<u8> {
    seq![(n / 256) as u8, (n % 256) as u8]
}

/// The number that the two bytes `hi`, `lo` spell, most significant first.
pub open spec fn be16(hi: u8, lo: u8) -> u16 {
    (hi * 256 + lo) as u16
}

/// `NetworkEndian::read_u16`: the first two bytes of `buf` read as a big-endian number.
/// It panics on a shorter slice, which `requires` rules out.
#[verifier::external_body]
fn read_u16(buf: &[u8]) -> (r: u16)
    requires
        buf@.len() >= 2,
    ensures
        r == be16(buf@[0], buf@[1]),
{
    NetworkEndian::read_u16(buf)
}

/// `NetworkEndian::write_u16`: writes `n` big-endian into the first two bytes of `buf`
/// and leaves the others. It panics on a shorter slice, which `requires` rules out.
#[verifier::external_body]
fn write_u16(buf: &mut [u8], n: u16)
    requires
        old(buf)@.len() >= 2,
    ensures
        final(buf)@ == write_at(old(buf)@, 0, be16_bytes(n)),
{
    NetworkEndian::write_u16(buf, n)
}

/// `NetworkEndian::read_u24`: the first three bytes of `buf` read as a big-endian number.
/// It panics on a shorter slice, which `requires` rules out.
#[verifier::external_body]
fn read_u24(buf: &[u8]) -> (r: u32)
    requires
        buf@.len() >= 3,
    ensures
        r == buf@[0] * 65536 + buf@[1] * 256 + buf@[2],
{
    NetworkEndian::read_u24(buf)
}

/// `NetworkEndian::write_u24`: writes `n` big-endian into the first three bytes of `buf`
/// and leaves the others. It panics on a shorter slice or on a number of more than three
/// bytes, which `requires` rules out.
#[verifier::external_body]
fn write_u24(buf: &mut [u8], n: u32)
    requires
        old(buf)@.len() >= 3,
        n < 0x100_0000,
    ensures
        final(buf)@ == write_at(
            old(buf)@,
            0,
            seq![(n / 65536) as u8, ((n / 256) % 256) as u8, (n % 256) as u8],
        ),
{
    NetworkEndian::write_u24(buf, n)
}

/// The big-endian number in the two bytes at `offset`.
pub(crate) fn read_u16_at(data: &[u8], offset: usize) -> (r: u16)
    requires
        offset + 2 <= data@.len(),
    ensures
        r == be16(data@[offset as int], data@[offset + 1]),
{
    let _len = data.len();
    read_u16(&data[offset..offset + 2])
}

/// The big-endian number in the three bytes at `offset`.
pub(crate) fn read_u24_at(data: &[u8], offset: usize) -> (r: u32)
    requires
        offset + 3 <= data@.len(),
    ensures
        r == data@[offset as int] * 65536 + data@[offset + 1] * 256 + data@[offset + 2],
{
    let _len = data.len();
    read_u24(&data[offset..offset + 3])
}

/// Write `n` big-endian into the two bytes at `offset`.
pub(crate) fn write_u16_at(data: &mut Vec<u8>, offset: usize, n: u16)
    requires
        offset + 2 <= old(data)@.len(),
    ensures
        final(data)@ == write_at(old(data)@, offset as int, be16_bytes(n)),
{
    let ghost d0 = data@;
    let s = data.as_mut_slice();
    let (head, rest) = s.split_at_mut(offset);
    write_u16(rest, n);
    proof {
        assert(final(head)@ == d0.subrange(0, offset as int));
        assert(final(s)@ =~= write_at(d0, offset as int, be16_bytes(n)));
    }
}

/// Write `n`, which fits in three bytes, big-endian into the three bytes at `offset`.
pub(crate) fn write_u24_at(data: &mut Vec<u8>, offset: usize, n: u32)
    requires
        offset + 3 <= old(data)@.len(),
        n < 0x100_0000,
    ensures
        final(data)@ == write_at(
            old(data)@,
            offset as int,
            seq![(n / 65536) as u8, ((n / 256) % 256) as u8, (n % 256) as u8],
        ),
{
    let ghost d0 = data@;
    let s = data.as_mut_slice();
    let (head, rest) = s.split_at_mut(offset);
    write_u24(rest, n);
    proof {
        assert(final(head)@ == d0.subrange(0, offset as int));
        assert(final(s)@ =~= write_at(
            d0,
            offset as int,
            seq![(n / 65536) as u8, ((n / 256) % 256) as u8, (n % 256) as u8],
        ));
    }
}

/// Copy `src` into `data` from `offset` on.
pub(crate) fn copy_at(data: &mut Vec<u8>, offset: usize, src: &[u8])
    requires
        offset + src@.len() <= old(data)@.len(),
    ensures
        final(data)@ == write_at(old(data)@, offset as int, src@),
{
    let ghost d0 = data@;
    let len = data.len();
    let mut i: usize = 0;
    while i < src.len()
        invariant
            offset + src@.len() <= d0.len(),
            len == d0.len(),
            i <= src@.len(),
            data@.len() == d0.len(),
            forall|k: int| 0 <= k < d0.len() ==> #[trigger] data@[k] == if offset <= k < offset + i {
                src@[k - offset]
            } else {
                d0[k]
            },
        decreases src@.len() - i,
    {
        data.set(offset + i, src[i]);
        i = i + 1;
    }
    assert(data@ =~= write_at(d0, offset as int, src@));
}

/// A buffer of `n` zero bytes.
pub(crate) fn zeros(n: usize) -> (r: Vec<u8>)
    ensures
        r@ == Seq::new(n as nat, |i: int| 0u8),
{
    let mut v: Vec<u8> = Vec::new();
    let mut i: usize = 0;
    while i < n
        invariant
            i <= n,
            v@ == Seq::new(i as nat, |k: int| 0u8),
        decreases n - i,
    {
        v.push(0);
        i = i + 1;
        assert(v@ =~= Seq::new(i as nat, |k: int| 0u8));
    }
    v
}

/// Copy `src` into `dst`, which has the same length.
pub(crate) fn copy_slice(dst: &mut [u8], src: &[u8])
    requires
        old(dst)@.len() == src@.len(),
    ensures
        final(dst)@ == src@,
{
    let mut i: usize = 0;
    while i < src.len()
        invariant
            dst@.len() == src@.len(),
            i <= src@.len(),
            forall|k: int| 0 <= k < i ==> #[trigger] dst@[k] == src@[k],
        decreases src@.len() - i,
    {
        dst[i] = src[i];
        i = i + 1;
    }
    assert(dst@ =~= src@);
}

} // verus!
