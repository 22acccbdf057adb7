//! IPv4 addresses and packets.

use vstd::prelude::*;

use super::bytes::{be16, be16_bytes, copy_at, read_u16_at, write_at, write_u16_at};
use super::ip::checksum::{self, ones_sum};
use super::ip::IpProtocol as Protocol;
use super::{Error, Result};

verus! {

/// A four-octet IPv4 address.
#[derive(Debug, Hash, PartialEq, Eq, PartialOrd, Ord, Clone, Copy, Default)]
pub struct Address {
    octets: [u8; 4],
}

impl Address {
    /// The four octets of the address, most significant first.
    pub closed spec fn octets_view(&self) -> Seq<u8> {
        self.octets@
    }

    /// Construct an IPv4 address from parts.
    pub fn new(a0: u8, a1: u8, a2: u8, a3: u8) -> (r: Address)
        ensures
            r.octets_view() == seq![a0, a1, a2, a3],
    {
        let r = Address { octets: [a0, a1, a2, a3] };
        assert(r.octets@ =~= seq![a0, a1, a2, a3]);
        r
    }

    /// Construct an IPv4 address from a sequence of octets, in big-endian.
    ///
    /// The function panics if `data` is not four octets long; `requires` rules that out.
    pub fn from_bytes(data: &[u8]) -> (r: Address)
        requires
            data@.len() == 4,
        ensures
            r.octets_view() == data@,
    {
        let r = Address { octets: [data[0], data[1], data[2], data[3]] };
        assert(r.octets@ =~= data@);
        r
    }

    /// The unspecified address, 0.0.0.0.
    pub fn unspecified() -> (r: Address)
        ensures
            r.octets_view() == seq![0u8, 0u8, 0u8, 0u8],
    {
        Address::new(0, 0, 0, 0)
    }

    /// Return the four octets of the address.
    pub fn octets(&self) -> (r: [u8; 4])
        ensures
            r@ == self.octets_view(),
    {
        self.octets
    }

    /// An address has four octets.
    pub proof fn lemma_octets_len(a: Address)
        ensures
            a.octets_view().len() == 4,
    {
    }

    /// Whether two addresses hold the same octets is whether they are equal.
    pub proof fn lemma_octets_eq(a: Address, b: Address)
        ensures
            a.octets_view() == b.octets_view() <==> a == b,
    {
        if a.octets_view() == b.octets_view() {
            assert(a.octets =~= b.octets);
        }
    }
}

/// The IPv4 header length, without options.
pub const HEADER_LEN: usize = 20;

/// The version field: the high nibble of the first byte.
pub open spec fn version_of(b: Seq<u8>) -> u8 {
    b[0] >> 4u8
}

/// The header length in bytes: four times the low nibble of the first byte.
pub open spec fn header_len_of(b: Seq<u8>) -> u8 {
    ((b[0] & 0x0fu8) * 4) as u8
}

/// The total length field: header and payload.
pub open spec fn total_len_of(b: Seq<u8>) -> u16 {
    be16(b[2], b[3])
}

/// Whether `b` holds a whole IPv4 header and the payload its total length announces,
/// so that no accessor panics.
pub open spec fn len_ok(b: Seq<u8>) -> bool {
    &&& b.len() >= HEADER_LEN
    &&& b.len() >= header_len_of(b)
    &&& header_len_of(b) <= total_len_of(b)
    &&& b.len() >= total_len_of(b)
}

/// `b` with its header checksum field computed anew: the complement of the ones'
/// complement sum of the header, taken with the field zeroed.
pub open spec fn with_checksum(b: Seq<u8>) -> Seq<u8> {
    let z = write_at(b, 10, seq![0u8, 0u8]);
    write_at(z, 10, be16_bytes((0xffff - ones_sum(z.take(header_len_of(b) as int))) as u16))
}

/// Whether the header checksum of the packet in `b` can be filled in: the buffer holds
/// the checksum field and the whole header.
pub open spec fn fill_ok(b: Seq<u8>) -> bool {
    b.len() >= HEADER_LEN && b.len() >= header_len_of(b)
}

/// Whether the header checksum of the packet held in `buf` can be filled in.
pub(crate) fn fill_ok_exec(buf: &[u8]) -> (r: bool)
    ensures
        r == fill_ok(buf@),
{
    if buf.len() < HEADER_LEN {
        return false;
    }
    let b = buf[0];
    proof {
        lemma_nibble(b);
    }
    buf.len() >= ((b & 0x0f) * 4) as usize
}

/// Fill in the header checksum of the packet held in `buf`.
///
/// The function panics on a buffer shorter than the header; `requires` rules that out.
pub(crate) fn fill_checksum_in(buf: &mut [u8])
    requires
        fill_ok(old(buf)@),
    ensures
        final(buf)@ == with_checksum(old(buf)@),
{
    let ghost b0 = buf@;
    buf[10] = 0;
    buf[11] = 0;
    let b = buf[0];
    proof {
        lemma_nibble(b);
    }
    let hl = ((b & 0x0f) * 4) as usize;
    let ghost z = buf@;
    proof {
        assert(z =~= write_at(b0, 10, seq![0u8, 0u8]));
    }
    let sum = checksum::data(&buf[0..hl]);
    let c: u16 = 0xffff - sum;
    buf[10] = (c / 256) as u8;
    buf[11] = (c % 256) as u8;
    proof {
        assert(buf@ =~= write_at(z, 10, be16_bytes(c)));
    }
}

/// A four-bit field always has a value below 16.
proof fn lemma_nibble(x: u8)
    ensures
        (x & 0x0fu8) <= 15,
        x >> 4u8 <= 15,
{
    assert((x & 0x0fu8) <= 15) by (bit_vector);
    assert(x >> 4u8 <= 15) by (bit_vector);
}

/// A read/write wrapper around an Internet Protocol version 4 packet buffer.
#[derive(Debug, PartialEq, Eq, Clone)]
pub struct Packet {
    buffer: Vec<u8>,
}

impl Packet {
    /// The bytes of the packet.
    pub closed spec fn bytes(&self) -> Seq<u8> {
        self.buffer@
    }

    /// Imbue a raw octet buffer with IPv4 packet structure.
    pub fn new_unchecked(buffer: Vec<u8>) -> (r: Packet)
        ensures
            r.bytes() == buffer@,
    {
        Packet { buffer }
    }

    /// Shorthand for a combination of [new_unchecked] and [check_len].
    ///
    /// [new_unchecked]: #method.new_unchecked
    /// [check_len]: #method.check_len
    pub fn new_checked(buffer: Vec<u8>) -> (r: Result<Packet>)
        ensures
            r is Ok <==> len_ok(buffer@),
            r matches Ok(p) ==> p.bytes() == buffer@,
    {
        let packet = Self::new_unchecked(buffer);
        match packet.check_len() {
            Ok(()) => Ok(packet),
            Err(e) => Err(e),
        }
    }

    /// Ensure that no accessor method will panic if called.
    /// Returns `Err(Error)` if the buffer is too short, or if the header length is
    /// greater than the total length.
    ///
    /// The result of this check is invalidated by calling [set_header_len]
    /// and [set_total_len].
    ///
    /// [set_header_len]: #method.set_header_len
    /// [set_total_len]: #method.set_total_len
    pub fn check_len(&self) -> (r: Result<()>)
        ensures
            r is Ok <==> len_ok(self.bytes()),
    {
        let len = self.buffer.len();
        if len < HEADER_LEN {
            Err(Error)
        } else if len < self.header_len() as usize {
            Err(Error)
        } else if self.header_len() as u16 > self.total_len() {
            Err(Error)
        } else if len < self.total_len() as usize {
            Err(Error)
        } else {
            Ok(())
        }
    }

    /// Consume the packet, returning the underlying buffer.
    pub fn into_inner(self) -> (r: Vec<u8>)
        ensures
            r@ == self.bytes(),
    {
        self.buffer
    }

    /// Return the version field.
    pub fn version(&self) -> (r: u8)
        requires
            self.bytes().len() >= 1,
        ensures
            r == version_of(self.bytes()),
    {
        self.buffer[0] >> 4
    }

    /// Return the header length, in octets.
    pub fn header_len(&self) -> (r: u8)
        requires
            self.bytes().len() >= 1,
        ensures
            r == header_len_of(self.bytes()),
            r <= 60,
    {
        let b = self.buffer[0];
        proof {
            lemma_nibble(b);
        }
        (b & 0x0f) * 4
    }

    /// Return the total length field.
    pub fn total_len(&self) -> (r: u16)
        requires
            self.bytes().len() >= 4,
        ensures
            r == total_len_of(self.bytes()),
    {
        read_u16_at(self.buffer.as_slice(), 2)
    }

    /// Return the fragment identification field.
    pub fn ident(&self) -> (r: u16)
        requires
            self.bytes().len() >= 6,
        ensures
            r == be16(self.bytes()[4], self.bytes()[5]),
    {
        read_u16_at(self.buffer.as_slice(), 4)
    }

    /// Return the time to live field.
    pub fn hop_limit(&self) -> (r: u8)
        requires
            self.bytes().len() >= 9,
        ensures
            r == self.bytes()[8],
    {
        self.buffer[8]
    }

    /// Return the next_header (protocol) field.
    pub fn next_header(&self) -> (r: Protocol)
        requires
            self.bytes().len() >= 10,
        ensures
            r == Protocol::from_raw(self.bytes()[9]),
    {
        Protocol::from(self.buffer[9])
    }

    /// Return the header checksum field.
    pub fn checksum(&self) -> (r: u16)
        requires
            self.bytes().len() >= 12,
        ensures
            r == be16(self.bytes()[10], self.bytes()[11]),
    {
        read_u16_at(self.buffer.as_slice(), 10)
    }

    /// Return the source address field.
    pub fn src_addr(&self) -> (r: Address)
        requires
            self.bytes().len() >= 16,
        ensures
            r.octets_view() == self.bytes().subrange(12, 16),
    {
        Address::from_bytes(&self.buffer.as_slice()[12..16])
    }

    /// Return the destination address field.
    pub fn dst_addr(&self) -> (r: Address)
        requires
            self.bytes().len() >= HEADER_LEN,
        ensures
            r.octets_view() == self.bytes().subrange(16, 20),
    {
        Address::from_bytes(&self.buffer.as_slice()[16..20])
    }

    /// Validate the header checksum.
    ///
    /// The function panics if the buffer is shorter than the header length; `requires`
    /// rules that out.
    pub fn verify_checksum(&self) -> (r: bool)
        requires
            self.bytes().len() >= 1,
            self.bytes().len() >= header_len_of(self.bytes()),
        ensures
            r == (ones_sum(self.bytes().take(header_len_of(self.bytes()) as int)) == 0xffff),
    {
        let hl = self.header_len() as usize;
        let header = &self.buffer.as_slice()[0..hl];
        assert(header@ == self.bytes().take(hl as int));
        checksum::data(header) == 0xffff
    }

    /// Return a pointer to the payload.
    ///
    /// The function panics unless the header length lies within the total length,
    /// which lies within the buffer; `requires` rules that out.
    pub fn payload(&self) -> (r: &[u8])
        requires
            len_ok(self.bytes()),
        ensures
            r@ == self.bytes().subrange(header_len_of(self.bytes()) as int, total_len_of(self.bytes()) as int),
    {
        let start = self.header_len() as usize;
        let end = self.total_len() as usize;
        &self.buffer.as_slice()[start..end]
    }

    /// Set the version field.
    pub fn set_version(&mut self, value: u8)
        requires
            old(self).bytes().len() >= 1,
        ensures
            final(self).bytes() == old(self).bytes().update(0, (old(self).bytes()[0] & 0x0f) | (value << 4u8)),
    {
        let b = self.buffer[0];
        self.buffer.set(0, (b & 0x0f) | (value << 4));
    }

    /// Set the next header (protocol) field.
    pub fn set_next_header(&mut self, value: Protocol)
        requires
            old(self).bytes().len() >= 10,
        ensures
            final(self).bytes() == old(self).bytes().update(9, value.raw()),
    {
        self.buffer.set(9, value.into());
    }

    /// Set the header checksum field.
    pub fn set_checksum(&mut self, value: u16)
        requires
            old(self).bytes().len() >= 12,
        ensures
            final(self).bytes() == write_at(old(self).bytes(), 10, be16_bytes(value)),
    {
        write_u16_at(&mut self.buffer, 10, value);
    }

    /// Compute and fill in the header checksum.
    ///
    /// The function panics if the buffer is shorter than the header length; `requires`
    /// rules that out.
    pub fn fill_checksum(&mut self)
        requires
            old(self).bytes().len() >= HEADER_LEN,
            old(self).bytes().len() >= header_len_of(old(self).bytes()),
        ensures
            final(self).bytes() == with_checksum(old(self).bytes()),
    {
        self.set_checksum(0);
        proof {
            assert(be16_bytes(0) =~= seq![0u8, 0u8]);
        }
        let hl = self.header_len() as usize;
        let header = &self.buffer.as_slice()[0..hl];
        assert(header@ == self.bytes().take(hl as int));
        let sum = checksum::data(header);
        self.set_checksum(0xffff - sum);
    }
}

/// A high-level representation of an Internet Protocol version 4 packet header.
#[derive(Debug, PartialEq, Eq, Clone, Copy)]
pub struct Repr {
    pub src_addr: Address,
    pub dst_addr: Address,
    pub next_header: Protocol,
    pub payload_len: usize,
    pub hop_limit: u8,
}

impl Repr {
    /// Whether this representation is the one that the header in `b` gives.
    pub open spec fn is_parse_of(self, b: Seq<u8>) -> bool {
        &&& self.src_addr.octets_view() == b.subrange(12, 16)
        &&& self.dst_addr.octets_view() == b.subrange(16, 20)
        &&& self.next_header == Protocol::from_raw(b[9])
        &&& self.payload_len == total_len_of(b) - header_len_of(b)
        &&& self.hop_limit == b[8]
    }

    /// Whether `parse` accepts the packet in `b`: a whole header of version 4 with a
    /// valid checksum, and the payload that its total length announces.
    pub open spec fn parses(b: Seq<u8>) -> bool {
        &&& len_ok(b)
        &&& version_of(b) == 4
        &&& ones_sum(b.take(header_len_of(b) as int)) == 0xffff
    }

    /// Whether `emit` can write this representation: its total length fits the 16-bit field.
    pub open spec fn emit_ok(self) -> bool {
        (self.payload_len as u16) + HEADER_LEN <= 0xffff
    }

    /// The header that `emit` writes, before its checksum is filled in: version 4 with
    /// no options, no DSCP or ECN, identification 0, "don't fragment" and no fragment
    /// offset, then the fields of this representation; the payload length is truncated
    /// to 16 bits.
    pub open spec fn header_unsummed(self) -> Seq<u8> {
        seq![0x45u8, 0u8] + be16_bytes((HEADER_LEN + (self.payload_len as u16)) as u16) + seq![
            0u8,
            0u8,
            0x40u8,
            0u8,
            self.hop_limit,
            self.next_header.raw(),
            0u8,
            0u8,
        ] + self.src_addr.octets_view() + self.dst_addr.octets_view()
    }

    /// The header that `emit` writes: the one above with its checksum filled in.
    pub open spec fn header_bytes(self) -> Seq<u8> {
        let h = self.header_unsummed();
        write_at(h, 10, be16_bytes((0xffff - ones_sum(h)) as u16))
    }

    /// The header that `emit` writes is a whole header.
    pub proof fn lemma_header_bytes_len(self)
        ensures
            self.header_unsummed().len() == HEADER_LEN,
            self.header_bytes().len() == HEADER_LEN,
    {
        Address::lemma_octets_len(self.src_addr);
        Address::lemma_octets_len(self.dst_addr);
    }

    /// Parse an Internet Protocol version 4 packet and return a high-level representation.
    ///
    /// The header checksum is verified. Fragments are accepted: reassembling them is
    /// left to the caller.
    pub fn parse(packet: &Packet) -> (r: Result<Repr>)
        ensures
            r is Ok <==> Repr::parses(packet.bytes()),
            r matches Ok(repr) ==> repr.is_parse_of(packet.bytes()),
    {
        match packet.check_len() {
            Ok(()) => {},
            Err(e) => {
                return Err(e);
            },
        }
        // Version 4 is expected.
        if packet.version() != 4 {
            return Err(Error);
        }
        // Valid checksum is expected.
        if !packet.verify_checksum() {
            return Err(Error);
        }
        let payload_len = packet.total_len() as usize - packet.header_len() as usize;
        Ok(
            Repr {
                src_addr: packet.src_addr(),
                dst_addr: packet.dst_addr(),
                next_header: packet.next_header(),
                payload_len,
                hop_limit: packet.hop_limit(),
            },
        )
    }

    /// Return the length of a header that will be emitted from this high-level representation.
    pub fn buffer_len(&self) -> (r: usize)
        ensures
            r == HEADER_LEN,
    {
        HEADER_LEN
    }

    /// The header that `emit` writes, as a buffer of its own.
    pub(crate) fn header(&self) -> (r: Vec<u8>)
        requires
            self.emit_ok(),
        ensures
            r@ == self.header_bytes(),
    {
        let total: u16 = HEADER_LEN as u16 + self.payload_len as u16;
        let s = self.src_addr.octets();
        let d = self.dst_addr.octets();
        let proto: u8 = self.next_header.into();
        let mut h: Vec<u8> = vec![
            0x45, 0x00, (total / 256) as u8, (total % 256) as u8, 0x00, 0x00, 0x40, 0x00,
            self.hop_limit, proto, 0x00, 0x00, s[0], s[1], s[2], s[3], d[0], d[1], d[2], d[3],
        ];
        proof {
            Address::lemma_octets_len(self.src_addr);
            Address::lemma_octets_len(self.dst_addr);
            assert(h@ =~= self.header_unsummed());
        }
        let sum = checksum::data(h.as_slice());
        write_u16_at(&mut h, 10, 0xffff - sum);
        h
    }

    /// Emit a high-level representation into an Internet Protocol version 4 packet,
    /// with its header checksum filled in.
    ///
    /// The function panics on a buffer shorter than the header, or on a total length
    /// that overflows its 16-bit field; `requires` rules both out.
    pub fn emit(&self, packet: &mut Packet)
        requires
            old(packet).bytes().len() >= HEADER_LEN,
            self.emit_ok(),
        ensures
            final(packet).bytes() == write_at(old(packet).bytes(), 0, self.header_bytes()),
    {
        let h = self.header();
        proof {
            self.lemma_header_bytes_len();
        }
        copy_at(&mut packet.buffer, 0, h.as_slice());
    }
}

/// Emitting a header and parsing the packet gives the header back, when its payload
/// length fits the 16-bit total length field, the buffer holds that payload, and its
/// next header reads back as itself (an `Unknown` number that a name covers reads back
/// as the name): the checksum that `emit` fills in verifies.
pub proof fn law_parse_emit(r: Repr, b: Seq<u8>)
    requires
        r.payload_len + HEADER_LEN <= 0xffff,
        b.len() >= HEADER_LEN + r.payload_len,
        r.next_header.is_canonical(),
    ensures
        r.emit_ok(),
        Repr::parses(write_at(b, 0, r.header_bytes())),
        r.is_parse_of(write_at(b, 0, r.header_bytes())),
        forall|r2: Repr| #[trigger] r2.is_parse_of(write_at(b, 0, r.header_bytes())) ==> r2 == r,
{
    r.lemma_header_bytes_len();
    let h = r.header_unsummed();
    let hb = r.header_bytes();
    let b2 = write_at(b, 0, hb);
    let n = (HEADER_LEN + r.payload_len) as u16;
    assert(r.payload_len as u16 == r.payload_len);
    checksum::law_checksum_verifies(h, 10);
    assert(b2[0] == 0x45u8);
    assert(0x45u8 >> 4u8 == 4u8) by (bit_vector);
    assert(((0x45u8 & 0x0fu8) * 4) as u8 == 20u8) by (bit_vector);
    assert(b2[2] == be16_bytes(n)[0] && b2[3] == be16_bytes(n)[1]);
    assert(be16(be16_bytes(n)[0], be16_bytes(n)[1]) == n);
    assert(b2.take(20) =~= hb);
    assert(b2[9] == r.next_header.raw());
    assert(b2[8] == r.hop_limit);
    Address::lemma_octets_len(r.src_addr);
    Address::lemma_octets_len(r.dst_addr);
    assert(b2.subrange(12, 16) =~= r.src_addr.octets_view());
    assert(b2.subrange(16, 20) =~= r.dst_addr.octets_view());
    assert forall|r2: Repr| #[trigger] r2.is_parse_of(b2) implies r2 == r by {
        Address::lemma_octets_eq(r2.src_addr, r.src_addr);
        Address::lemma_octets_eq(r2.dst_addr, r.dst_addr);
    }
}

/// A packet whose header checksum was filled in passes the checksum check, when its
/// header reaches past the checksum field.
pub proof fn law_filled_checksum_verifies(b: Seq<u8>)
    requires
        fill_ok(b),
    ensures
        header_len_of(with_checksum(b)) == header_len_of(b),
        ones_sum(with_checksum(b).take(header_len_of(b) as int)) == 0xffff || header_len_of(b) < 12,
{
    let z = write_at(b, 10, seq![0u8, 0u8]);
    let hl = header_len_of(b) as int;
    let q = with_checksum(b);
    assert(q[0] == b[0]);
    if hl >= 12 {
        lemma_nibble(b[0]);
        let zh = z.take(hl);
        assert(zh[10] == 0 && zh[11] == 0);
        checksum::law_checksum_verifies(zh, 10);
        assert(q.take(hl) =~= write_at(zh, 10, be16_bytes((0xffff - ones_sum(zh)) as u16)));
    }
}


/// `parse` accepts exactly the buffers that hold a whole header of version 4, no longer
/// than the total length, and the payload that the total length announces, with a
/// header checksum that verifies: whatever their type of service, identification,
/// flags and fragment offset.
pub proof fn law_parse_accepts(b: Seq<u8>)
    requires
        b.len() >= HEADER_LEN,
    ensures
        Repr::parses(b) <==> {
            let hl = (b[0] % 16) * 4;
            let tl = b[2] * 256 + b[3];
            &&& b[0] / 16 == 4
            &&& hl <= b.len()
            &&& hl <= tl
            &&& tl <= b.len()
            &&& ones_sum(b.take(hl)) == 0xffff
        },
{
    let x = b[0];
    assert(((x & 0x0fu8) * 4) as u8 == (x % 16) * 4) by (bit_vector);
    assert((x >> 4u8 == 4) <==> x / 16 == 4) by (bit_vector);
    let h = b[2];
    let l = b[3];
    assert((h * 256 + l) as u16 == h * 256 + l) by (nonlinear_arith);
}

} // verus!
