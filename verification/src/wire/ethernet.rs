//! Ethernet II frames.

use vstd::prelude::*;

use super::bytes::{be16, be16_bytes, copy_at, read_u16_at, write_at, write_u16_at};
use super::{Error, Result};

verus! {

/// Ethernet protocol type: the protocol that an Ethernet frame carries.
#[derive(Debug, PartialEq, Eq, PartialOrd, Ord, Hash, Clone, Copy, Structural)]
pub enum EtherType {
    Ipv4,
    Arp,
    Ipv6,
    Unknown(u16),
}

impl EtherType {
    /// The protocol type that the raw value `v` names.
    pub open spec fn from_raw(v: u16) -> EtherType {
        if v == 0x0800 {
            EtherType::Ipv4
        } else if v == 0x0806 {
            EtherType::Arp
        } else if v == 0x86DD {
            EtherType::Ipv6
        } else {
            EtherType::Unknown(v)
        }
    }

    /// The raw value of the protocol type.
    pub open spec fn raw(self) -> u16 {
        match self {
            EtherType::Ipv4 => 0x0800,
            EtherType::Arp => 0x0806,
            EtherType::Ipv6 => 0x86DD,
            EtherType::Unknown(v) => v,
        }
    }

    /// Whether the raw value of the protocol type reads back as itself: every named
    /// protocol type does, and every `Unknown` value that no name covers.
    pub open spec fn is_canonical(self) -> bool {
        EtherType::from_raw(self.raw()) == self
    }
}

impl From<u16> for EtherType {
    fn from(value: u16) -> (r: EtherType) {
        match value {
            0x0800 => EtherType::Ipv4,
            0x0806 => EtherType::Arp,
            0x86DD => EtherType::Ipv6,
            other => EtherType::Unknown(other),
        }
    }
}

impl vstd::std_specs::convert::FromSpecImpl<u16> for EtherType {
    open spec fn obeys_from_spec() -> bool {
        true
    }

    open spec fn from_spec(v: u16) -> EtherType {
        EtherType::from_raw(v)
    }
}

impl From<EtherType> for u16 {
    fn from(value: EtherType) -> (r: u16) {
        match value {
            EtherType::Ipv4 => 0x0800,
            EtherType::Arp => 0x0806,
            EtherType::Ipv6 => 0x86DD,
            EtherType::Unknown(other) => other,
        }
    }
}

impl vstd::std_specs::convert::FromSpecImpl<EtherType> for u16 {
    open spec fn obeys_from_spec() -> bool {
        true
    }

    open spec fn from_spec(v: EtherType) -> u16 {
        v.raw()
    }
}

/// A six-octet Ethernet II address.
#[derive(Debug, Hash, PartialEq, Eq, PartialOrd, Ord, Clone, Copy, Default)]
pub struct Address(pub [u8; 6]);

impl Address {
    /// The broadcast address: all six octets are `0xff`.
    pub fn broadcast() -> (r: Address)
        ensures
            r.0@ == seq![0xffu8, 0xff, 0xff, 0xff, 0xff, 0xff],
    {
        let r = Address([0xff, 0xff, 0xff, 0xff, 0xff, 0xff]);
        assert(r.0@ =~= seq![0xffu8, 0xff, 0xff, 0xff, 0xff, 0xff]);
        r
    }

    /// Construct an Ethernet address from a sequence of octets, in big-endian.
    ///
    /// The function panics if `data` is not six octets long; `requires` rules that out.
    pub fn from_bytes(data: &[u8]) -> (r: Address)
        requires
            data@.len() == 6,
        ensures
            r.0@ == data@,
    {
        let r = Address([data[0], data[1], data[2], data[3], data[4], data[5]]);
        assert(r.0@ =~= data@);
        r
    }

    /// Return an Ethernet address as a sequence of octets, in big-endian.
    pub fn as_bytes(&self) -> (r: &[u8])
        ensures
            r@ == self.0@,
    {
        self.0.as_slice()
    }

    /// Query whether the address is an unicast address: neither broadcast nor multicast.
    pub fn is_unicast(&self) -> (r: bool)
        ensures
            r == !(self.0@ == seq![0xffu8, 0xff, 0xff, 0xff, 0xff, 0xff] || self.0[0] & 0x01 != 0),
    {
        !(self.is_broadcast() || self.is_multicast())
    }

    /// Query whether this address is the broadcast address.
    pub fn is_broadcast(&self) -> (r: bool)
        ensures
            r == (self.0@ == seq![0xffu8, 0xff, 0xff, 0xff, 0xff, 0xff]),
    {
        let b = &self.0;
        let r = b[0] == 0xff && b[1] == 0xff && b[2] == 0xff && b[3] == 0xff && b[4] == 0xff && b[5] == 0xff;
        proof {
            if r {
                assert(self.0@ =~= seq![0xffu8, 0xff, 0xff, 0xff, 0xff, 0xff]);
            }
        }
        r
    }

    /// Query whether the "multicast" bit in the OUI is set.
    pub fn is_multicast(&self) -> (r: bool)
        ensures
            r == (self.0[0] & 0x01 != 0),
    {
        self.0[0] & 0x01 != 0
    }

    /// Query whether the "locally administered" bit in the OUI is set.
    pub fn is_local(&self) -> (r: bool)
        ensures
            r == (self.0[0] & 0x02 != 0),
    {
        self.0[0] & 0x02 != 0
    }
}

/// The Ethernet header length.
pub const HEADER_LEN: usize = 14;

/// A read/write wrapper around an Ethernet II frame buffer.
#[derive(Debug, Clone)]
pub struct Frame {
    buffer: Vec<u8>,
}

impl Frame {
    /// The bytes of the frame.
    pub closed spec fn bytes(&self) -> Seq<u8> {
        self.buffer@
    }

    /// Imbue a raw octet buffer with Ethernet frame structure.
    pub fn new_unchecked(buffer: Vec<u8>) -> (r: Frame)
        ensures
            r.bytes() == buffer@,
    {
        Frame { buffer }
    }

    /// Shorthand for a combination of [new_unchecked] and [check_len].
    ///
    /// [new_unchecked]: #method.new_unchecked
    /// [check_len]: #method.check_len
    pub fn new_checked(buffer: Vec<u8>) -> (r: Result<Frame>)
        ensures
            r is Ok <==> buffer@.len() >= HEADER_LEN,
            r matches Ok(f) ==> f.bytes() == buffer@,
    {
        let packet = Self::new_unchecked(buffer);
        match packet.check_len() {
            Ok(()) => Ok(packet),
            Err(e) => Err(e),
        }
    }

    /// Ensure that no accessor method will panic if called.
    /// Returns `Err(Error)` if the buffer is too short.
    pub fn check_len(&self) -> (r: Result<()>)
        ensures
            r is Ok <==> self.bytes().len() >= HEADER_LEN,
    {
        let len = self.buffer.len();
        if len < HEADER_LEN {
            Err(Error)
        } else {
            Ok(())
        }
    }

    /// Consumes the frame, returning the underlying buffer.
    pub fn into_inner(self) -> (r: Vec<u8>)
        ensures
            r@ == self.bytes(),
    {
        self.buffer
    }

    /// Return the length of a frame header.
    pub fn header_len() -> (r: usize)
        ensures
            r == HEADER_LEN,
    {
        HEADER_LEN
    }

    /// Return the length of a buffer required to hold a packet with the payload
    /// of a given length.
    pub fn buffer_len(payload_len: usize) -> (r: usize)
        requires
            HEADER_LEN + payload_len <= usize::MAX,
        ensures
            r == HEADER_LEN + payload_len,
    {
        HEADER_LEN + payload_len
    }

    /// Return the destination address field.
    pub fn dst_addr(&self) -> (r: Address)
        requires
            self.bytes().len() >= 6,
        ensures
            r.0@ == self.bytes().subrange(0, 6),
    {
        Address::from_bytes(&self.buffer.as_slice()[0..6])
    }

    /// Return the source address field.
    pub fn src_addr(&self) -> (r: Address)
        requires
            self.bytes().len() >= 12,
        ensures
            r.0@ == self.bytes().subrange(6, 12),
    {
        Address::from_bytes(&self.buffer.as_slice()[6..12])
    }

    /// Return the EtherType field, without checking for 802.1Q.
    pub fn ethertype(&self) -> (r: EtherType)
        requires
            self.bytes().len() >= HEADER_LEN,
        ensures
            r == EtherType::from_raw(be16(self.bytes()[12], self.bytes()[13])),
    {
        let raw = read_u16_at(self.buffer.as_slice(), 12);
        EtherType::from(raw)
    }

    /// Return a pointer to the payload, without checking for 802.1Q.
    pub fn payload(&self) -> (r: &[u8])
        requires
            self.bytes().len() >= HEADER_LEN,
        ensures
            r@ == self.bytes().subrange(HEADER_LEN as int, self.bytes().len() as int),
    {
        let data = self.buffer.as_slice();
        &data[HEADER_LEN..data.len()]
    }

    /// Set the destination address field.
    pub fn set_dst_addr(&mut self, value: Address)
        requires
            old(self).bytes().len() >= 6,
        ensures
            final(self).bytes() == write_at(old(self).bytes(), 0, value.0@),
    {
        copy_at(&mut self.buffer, 0, value.as_bytes());
    }

    /// Set the source address field.
    pub fn set_src_addr(&mut self, value: Address)
        requires
            old(self).bytes().len() >= 12,
        ensures
            final(self).bytes() == write_at(old(self).bytes(), 6, value.0@),
    {
        copy_at(&mut self.buffer, 6, value.as_bytes());
    }

    /// Set the EtherType field.
    pub fn set_ethertype(&mut self, value: EtherType)
        requires
            old(self).bytes().len() >= HEADER_LEN,
        ensures
            final(self).bytes() == write_at(old(self).bytes(), 12, be16_bytes(value.raw())),
    {
        write_u16_at(&mut self.buffer, 12, value.into());
    }

    /// Return a mutable pointer to the payload.
    pub fn payload_mut(&mut self) -> (r: &mut [u8])
        requires
            old(self).bytes().len() >= HEADER_LEN,
        ensures
            r@ == old(self).bytes().subrange(HEADER_LEN as int, old(self).bytes().len() as int),
            final(r)@.len() == r@.len() ==> final(self).bytes() == write_at(
                old(self).bytes(),
                HEADER_LEN as int,
                final(r)@,
            ),
    {
        let ghost d0 = self.buffer@;
        let s = self.buffer.as_mut_slice();
        let (head, rest) = s.split_at_mut(HEADER_LEN);
        proof {
            assert(final(head)@ == d0.subrange(0, HEADER_LEN as int));
            assert forall|x: Seq<u8>| x.len() == rest@.len() implies #[trigger] write_at(d0, HEADER_LEN as int, x)
                == d0.subrange(0, HEADER_LEN as int) + x by {
                assert(write_at(d0, HEADER_LEN as int, x) =~= d0.subrange(0, HEADER_LEN as int) + x);
            }
        }
        rest
    }
}

/// High-level representation of an Ethernet II frame header.
#[derive(Debug, PartialEq, Eq, Clone, Copy)]
pub struct Repr {
    pub src_addr: Address,
    pub dst_addr: Address,
    pub ethertype: EtherType,
}

impl Repr {
    /// Whether this representation is the one that the header in `bytes` gives: the
    /// addresses are the bytes of their fields, and the protocol type is the one
    /// that the big-endian number in its field names.
    pub open spec fn is_parse_of(self, bytes: Seq<u8>) -> bool {
        &&& self.dst_addr.0@ == bytes.subrange(0, 6)
        &&& self.src_addr.0@ == bytes.subrange(6, 12)
        &&& self.ethertype == EtherType::from_raw(be16(bytes[12], bytes[13]))
    }

    /// The header bytes that `emit` writes for this representation.
    pub open spec fn header_bytes(self) -> Seq<u8> {
        self.dst_addr.0@ + self.src_addr.0@ + be16_bytes(self.ethertype.raw())
    }

    /// Parse an Ethernet II frame and return a high-level representation.
    pub fn parse(frame: &Frame) -> (r: Result<Repr>)
        ensures
            r is Ok <==> frame.bytes().len() >= HEADER_LEN,
            r matches Ok(repr) ==> repr.is_parse_of(frame.bytes()),
    {
        match frame.check_len() {
            Ok(()) => {},
            Err(e) => {
                return Err(e);
            },
        }
        let r = Repr { src_addr: frame.src_addr(), dst_addr: frame.dst_addr(), ethertype: frame.ethertype() };
        Ok(r)
    }

    /// Return the length of a header that will be emitted from this high-level representation.
    pub fn buffer_len(&self) -> (r: usize)
        ensures
            r == HEADER_LEN,
    {
        HEADER_LEN
    }

    /// Emit a high-level representation into an Ethernet II frame.
    ///
    /// The function panics if the frame is shorter than the header; `requires` rules that out.
    pub fn emit(&self, frame: &mut Frame)
        requires
            old(frame).bytes().len() >= HEADER_LEN,
        ensures
            final(frame).bytes() == write_at(old(frame).bytes(), 0, self.header_bytes()),
    {
        let ghost b0 = frame.bytes();
        frame.set_src_addr(self.src_addr);
        frame.set_dst_addr(self.dst_addr);
        frame.set_ethertype(self.ethertype);
        assert(frame.bytes() =~= write_at(b0, 0, self.header_bytes()));
    }
}

/// The two bytes of a number read back as that number.
pub proof fn lemma_be16_roundtrip(n: u16)
    ensures
        be16(be16_bytes(n)[0], be16_bytes(n)[1]) == n,
{
}

/// A protocol type read from the two bytes of a raw value gives that value back.
pub proof fn lemma_ethertype_raw_roundtrip(v: u16)
    ensures
        EtherType::from_raw(v).raw() == v,
{
}

/// Emitting a header and parsing the frame gives the header back, when its protocol
/// type reads back as itself (an `Unknown` value that a name covers reads back as
/// the name).
pub proof fn law_parse_emit(r: Repr, b: Seq<u8>)
    requires
        b.len() >= HEADER_LEN,
        r.ethertype.is_canonical(),
    ensures
        r.is_parse_of(write_at(b, 0, r.header_bytes())),
        forall|r2: Repr| #[trigger] r2.is_parse_of(write_at(b, 0, r.header_bytes())) ==> r2 == r,
{
    let b2 = write_at(b, 0, r.header_bytes());
    assert(b2.subrange(0, 6) =~= r.dst_addr.0@);
    assert(b2.subrange(6, 12) =~= r.src_addr.0@);
    assert(b2[12] == be16_bytes(r.ethertype.raw())[0]);
    assert(b2[13] == be16_bytes(r.ethertype.raw())[1]);
    lemma_be16_roundtrip(r.ethertype.raw());
    assert forall|r2: Repr| #[trigger] r2.is_parse_of(b2) implies r2 == r by {
        assert(r2.dst_addr.0 =~= r.dst_addr.0);
        assert(r2.src_addr.0 =~= r.src_addr.0);
    }
}

/// Parsing a frame and emitting the header into it leaves the frame as it was.
pub proof fn law_emit_parse(r: Repr, b: Seq<u8>)
    requires
        b.len() >= HEADER_LEN,
        r.is_parse_of(b),
    ensures
        write_at(b, 0, r.header_bytes()) == b,
{
    let v = be16(b[12], b[13]);
    lemma_ethertype_raw_roundtrip(v);
    assert(be16_bytes(v) =~= seq![b[12], b[13]]);
    assert(write_at(b, 0, r.header_bytes()) =~= b);
}

} // verus!
