//! Address Resolution Protocol packets.

use core::ops::Range;
use vstd::prelude::*;

use super::bytes::{be16, be16_bytes, copy_at, read_u16_at, write_at, write_u16_at};
use super::ethernet::{Address as EthernetAddress, EtherType as Protocol};
use super::ipv4::Address as Ipv4Address;
use super::{Error, Result};

verus! {

/// ARP hardware type.
#[derive(Debug, PartialEq, Eq, PartialOrd, Ord, Hash, Clone, Copy, Structural)]
pub enum Hardware {
    Ethernet,
    Unknown(u16),
}

impl Hardware {
    /// The hardware type that the raw value `v` names.
    pub open spec fn from_raw(v: u16) -> Hardware {
        if v == 1 {
            Hardware::Ethernet
        } else {
            Hardware::Unknown(v)
        }
    }

    /// The raw value of the hardware type.
    pub open spec fn raw(self) -> u16 {
        match self {
            Hardware::Ethernet => 1,
            Hardware::Unknown(v) => v,
        }
    }
}

impl From<u16> for Hardware {
    fn from(value: u16) -> (r: Hardware) {
        match value {
            1 => Hardware::Ethernet,
            other => Hardware::Unknown(other),
        }
    }
}

impl vstd::std_specs::convert::FromSpecImpl<u16> for Hardware {
    open spec fn obeys_from_spec() -> bool {
        true
    }

    open spec fn from_spec(v: u16) -> Hardware {
        Hardware::from_raw(v)
    }
}

impl From<Hardware> for u16 {
    fn from(value: Hardware) -> (r: u16) {
        match value {
            Hardware::Ethernet => 1,
            Hardware::Unknown(other) => other,
        }
    }
}

impl vstd::std_specs::convert::FromSpecImpl<Hardware> for u16 {
    open spec fn obeys_from_spec() -> bool {
        true
    }

    open spec fn from_spec(v: Hardware) -> u16 {
        v.raw()
    }
}

/// ARP operation type.
#[derive(Debug, PartialEq, Eq, PartialOrd, Ord, Hash, Clone, Copy, Structural)]
pub enum Operation {
    Request,
    Reply,
    Unknown(u16),
}

impl Operation {
    /// The operation that the raw value `v` names.
    pub open spec fn from_raw(v: u16) -> Operation {
        if v == 1 {
            Operation::Request
        } else if v == 2 {
            Operation::Reply
        } else {
            Operation::Unknown(v)
        }
    }

    /// The raw value of the operation.
    pub open spec fn raw(self) -> u16 {
        match self {
            Operation::Request => 1,
            Operation::Reply => 2,
            Operation::Unknown(v) => v,
        }
    }

    /// Whether the raw value of the operation reads back as itself.
    pub open spec fn is_canonical(self) -> bool {
        Operation::from_raw(self.raw()) == self
    }
}

impl From<u16> for Operation {
    fn from(value: u16) -> (r: Operation) {
        match value {
            1 => Operation::Request,
            2 => Operation::Reply,
            other => Operation::Unknown(other),
        }
    }
}

impl vstd::std_specs::convert::FromSpecImpl<u16> for Operation {
    open spec fn obeys_from_spec() -> bool {
        true
    }

    open spec fn from_spec(v: u16) -> Operation {
        Operation::from_raw(v)
    }
}

impl From<Operation> for u16 {
    fn from(value: Operation) -> (r: u16) {
        match value {
            Operation::Request => 1,
            Operation::Reply => 2,
            Operation::Unknown(other) => other,
        }
    }
}

impl vstd::std_specs::convert::FromSpecImpl<Operation> for u16 {
    open spec fn obeys_from_spec() -> bool {
        true
    }

    open spec fn from_spec(v: Operation) -> u16 {
        v.raw()
    }
}

/// Offset of the operation field's end, where the addresses start.
pub const OPER_END: usize = 8;

/// The source hardware address field, for the given address lengths.
#[allow(non_snake_case)]
pub fn SHA(hardware_len: u8, _protocol_len: u8) -> (r: Range<usize>)
    ensures
        r.start == OPER_END,
        r.end == OPER_END + hardware_len,
{
    let start = OPER_END;
    start..(start + hardware_len as usize)
}

/// The source protocol address field, for the given address lengths.
#[allow(non_snake_case)]
pub fn SPA(hardware_len: u8, protocol_len: u8) -> (r: Range<usize>)
    ensures
        r.start == OPER_END + hardware_len,
        r.end == OPER_END + hardware_len + protocol_len,
{
    let start = SHA(hardware_len, protocol_len).end;
    start..(start + protocol_len as usize)
}

/// The target hardware address field, for the given address lengths.
#[allow(non_snake_case)]
pub fn THA(hardware_len: u8, protocol_len: u8) -> (r: Range<usize>)
    ensures
        r.start == OPER_END + hardware_len + protocol_len,
        r.end == OPER_END + 2 * hardware_len + protocol_len,
{
    let start = SPA(hardware_len, protocol_len).end;
    start..(start + hardware_len as usize)
}

/// The target protocol address field, for the given address lengths.
#[allow(non_snake_case)]
pub fn TPA(hardware_len: u8, protocol_len: u8) -> (r: Range<usize>)
    ensures
        r.start == OPER_END + 2 * hardware_len + protocol_len,
        r.end == OPER_END + 2 * hardware_len + 2 * protocol_len,
{
    let start = THA(hardware_len, protocol_len).end;
    start..(start + protocol_len as usize)
}

/// The hardware address length field of the packet in `b`.
pub open spec fn hlen_of(b: Seq<u8>) -> int {
    b[4] as int
}

/// The protocol address length field of the packet in `b`.
pub open spec fn plen_of(b: Seq<u8>) -> int {
    b[5] as int
}

/// The length a packet needs to hold all fields, given the address lengths in `b`.
pub open spec fn full_len_of(b: Seq<u8>) -> int {
    OPER_END + 2 * hlen_of(b) + 2 * plen_of(b)
}

/// A read/write wrapper around an Address Resolution Protocol packet buffer.
#[derive(Debug, PartialEq, Eq, Clone)]
pub struct Packet {
    buffer: Vec<u8>,
}

impl Packet {
    /// The bytes of the packet.
    pub closed spec fn bytes(&self) -> Seq<u8> {
        self.buffer@
    }

    /// Imbue a raw octet buffer with ARP packet structure.
    pub fn new_unchecked(buffer: Vec<u8>) -> (r: Packet)
        ensures
            r.bytes() == buffer@,
    {
        Packet { buffer }
    }

    /// Shorthand for a combination of [new_unchecked] and [check_len].
    ///
    /// [new_unchecked]: #method.new_unchecked
    /// [check_len]: #method.check_len
    pub fn new_checked(buffer: Vec<u8>) -> (r: Result<Packet>)
        ensures
            r is Ok <==> buffer@.len() >= OPER_END && buffer@.len() >= full_len_of(buffer@),
            r matches Ok(p) ==> p.bytes() == buffer@,
    {
        let packet = Self::new_unchecked(buffer);
        match packet.check_len() {
            Ok(()) => Ok(packet),
            Err(e) => Err(e),
        }
    }

    /// Ensure that no accessor method will panic if called.
    /// Returns `Err(Error)` if the buffer is too short.
    ///
    /// The result of this check is invalidated by calling [set_hardware_len] or
    /// [set_protocol_len].
    ///
    /// [set_hardware_len]: #method.set_hardware_len
    /// [set_protocol_len]: #method.set_protocol_len
    pub fn check_len(&self) -> (r: Result<()>)
        ensures
            r is Ok <==> self.bytes().len() >= OPER_END && self.bytes().len() >= full_len_of(self.bytes()),
    {
        let len = self.buffer.len();
        if len < OPER_END {
            Err(Error)
        } else if len < TPA(self.hardware_len(), self.protocol_len()).end {
            Err(Error)
        } else {
            Ok(())
        }
    }

    /// Consumes the packet, returning the underlying buffer.
    pub fn into_inner(self) -> (r: Vec<u8>)
        ensures
            r@ == self.bytes(),
    {
        self.buffer
    }

    /// Return the hardware type field.
    pub fn hardware_type(&self) -> (r: Hardware)
        requires
            self.bytes().len() >= 2,
        ensures
            r == Hardware::from_raw(be16(self.bytes()[0], self.bytes()[1])),
    {
        let raw = read_u16_at(self.buffer.as_slice(), 0);
        Hardware::from(raw)
    }

    /// Return the protocol type field.
    pub fn protocol_type(&self) -> (r: Protocol)
        requires
            self.bytes().len() >= 4,
        ensures
            r == Protocol::from_raw(be16(self.bytes()[2], self.bytes()[3])),
    {
        let raw = read_u16_at(self.buffer.as_slice(), 2);
        Protocol::from(raw)
    }

    /// Return the hardware length field.
    pub fn hardware_len(&self) -> (r: u8)
        requires
            self.bytes().len() >= 5,
        ensures
            r == self.bytes()[4],
    {
        self.buffer[4]
    }

    /// Return the protocol length field.
    pub fn protocol_len(&self) -> (r: u8)
        requires
            self.bytes().len() >= 6,
        ensures
            r == self.bytes()[5],
    {
        self.buffer[5]
    }

    /// Return the operation field.
    pub fn operation(&self) -> (r: Operation)
        requires
            self.bytes().len() >= OPER_END,
        ensures
            r == Operation::from_raw(be16(self.bytes()[6], self.bytes()[7])),
    {
        let raw = read_u16_at(self.buffer.as_slice(), 6);
        Operation::from(raw)
    }

    /// Return the source hardware address field.
    pub fn source_hardware_addr(&self) -> (r: &[u8])
        requires
            self.bytes().len() >= OPER_END,
            self.bytes().len() >= OPER_END + hlen_of(self.bytes()),
        ensures
            r@ == self.bytes().subrange(OPER_END as int, OPER_END + hlen_of(self.bytes())),
    {
        let field = SHA(self.hardware_len(), self.protocol_len());
        &self.buffer.as_slice()[field.start..field.end]
    }

    /// Return the source protocol address field.
    pub fn source_protocol_addr(&self) -> (r: &[u8])
        requires
            self.bytes().len() >= OPER_END,
            self.bytes().len() >= OPER_END + hlen_of(self.bytes()) + plen_of(self.bytes()),
        ensures
            r@ == self.bytes().subrange(
                OPER_END + hlen_of(self.bytes()),
                OPER_END + hlen_of(self.bytes()) + plen_of(self.bytes()),
            ),
    {
        let field = SPA(self.hardware_len(), self.protocol_len());
        &self.buffer.as_slice()[field.start..field.end]
    }

    /// Return the target hardware address field.
    pub fn target_hardware_addr(&self) -> (r: &[u8])
        requires
            self.bytes().len() >= OPER_END,
            self.bytes().len() >= OPER_END + 2 * hlen_of(self.bytes()) + plen_of(self.bytes()),
        ensures
            r@ == self.bytes().subrange(
                OPER_END + hlen_of(self.bytes()) + plen_of(self.bytes()),
                OPER_END + 2 * hlen_of(self.bytes()) + plen_of(self.bytes()),
            ),
    {
        let field = THA(self.hardware_len(), self.protocol_len());
        &self.buffer.as_slice()[field.start..field.end]
    }

    /// Return the target protocol address field.
    pub fn target_protocol_addr(&self) -> (r: &[u8])
        requires
            self.bytes().len() >= OPER_END,
            self.bytes().len() >= full_len_of(self.bytes()),
        ensures
            r@ == self.bytes().subrange(
                OPER_END + 2 * hlen_of(self.bytes()) + plen_of(self.bytes()),
                full_len_of(self.bytes()),
            ),
    {
        let field = TPA(self.hardware_len(), self.protocol_len());
        &self.buffer.as_slice()[field.start..field.end]
    }

    /// Set the hardware type field.
    pub fn set_hardware_type(&mut self, value: Hardware)
        requires
            old(self).bytes().len() >= 2,
        ensures
            final(self).bytes() == write_at(old(self).bytes(), 0, be16_bytes(value.raw())),
    {
        write_u16_at(&mut self.buffer, 0, value.into());
    }

    /// Set the protocol type field.
    pub fn set_protocol_type(&mut self, value: Protocol)
        requires
            old(self).bytes().len() >= 4,
        ensures
            final(self).bytes() == write_at(old(self).bytes(), 2, be16_bytes(value.raw())),
    {
        write_u16_at(&mut self.buffer, 2, value.into());
    }

    /// Set the hardware length field.
    pub fn set_hardware_len(&mut self, value: u8)
        requires
            old(self).bytes().len() >= 5,
        ensures
            final(self).bytes() == old(self).bytes().update(4, value),
    {
        self.buffer.set(4, value);
    }

    /// Set the protocol length field.
    pub fn set_protocol_len(&mut self, value: u8)
        requires
            old(self).bytes().len() >= 6,
        ensures
            final(self).bytes() == old(self).bytes().update(5, value),
    {
        self.buffer.set(5, value);
    }

    /// Set the operation field.
    pub fn set_operation(&mut self, value: Operation)
        requires
            old(self).bytes().len() >= OPER_END,
        ensures
            final(self).bytes() == write_at(old(self).bytes(), 6, be16_bytes(value.raw())),
    {
        write_u16_at(&mut self.buffer, 6, value.into());
    }

    /// Set the source hardware address field.
    ///
    /// The function panics if `value` is not `self.hardware_len()` long, or if the field
    /// lies past the buffer; `requires` rules both out.
    pub fn set_source_hardware_addr(&mut self, value: &[u8])
        requires
            old(self).bytes().len() >= OPER_END,
            value@.len() == hlen_of(old(self).bytes()),
            old(self).bytes().len() >= OPER_END + hlen_of(old(self).bytes()),
        ensures
            final(self).bytes() == write_at(old(self).bytes(), OPER_END as int, value@),
    {
        let field = SHA(self.hardware_len(), self.protocol_len());
        copy_at(&mut self.buffer, field.start, value);
    }

    /// Set the source protocol address field.
    ///
    /// The function panics if `value` is not `self.protocol_len()` long, or if the field
    /// lies past the buffer; `requires` rules both out.
    pub fn set_source_protocol_addr(&mut self, value: &[u8])
        requires
            old(self).bytes().len() >= OPER_END,
            value@.len() == plen_of(old(self).bytes()),
            old(self).bytes().len() >= OPER_END + hlen_of(old(self).bytes()) + plen_of(old(self).bytes()),
        ensures
            final(self).bytes() == write_at(old(self).bytes(), OPER_END + hlen_of(old(self).bytes()), value@),
    {
        let field = SPA(self.hardware_len(), self.protocol_len());
        copy_at(&mut self.buffer, field.start, value);
    }

    /// Set the target hardware address field.
    ///
    /// The function panics if `value` is not `self.hardware_len()` long, or if the field
    /// lies past the buffer; `requires` rules both out.
    pub fn set_target_hardware_addr(&mut self, value: &[u8])
        requires
            old(self).bytes().len() >= OPER_END,
            value@.len() == hlen_of(old(self).bytes()),
            old(self).bytes().len() >= OPER_END + 2 * hlen_of(old(self).bytes()) + plen_of(old(self).bytes()),
        ensures
            final(self).bytes() == write_at(
                old(self).bytes(),
                OPER_END + hlen_of(old(self).bytes()) + plen_of(old(self).bytes()),
                value@,
            ),
    {
        let field = THA(self.hardware_len(), self.protocol_len());
        copy_at(&mut self.buffer, field.start, value);
    }

    /// Set the target protocol address field.
    ///
    /// The function panics if `value` is not `self.protocol_len()` long, or if the field
    /// lies past the buffer; `requires` rules both out.
    pub fn set_target_protocol_addr(&mut self, value: &[u8])
        requires
            old(self).bytes().len() >= OPER_END,
            value@.len() == plen_of(old(self).bytes()),
            old(self).bytes().len() >= full_len_of(old(self).bytes()),
        ensures
            final(self).bytes() == write_at(
                old(self).bytes(),
                OPER_END + 2 * hlen_of(old(self).bytes()) + plen_of(old(self).bytes()),
                value@,
            ),
    {
        let field = TPA(self.hardware_len(), self.protocol_len());
        copy_at(&mut self.buffer, field.start, value);
    }
}

/// A high-level representation of an Address Resolution Protocol packet.
#[derive(Debug, PartialEq, Eq, Clone, Copy)]
#[non_exhaustive]
pub enum Repr {
    /// An Ethernet and IPv4 Address Resolution Protocol packet.
    EthernetIpv4 {
        operation: Operation,
        source_hardware_addr: EthernetAddress,
        source_protocol_addr: Ipv4Address,
        target_hardware_addr: EthernetAddress,
        target_protocol_addr: Ipv4Address,
    },
}

impl Repr {
    /// Whether `parse` accepts the packet in `b`: it holds all its fields, and it
    /// resolves IPv4 addresses to Ethernet ones.
    pub open spec fn parses(b: Seq<u8>) -> bool {
        &&& b.len() >= OPER_END
        &&& b.len() >= full_len_of(b)
        &&& Hardware::from_raw(be16(b[0], b[1])) == Hardware::Ethernet
        &&& Protocol::from_raw(be16(b[2], b[3])) == Protocol::Ipv4
        &&& b[4] == 6
        &&& b[5] == 4
    }

    /// Whether this representation is the one that the packet in `b` gives.
    pub open spec fn is_parse_of(self, b: Seq<u8>) -> bool {
        match self {
            Repr::EthernetIpv4 {
                operation,
                source_hardware_addr,
                source_protocol_addr,
                target_hardware_addr,
                target_protocol_addr,
            } => {
                &&& operation == Operation::from_raw(be16(b[6], b[7]))
                &&& source_hardware_addr.0@ == b.subrange(8, 14)
                &&& source_protocol_addr.octets_view() == b.subrange(14, 18)
                &&& target_hardware_addr.0@ == b.subrange(18, 24)
                &&& target_protocol_addr.octets_view() == b.subrange(24, 28)
            },
        }
    }

    /// The bytes that `emit` writes for this representation.
    pub open spec fn packet_bytes(self) -> Seq<u8> {
        match self {
            Repr::EthernetIpv4 {
                operation,
                source_hardware_addr,
                source_protocol_addr,
                target_hardware_addr,
                target_protocol_addr,
            } => be16_bytes(1) + be16_bytes(0x0800) + seq![6u8, 4u8] + be16_bytes(operation.raw())
                + source_hardware_addr.0@ + source_protocol_addr.octets_view() + target_hardware_addr.0@
                + target_protocol_addr.octets_view(),
        }
    }

    /// Parse an Address Resolution Protocol packet and return a high-level representation,
    /// or return `Err(Error)` if the packet is not recognized.
    pub fn parse(packet: &Packet) -> (r: Result<Repr>)
        ensures
            r is Ok <==> Repr::parses(packet.bytes()),
            r matches Ok(repr) ==> repr.is_parse_of(packet.bytes()),
    {
        match packet.check_len() {
            Ok(()) => {},
            Err(e) => {
                return Err(e);
            },
        }
        match (packet.hardware_type(), packet.protocol_type(), packet.hardware_len(), packet.protocol_len()) {
            (Hardware::Ethernet, Protocol::Ipv4, 6, 4) => Ok(
                Repr::EthernetIpv4 {
                    operation: packet.operation(),
                    source_hardware_addr: EthernetAddress::from_bytes(packet.source_hardware_addr()),
                    source_protocol_addr: Ipv4Address::from_bytes(packet.source_protocol_addr()),
                    target_hardware_addr: EthernetAddress::from_bytes(packet.target_hardware_addr()),
                    target_protocol_addr: Ipv4Address::from_bytes(packet.target_protocol_addr()),
                },
            ),
            _ => Err(Error),
        }
    }

    /// Return the length of a packet that will be emitted from this high-level representation.
    pub fn buffer_len(&self) -> (r: usize)
        ensures
            r == 28,
    {
        match self {
            Repr::EthernetIpv4 { .. } => TPA(6, 4).end,
        }
    }

    /// Emit a high-level representation into an Address Resolution Protocol packet.
    ///
    /// The setters panic on a buffer shorter than the packet; `requires` rules that out.
    pub fn emit(&self, packet: &mut Packet)
        requires
            old(packet).bytes().len() >= 28,
        ensures
            final(packet).bytes() == write_at(old(packet).bytes(), 0, self.packet_bytes()),
    {
        let ghost b0 = packet.bytes();
        match self {
            Repr::EthernetIpv4 {
                operation,
                source_hardware_addr,
                source_protocol_addr,
                target_hardware_addr,
                target_protocol_addr,
            } => {
                packet.set_hardware_type(Hardware::Ethernet);
                packet.set_protocol_type(Protocol::Ipv4);
                packet.set_hardware_len(6);
                packet.set_protocol_len(4);
                packet.set_operation(*operation);
                packet.set_source_hardware_addr(source_hardware_addr.as_bytes());
                let spa = source_protocol_addr.octets();
                packet.set_source_protocol_addr(spa.as_slice());
                packet.set_target_hardware_addr(target_hardware_addr.as_bytes());
                let tpa = target_protocol_addr.octets();
                packet.set_target_protocol_addr(tpa.as_slice());
                assert(packet.bytes() =~= write_at(b0, 0, self.packet_bytes()));
            },
        }
    }
}

/// Emitting a representation and parsing the packet gives the representation back,
/// when its operation reads back as itself (an `Unknown` value that a name covers
/// reads back as the name).
pub proof fn law_parse_emit(r: Repr, b: Seq<u8>)
    requires
        b.len() >= 28,
        r matches Repr::EthernetIpv4 { operation, .. } && operation.is_canonical(),
    ensures
        Repr::parses(write_at(b, 0, r.packet_bytes())),
        r.is_parse_of(write_at(b, 0, r.packet_bytes())),
        forall|r2: Repr| #[trigger] r2.is_parse_of(write_at(b, 0, r.packet_bytes())) ==> r2 == r,
{
    let b2 = write_at(b, 0, r.packet_bytes());
    match r {
        Repr::EthernetIpv4 {
            operation,
            source_hardware_addr,
            source_protocol_addr,
            target_hardware_addr,
            target_protocol_addr,
        } => {
            Ipv4Address::lemma_octets_len(source_protocol_addr);
            Ipv4Address::lemma_octets_len(target_protocol_addr);
            assert(b2.subrange(8, 14) =~= source_hardware_addr.0@);
            assert(b2.subrange(14, 18) =~= source_protocol_addr.octets_view());
            assert(b2.subrange(18, 24) =~= target_hardware_addr.0@);
            assert(b2.subrange(24, 28) =~= target_protocol_addr.octets_view());
            assert(b2[0] == be16_bytes(1)[0] && b2[1] == be16_bytes(1)[1]);
            assert(b2[2] == be16_bytes(0x0800)[0] && b2[3] == be16_bytes(0x0800)[1]);
            assert(b2[6] == be16_bytes(operation.raw())[0] && b2[7] == be16_bytes(operation.raw())[1]);
            assert(b2[4] == 6 && b2[5] == 4);
            assert forall|r2: Repr| #[trigger] r2.is_parse_of(b2) implies r2 == r by {
                match r2 {
                    Repr::EthernetIpv4 {
                        operation: o2,
                        source_hardware_addr: sha,
                        source_protocol_addr: spa,
                        target_hardware_addr: tha,
                        target_protocol_addr: tpa,
                    } => {
                        assert(sha.0 =~= source_hardware_addr.0);
                        assert(tha.0 =~= target_hardware_addr.0);
                        Ipv4Address::lemma_octets_eq(spa, source_protocol_addr);
                        Ipv4Address::lemma_octets_eq(tpa, target_protocol_addr);
                    },
                }
            }
        },
    }
}

/// Parsing a packet and emitting the representation into it leaves the packet as it was.
pub proof fn law_emit_parse(r: Repr, b: Seq<u8>)
    requires
        Repr::parses(b),
        r.is_parse_of(b),
    ensures
        write_at(b, 0, r.packet_bytes()) == b,
{
    let h = be16(b[0], b[1]);
    let p = be16(b[2], b[3]);
    let o = be16(b[6], b[7]);
    assert(Hardware::from_raw(h).raw() == h);
    assert(h == 1);
    assert(p == 0x0800);
    assert(Operation::from_raw(o).raw() == o);
    assert(be16_bytes(h) =~= seq![b[0], b[1]]);
    assert(be16_bytes(p) =~= seq![b[2], b[3]]);
    assert(be16_bytes(o) =~= seq![b[6], b[7]]);
    assert(write_at(b, 0, r.packet_bytes()) =~= b);
}

} // verus!
