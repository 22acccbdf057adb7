//! Fields shared by the versions of the Internet Protocol.

use vstd::prelude::*;

pub mod checksum;

use super::bytes::{write_at, zeros};
use super::ipv4::{self, Repr as Ipv4Repr};
use super::ipv6::{self, Packet as Ipv6Packet, Repr as Ipv6Repr};
use super::{Error, Result};

verus! {

/// Internet protocol number: the protocol that follows the IP header.
#[derive(Debug, PartialEq, Eq, PartialOrd, Ord, Hash, Clone, Copy, Structural)]
pub enum IpProtocol {
    HopByHop,
    Icmp,
    Igmp,
    Tcp,
    Udp,
    Ipv6Route,
    Ipv6Frag,
    IpSecEsp,
    IpSecAh,
    Icmpv6,
    Ipv6NoNxt,
    Ipv6Opts,
    Unknown(u8),
}

impl IpProtocol {
    /// The protocol that the number `v` names.
    pub open spec fn from_raw(v: u8) -> IpProtocol {
        if v == 0x00 {
            IpProtocol::HopByHop
        } else if v == 0x01 {
            IpProtocol::Icmp
        } else if v == 0x02 {
            IpProtocol::Igmp
        } else if v == 0x06 {
            IpProtocol::Tcp
        } else if v == 0x11 {
            IpProtocol::Udp
        } else if v == 0x2b {
            IpProtocol::Ipv6Route
        } else if v == 0x2c {
            IpProtocol::Ipv6Frag
        } else if v == 0x32 {
            IpProtocol::IpSecEsp
        } else if v == 0x33 {
            IpProtocol::IpSecAh
        } else if v == 0x3a {
            IpProtocol::Icmpv6
        } else if v == 0x3b {
            IpProtocol::Ipv6NoNxt
        } else if v == 0x3c {
            IpProtocol::Ipv6Opts
        } else {
            IpProtocol::Unknown(v)
        }
    }

    /// The number of the protocol.
    pub open spec fn raw(self) -> u8 {
        match self {
            IpProtocol::HopByHop => 0x00,
            IpProtocol::Icmp => 0x01,
            IpProtocol::Igmp => 0x02,
            IpProtocol::Tcp => 0x06,
            IpProtocol::Udp => 0x11,
            IpProtocol::Ipv6Route => 0x2b,
            IpProtocol::Ipv6Frag => 0x2c,
            IpProtocol::IpSecEsp => 0x32,
            IpProtocol::IpSecAh => 0x33,
            IpProtocol::Icmpv6 => 0x3a,
            IpProtocol::Ipv6NoNxt => 0x3b,
            IpProtocol::Ipv6Opts => 0x3c,
            IpProtocol::Unknown(v) => v,
        }
    }

    /// Whether the number of the protocol reads back as itself: every named protocol
    /// does, and every `Unknown` number that no name covers.
    pub open spec fn is_canonical(self) -> bool {
        IpProtocol::from_raw(self.raw()) == self
    }
}

impl From<u8> for IpProtocol {
    fn from(value: u8) -> (r: IpProtocol) {
        match value {
            0x00 => IpProtocol::HopByHop,
            0x01 => IpProtocol::Icmp,
            0x02 => IpProtocol::Igmp,
            0x06 => IpProtocol::Tcp,
            0x11 => IpProtocol::Udp,
            0x2b => IpProtocol::Ipv6Route,
            0x2c => IpProtocol::Ipv6Frag,
            0x32 => IpProtocol::IpSecEsp,
            0x33 => IpProtocol::IpSecAh,
            0x3a => IpProtocol::Icmpv6,
            0x3b => IpProtocol::Ipv6NoNxt,
            0x3c => IpProtocol::Ipv6Opts,
            other => IpProtocol::Unknown(other),
        }
    }
}

impl vstd::std_specs::convert::FromSpecImpl<u8> for IpProtocol {
    open spec fn obeys_from_spec() -> bool {
        true
    }

    open spec fn from_spec(v: u8) -> IpProtocol {
        IpProtocol::from_raw(v)
    }
}

impl From<IpProtocol> for u8 {
    fn from(value: IpProtocol) -> (r: u8) {
        match value {
            IpProtocol::HopByHop => 0x00,
            IpProtocol::Icmp => 0x01,
            IpProtocol::Igmp => 0x02,
            IpProtocol::Tcp => 0x06,
            IpProtocol::Udp => 0x11,
            IpProtocol::Ipv6Route => 0x2b,
            IpProtocol::Ipv6Frag => 0x2c,
            IpProtocol::IpSecEsp => 0x32,
            IpProtocol::IpSecAh => 0x33,
            IpProtocol::Icmpv6 => 0x3a,
            IpProtocol::Ipv6NoNxt => 0x3b,
            IpProtocol::Ipv6Opts => 0x3c,
            IpProtocol::Unknown(other) => other,
        }
    }
}

impl vstd::std_specs::convert::FromSpecImpl<IpProtocol> for u8 {
    open spec fn obeys_from_spec() -> bool {
        true
    }

    open spec fn from_spec(v: IpProtocol) -> u8 {
        v.raw()
    }
}

/// Internet protocol version.
#[derive(Debug, PartialEq, Eq, PartialOrd, Ord, Hash, Clone, Copy, Structural)]
pub enum IpVersion {
    Ipv4,
    Ipv6,
}

impl IpVersion {
    /// Return the version of an IP packet stored in the provided buffer: the high
    /// nibble of its first byte. An empty buffer, or a version other than 4 and 6,
    /// gives `Err(Error)`.
    pub fn of_packet(data: &[u8]) -> (r: Result<IpVersion>)
        ensures
            r is Ok <==> data@.len() > 0 && (data@[0] >> 4u8 == 4 || data@[0] >> 4u8 == 6),
            r matches Ok(v) ==> v == if data@[0] >> 4u8 == 4 {
                IpVersion::Ipv4
            } else {
                IpVersion::Ipv6
            },
    {
        if data.len() == 0 {
            return Err(Error);
        }
        let v = data[0] >> 4;
        if v == 4 {
            Ok(IpVersion::Ipv4)
        } else if v == 6 {
            Ok(IpVersion::Ipv6)
        } else {
            Err(Error)
        }
    }
}

/// An IP packet header, of version 4 or 6.
#[derive(Debug, PartialEq, Eq, Clone, Copy)]
pub enum IpRepr {
    Ipv4(Ipv4Repr),
    Ipv6(Ipv6Repr),
}

impl IpRepr {
    /// The protocol version of the header.
    pub open spec fn version_spec(self) -> IpVersion {
        match self {
            IpRepr::Ipv4(_) => IpVersion::Ipv4,
            IpRepr::Ipv6(_) => IpVersion::Ipv6,
        }
    }

    /// Return the protocol version.
    pub fn version(&self) -> (r: IpVersion)
        ensures
            r == self.version_spec(),
    {
        match self {
            IpRepr::Ipv4(_) => IpVersion::Ipv4,
            IpRepr::Ipv6(_) => IpVersion::Ipv6,
        }
    }

    /// Return the next header (protocol).
    pub fn next_header(&self) -> (r: IpProtocol)
        ensures
            r == self.next_header_spec(),
    {
        match self {
            IpRepr::Ipv4(repr) => repr.next_header,
            IpRepr::Ipv6(repr) => repr.next_header,
        }
    }

    /// The next header (protocol) of the packet.
    pub open spec fn next_header_spec(self) -> IpProtocol {
        match self {
            IpRepr::Ipv4(repr) => repr.next_header,
            IpRepr::Ipv6(repr) => repr.next_header,
        }
    }

    /// The length of the header that `emit` writes.
    pub open spec fn header_len_spec(self) -> nat {
        match self {
            IpRepr::Ipv4(_) => ipv4::HEADER_LEN as nat,
            IpRepr::Ipv6(_) => ipv6::HEADER_LEN as nat,
        }
    }

    /// Whether `emit` can write this header: an IPv4 total length must fit its field.
    pub open spec fn emit_ok(self) -> bool {
        match self {
            IpRepr::Ipv4(repr) => repr.emit_ok(),
            IpRepr::Ipv6(_) => true,
        }
    }

    /// The header bytes that `emit` writes.
    pub open spec fn header_bytes(self) -> Seq<u8> {
        match self {
            IpRepr::Ipv4(repr) => repr.header_bytes(),
            IpRepr::Ipv6(repr) => repr.header_bytes(),
        }
    }

    /// The header that `emit` writes is as long as `header_len` says.
    pub proof fn lemma_header_bytes_len(self)
        ensures
            self.header_bytes().len() == self.header_len_spec(),
    {
        match self {
            IpRepr::Ipv4(repr) => repr.lemma_header_bytes_len(),
            IpRepr::Ipv6(repr) => repr.lemma_header_bytes_len(),
        }
    }

    /// Emit this high-level representation into the header at the start of `buffer`;
    /// an IPv4 header gets its checksum filled in.
    ///
    /// The function panics on a buffer shorter than the header, or on an IPv4 total
    /// length that overflows its field; `requires` rules both out.
    pub fn emit(&self, buffer: &mut [u8])
        requires
            old(buffer)@.len() >= self.header_len_spec(),
            self.emit_ok(),
        ensures
            final(buffer)@ == write_at(old(buffer)@, 0, self.header_bytes()),
    {
        let header = match self {
            IpRepr::Ipv4(repr) => repr.header(),
            IpRepr::Ipv6(repr) => {
                let mut packet = Ipv6Packet::new_unchecked(zeros(ipv6::HEADER_LEN));
                repr.emit(&mut packet);
                proof {
                    repr.lemma_header_bytes_len();
                }
                let header = packet.into_inner();
                assert(header@ =~= repr.header_bytes());
                header
            },
        };
        proof {
            self.lemma_header_bytes_len();
        }
        let ghost b0 = buffer@;
        let mut i: usize = 0;
        while i < header.len()
            invariant
                header@ == self.header_bytes(),
                header@.len() == self.header_len_spec(),
                b0.len() >= self.header_len_spec(),
                i <= header@.len(),
                buffer@.len() == b0.len(),
                forall|k: int| 0 <= k < b0.len() ==> #[trigger] buffer@[k] == if k < i {
                    header@[k]
                } else {
                    b0[k]
                },
            decreases header@.len() - i,
        {
            buffer[i] = header[i];
            i = i + 1;
        }
        assert(buffer@ =~= write_at(b0, 0, self.header_bytes()));
    }

    /// Return the length of the header.
    pub fn header_len(&self) -> (r: usize)
        ensures
            r == self.header_len_spec(),
    {
        match self {
            IpRepr::Ipv4(repr) => repr.buffer_len(),
            IpRepr::Ipv6(repr) => repr.buffer_len(),
        }
    }
}


/// A protocol number reads back as itself: naming it and taking its number again gives
/// the number, and the names are those of the IANA numbers.
pub proof fn law_protocol_number_roundtrip(v: u8)
    ensures
        IpProtocol::from_raw(v).raw() == v,
        IpProtocol::from_raw(v).is_canonical(),
        v == 6 <==> IpProtocol::from_raw(v) == IpProtocol::Tcp,
        v == 17 <==> IpProtocol::from_raw(v) == IpProtocol::Udp,
        v == 1 <==> IpProtocol::from_raw(v) == IpProtocol::Icmp,
        v == 58 <==> IpProtocol::from_raw(v) == IpProtocol::Icmpv6,
{
}

/// A header of each version is as long as that version's fixed header.
pub proof fn law_header_len(r4: Ipv4Repr, r6: Ipv6Repr)
    ensures
        IpRepr::Ipv4(r4).header_len_spec() == 20,
        IpRepr::Ipv6(r6).header_len_spec() == 40,
        IpRepr::Ipv4(r4).header_bytes().len() == 20,
        IpRepr::Ipv6(r6).header_bytes().len() == 40,
{
    r4.lemma_header_bytes_len();
    r6.lemma_header_bytes_len();
}

} // verus!
