//! Low-level packet access and construction.
//!
//! The `wire` module deals with the packet *representation*. It provides two levels
//! of functionality: the lowest level gives access to the fields of a packet held in
//! a byte buffer, and the highest level converts a packet to and from a plain value
//! of its header ("representation"), `parse` in one direction and `emit` in the other.

pub mod arp;
pub mod bytes;
pub mod ethernet;
pub mod ieee802154;
pub mod ip;
pub mod ipv4;
pub mod ipv6;

pub use self::arp::{
    Hardware as ArpHardware, Operation as ArpOperation, Packet as ArpPacket, Repr as ArpRepr,
};
pub use self::ethernet::{
    Address as EthernetAddress, EtherType as EthernetProtocol, Frame as EthernetFrame,
    Repr as EthernetRepr,
};
pub use self::ieee802154::Address as Ieee802154Address;
pub use self::ip::{IpProtocol, IpRepr, IpVersion};
pub use self::ipv4::{Address as Ipv4Address, Packet as Ipv4Packet, Repr as Ipv4Repr};
pub use self::ipv6::{
    Address as Ipv6Address, Cidr as Ipv6Cidr, Packet as Ipv6Packet, Repr as Ipv6Repr,
};

use vstd::prelude::*;

verus! {

/// The error type for the networking stack: a packet could not be parsed.
#[derive(Debug, PartialEq, Eq, Clone, Copy, Structural)]
pub struct Error;

/// The result type for the networking stack.
pub type Result<T> = core::result::Result<T, Error>;

} // verus!
