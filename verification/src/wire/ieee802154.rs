//! IEEE 802.15.4 link-layer addresses.

use vstd::prelude::*;

verus! {

/// An IEEE 802.15.4 address: absent, short (two octets) or extended (eight octets).
#[derive(Debug, PartialEq, Eq, PartialOrd, Ord, Hash, Clone, Copy)]
pub enum Address {
    Absent,
    Short([u8; 2]),
    Extended([u8; 8]),
}

impl Address {
    /// Whether the address is absent.
    pub fn is_absent(&self) -> (r: bool)
        ensures
            r == (*self is Absent),
    {
        match self {
            Address::Absent => true,
            _ => false,
        }
    }
}

} // verus!
