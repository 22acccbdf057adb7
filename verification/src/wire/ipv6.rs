//! IPv6 addresses, CIDR blocks and packets.

use vstd::prelude::*;

use super::bytes::{be16, be16_bytes, copy_at, read_u16_at, read_u24_at, write_at, write_u16_at, write_u24_at};
use super::ip::IpProtocol as Protocol;
use super::{Error, Result};

verus! {

/// Minimum MTU required of all links supporting IPv6. See [RFC 8200 § 5].
///
/// [RFC 8200 § 5]: https://tools.ietf.org/html/rfc8200#section-5
pub const MIN_MTU: usize = 1280;

/// Size of IPv6 addresses in octets.
///
/// [RFC 8200 § 2]: https://www.rfc-editor.org/rfc/rfc4291#section-2
pub const ADDR_SIZE: usize = 16;

/// The scope of an address: of a multicast address as its scope field gives it, and
/// of a unicast address as source address selection uses it.
///
/// [scope]: https://www.rfc-editor.org/rfc/rfc4291#section-2.7
#[derive(Debug, Clone, Copy, PartialEq, Eq, Structural)]
pub enum MulticastScope {
    /// Interface Local scope
    InterfaceLocal,
    /// Link local scope
    LinkLocal,
    /// Administratively configured
    AdminLocal,
    /// Single site scope
    SiteLocal,
    /// Organization scope
    OrganizationLocal,
    /// Global scope
    Global,
    /// Unknown scope
    Unknown,
}

impl MulticastScope {
    /// The scope that the four-bit field value `v` names.
    pub open spec fn from_raw(v: u8) -> MulticastScope {
        if v == 0x1 {
            MulticastScope::InterfaceLocal
        } else if v == 0x2 {
            MulticastScope::LinkLocal
        } else if v == 0x4 {
            MulticastScope::AdminLocal
        } else if v == 0x5 {
            MulticastScope::SiteLocal
        } else if v == 0x8 {
            MulticastScope::OrganizationLocal
        } else if v == 0xE {
            MulticastScope::Global
        } else {
            MulticastScope::Unknown
        }
    }
}

impl From<u8> for MulticastScope {
    fn from(value: u8) -> (r: MulticastScope) {
        match value {
            0x1 => MulticastScope::InterfaceLocal,
            0x2 => MulticastScope::LinkLocal,
            0x4 => MulticastScope::AdminLocal,
            0x5 => MulticastScope::SiteLocal,
            0x8 => MulticastScope::OrganizationLocal,
            0xE => MulticastScope::Global,
            _ => MulticastScope::Unknown,
        }
    }
}

impl vstd::std_specs::convert::FromSpecImpl<u8> for MulticastScope {
    open spec fn obeys_from_spec() -> bool {
        true
    }

    open spec fn from_spec(v: u8) -> MulticastScope {
        MulticastScope::from_raw(v)
    }
}

/// A sixteen-octet IPv6 address.
#[derive(Debug, Hash, PartialEq, Eq, PartialOrd, Ord, Clone, Copy)]
pub struct Address {
    octets: [u8; 16],
}

/// Bit `i` of the address octets `o`, counted from the most significant bit of the first octet.
pub open spec fn addr_bit(o: Seq<u8>, i: int) -> bool {
    (o[i / 8] >> ((7 - i % 8) as u8)) & 1 == 1
}

/// Whether the octets `o` are a subnet mask of `n` leading ones and zeros after them.
pub open spec fn is_prefix_mask(o: Seq<u8>, n: int) -> bool {
    &&& 0 <= n <= 128
    &&& forall|i: int| 0 <= i < 128 ==> #[trigger] addr_bit(o, i) == (i < n)
}

/// The octets `o` with every bit past the first `m` cleared.
pub open spec fn mask_spec(o: Seq<u8>, m: int) -> Seq<u8> {
    Seq::new(
        16,
        |i: int|
            if i < m / 8 {
                o[i]
            } else if i == m / 8 {
                o[i] & !(0xffu8 >> ((m % 8) as u8))
            } else {
                0u8
            },
    )
}

/// Whether the first `n` octets of `o` are those of `p`.
pub open spec fn starts_with(o: Seq<u8>, p: Seq<u8>) -> bool {
    o.subrange(0, p.len() as int) == p
}

impl Address {
    /// The sixteen octets of the address, most significant first.
    pub closed spec fn octets_view(&self) -> Seq<u8> {
        self.octets@
    }

    /// The address whose octets are `o`.
    pub closed spec fn from_octets_spec(o: [u8; 16]) -> Address {
        Address { octets: o }
    }

    /// Whether the address is the unspecified address `::`.
    pub open spec fn is_unspecified_spec(&self) -> bool {
        forall|i: int| 0 <= i < 16 ==> #[trigger] self.octets_view()[i] == 0
    }

    /// Whether the address is a multicast address, `ff00::/8`.
    pub open spec fn is_multicast_spec(&self) -> bool {
        self.octets_view()[0] == 0xff
    }

    /// Whether the address is a unicast address: neither multicast nor unspecified.
    pub open spec fn is_unicast_spec(&self) -> bool {
        !(self.is_multicast_spec() || self.is_unspecified_spec())
    }

    /// Whether the address is a link-local unicast address, `fe80::/64`.
    pub open spec fn is_link_local_spec(&self) -> bool {
        starts_with(self.octets_view(), seq![0xfeu8, 0x80, 0, 0, 0, 0, 0, 0])
    }

    /// Whether the address is a unique local address, `fc00::/7`.
    pub open spec fn is_unique_local_spec(&self) -> bool {
        self.octets_view()[0] & 0xfe == 0xfc
    }

    /// Whether the address is a global unicast address, `2000::/3`.
    pub open spec fn is_global_unicast_spec(&self) -> bool {
        self.octets_view()[0] >> 5 == 1
    }

    /// The scope of the address: for a multicast address, the one its scope field names;
    /// for a unicast one, link-local for a link-local address, global for a unique local
    /// or global unicast address; unknown otherwise.
    pub open spec fn scope_spec(&self) -> MulticastScope {
        if self.is_multicast_spec() {
            MulticastScope::from_raw(self.octets_view()[1] & 0b1111)
        } else if self.is_link_local_spec() {
            MulticastScope::LinkLocal
        } else if self.is_unique_local_spec() || self.is_global_unicast_spec() {
            MulticastScope::Global
        } else {
            MulticastScope::Unknown
        }
    }

    /// Whether two addresses hold the same octets is whether they are equal.
    pub proof fn lemma_octets_eq(a: Address, b: Address)
        ensures
            a.octets_view() == b.octets_view() <==> a == b,
    {
        if a.octets_view() == b.octets_view() {
            assert(a.octets =~= b.octets);
        }
    }

    /// Create an IPv6 address from its eight 16-bit segments, most significant first.
    pub fn new(a0: u16, a1: u16, a2: u16, a3: u16, a4: u16, a5: u16, a6: u16, a7: u16) -> (r: Address)
        ensures
            r.octets_view() == be16_bytes(a0) + be16_bytes(a1) + be16_bytes(a2) + be16_bytes(a3)
                + be16_bytes(a4) + be16_bytes(a5) + be16_bytes(a6) + be16_bytes(a7),
    {
        let r = Address {
            octets: [
                (a0 / 256) as u8, (a0 % 256) as u8, (a1 / 256) as u8, (a1 % 256) as u8,
                (a2 / 256) as u8, (a2 % 256) as u8, (a3 / 256) as u8, (a3 % 256) as u8,
                (a4 / 256) as u8, (a4 % 256) as u8, (a5 / 256) as u8, (a5 % 256) as u8,
                (a6 / 256) as u8, (a6 % 256) as u8, (a7 / 256) as u8, (a7 % 256) as u8,
            ],
        };
        assert(r.octets@ =~= be16_bytes(a0) + be16_bytes(a1) + be16_bytes(a2) + be16_bytes(a3)
            + be16_bytes(a4) + be16_bytes(a5) + be16_bytes(a6) + be16_bytes(a7));
        r
    }

    /// The unspecified address `::`.
    pub fn unspecified() -> (r: Address)
        ensures
            r.is_unspecified_spec(),
    {
        Address { octets: [0u8; 16] }
    }

    /// The loopback address `::1`.
    pub fn localhost() -> (r: Address)
        ensures
            r.octets_view() == Seq::new(15, |i: int| 0u8).push(1u8),
    {
        let r = Address { octets: [0, 0, 0, 0, 0, 0, 0, 0, 0, 0, 0, 0, 0, 0, 0, 1] };
        assert(r.octets@ =~= Seq::new(15, |i: int| 0u8).push(1u8));
        r
    }

    /// Construct an IPv6 address from a sequence of octets, in big-endian.
    ///
    /// The function panics if `data` is not sixteen octets long; `requires` rules that out.
    pub fn from_bytes(data: &[u8]) -> (r: Address)
        requires
            data@.len() == 16,
        ensures
            r.octets_view() == data@,
    {
        let r = Address {
            octets: [
                data[0], data[1], data[2], data[3], data[4], data[5], data[6], data[7],
                data[8], data[9], data[10], data[11], data[12], data[13], data[14], data[15],
            ],
        };
        assert(r.octets@ =~= data@);
        r
    }

    /// Return the sixteen octets of the address.
    pub fn octets(&self) -> (r: [u8; 16])
        ensures
            r@ == self.octets_view(),
    {
        self.octets
    }

    /// Whether the first octets of the address are those of `pattern`.
    fn has_prefix(&self, pattern: &[u8]) -> (r: bool)
        requires
            pattern@.len() <= 16,
        ensures
            r == starts_with(self.octets_view(), pattern@),
    {
        let mut i: usize = 0;
        while i < pattern.len()
            invariant
                pattern@.len() <= 16,
                i <= pattern@.len(),
                forall|k: int| 0 <= k < i ==> self.octets@[k] == pattern@[k],
            decreases pattern@.len() - i,
        {
            if self.octets[i] != pattern[i] {
                assert(self.octets@.subrange(0, pattern@.len() as int)[i as int] != pattern@[i as int]);
                return false;
            }
            i = i + 1;
        }
        assert(self.octets@.subrange(0, pattern@.len() as int) =~= pattern@);
        true
    }

    /// Query whether the IPv6 address is the unspecified address.
    pub fn is_unspecified(&self) -> (r: bool)
        ensures
            r == self.is_unspecified_spec(),
    {
        let r = self.has_prefix(&[0u8, 0, 0, 0, 0, 0, 0, 0, 0, 0, 0, 0, 0, 0, 0, 0]);
        proof {
            let z = seq![0u8, 0, 0, 0, 0, 0, 0, 0, 0, 0, 0, 0, 0, 0, 0, 0];
            assert([0u8, 0, 0, 0, 0, 0, 0, 0, 0, 0, 0, 0, 0, 0, 0, 0]@ =~= z);
            assert(self.octets@.subrange(0, 16) =~= self.octets@);
            if self.is_unspecified_spec() {
                assert(self.octets@ =~= z);
            }
        }
        r
    }

    /// Query whether the IPv6 address is the loopback address `::1`.
    pub fn is_loopback(&self) -> (r: bool)
        ensures
            r == (self.octets_view() == Seq::new(15, |i: int| 0u8).push(1u8)),
    {
        let r = self.has_prefix(&[0, 0, 0, 0, 0, 0, 0, 0, 0, 0, 0, 0, 0, 0, 0, 1]);
        proof {
            let l = Seq::new(15, |i: int| 0u8).push(1u8);
            assert([0u8, 0, 0, 0, 0, 0, 0, 0, 0, 0, 0, 0, 0, 0, 0, 1]@ =~= l);
            assert(self.octets@.subrange(0, 16) =~= self.octets@);
        }
        r
    }

    /// Query whether the IPv6 address is a multicast address.
    pub fn is_multicast(&self) -> (r: bool)
        ensures
            r == self.is_multicast_spec(),
    {
        self.octets[0] == 0xff
    }

    /// Query whether the IPv6 address is an [unicast address].
    ///
    /// [unicast address]: https://tools.ietf.org/html/rfc4291#section-2.5
    ///
    /// `x_` prefix is to avoid a collision with the still-unstable method in `core::ip`.
    pub fn x_is_unicast(&self) -> (r: bool)
        ensures
            r == self.is_unicast_spec(),
    {
        !(self.is_multicast() || self.is_unspecified())
    }

    /// Query whether the IPv6 address is a [global unicast address].
    ///
    /// [global unicast address]: https://datatracker.ietf.org/doc/html/rfc3587
    pub fn is_global_unicast(&self) -> (r: bool)
        ensures
            r == self.is_global_unicast_spec(),
    {
        (self.octets[0] >> 5) == 0b001
    }

    /// Query whether the IPv6 address is in the [link-local] scope.
    ///
    /// [link-local]: https://tools.ietf.org/html/rfc4291#section-2.5.6
    pub fn is_link_local(&self) -> (r: bool)
        ensures
            r == self.is_link_local_spec(),
    {
        let r = self.has_prefix(&[0xfe, 0x80, 0x00, 0x00, 0x00, 0x00, 0x00, 0x00]);
        assert([0xfeu8, 0x80, 0x00, 0x00, 0x00, 0x00, 0x00, 0x00]@ =~= seq![0xfeu8, 0x80, 0, 0, 0, 0, 0, 0]);
        r
    }

    /// Query whether the IPv6 address is a [Unique Local Address] (ULA).
    ///
    /// [Unique Local Address]: https://tools.ietf.org/html/rfc4193
    ///
    /// `x_` prefix is to avoid a collision with the still-unstable method in `core::ip`.
    pub fn x_is_unique_local(&self) -> (r: bool)
        ensures
            r == self.is_unique_local_spec(),
    {
        (self.octets[0] & 0b1111_1110) == 0xfc
    }

    /// Helper function used to mask an address given a prefix.
    ///
    /// The function panics if `mask` is greater than 128; `requires` rules that out.
    pub fn mask(&self, mask: u8) -> (r: [u8; 16])
        requires
            mask <= 128,
        ensures
            r@ == mask_spec(self.octets_view(), mask as int),
    {
        let mut bytes = [0u8; 16];
        let idx = (mask / 8) as usize;
        let modulus = mask % 8;
        let mut i: usize = 0;
        while i < idx
            invariant
                idx == mask / 8,
                idx <= 16,
                i <= idx,
                forall|k: int| 0 <= k < i ==> bytes@[k] == self.octets@[k],
                forall|k: int| i <= k < 16 ==> bytes@[k] == 0,
            decreases idx - i,
        {
            bytes[i] = self.octets[i];
            i = i + 1;
        }
        if idx < 16 {
            let part = self.octets[idx];
            bytes[idx] = part & !(0xffu8 >> modulus);
        }
        assert(bytes@ =~= mask_spec(self.octets@, mask as int));
        bytes
    }

    /// The [solicited node multicast address] of a unicast address.
    ///
    /// The function panics if the address is not unicast; `requires` rules that out.
    ///
    /// [solicited node multicast address]: https://tools.ietf.org/html/rfc4291#section-2.7.1
    pub fn solicited_node(&self) -> (r: Address)
        requires
            self.is_unicast_spec(),
        ensures
            r.octets_view() == seq![0xffu8, 0x02, 0, 0, 0, 0, 0, 0, 0, 0, 0, 0x01, 0xff] + self.octets_view().subrange(13, 16),
    {
        let o = &self.octets;
        let r = Address {
            octets: [
                0xff, 0x02, 0x00, 0x00, 0x00, 0x00, 0x00, 0x00, 0x00, 0x00, 0x00, 0x01, 0xFF, o[13],
                o[14], o[15],
            ],
        };
        assert(r.octets@ =~= seq![0xffu8, 0x02, 0, 0, 0, 0, 0, 0, 0, 0, 0, 0x01, 0xff] + self.octets@.subrange(13, 16));
        r
    }

    /// The scope of the address: for a multicast address, the one its scope field names;
    /// for a unicast one, link-local for a link-local address, global for a unique local
    /// or global unicast address; unknown otherwise.
    pub fn x_multicast_scope(&self) -> (r: MulticastScope)
        ensures
            r == self.scope_spec(),
    {
        if self.is_multicast() {
            return MulticastScope::from(self.octets[1] & 0b1111);
        }
        if self.is_link_local() {
            MulticastScope::LinkLocal
        } else if self.x_is_unique_local() || self.is_global_unicast() {
            // ULA are considered global scope
            // https://www.rfc-editor.org/rfc/rfc6724#section-3.1
            MulticastScope::Global
        } else {
            MulticastScope::Unknown
        }
    }

    /// Query whether the IPv6 address is a [solicited-node multicast address].
    ///
    /// [Solicited-node multicast address]: https://datatracker.ietf.org/doc/html/rfc4291#section-2.7.1
    pub fn is_solicited_node_multicast(&self) -> (r: bool)
        ensures
            r == starts_with(self.octets_view(), seq![0xffu8, 0x02, 0, 0, 0, 0, 0, 0, 0, 0, 0, 0x01, 0xff]),
    {
        let r = self.has_prefix(&[0xff, 0x02, 0x00, 0x00, 0x00, 0x00, 0x00, 0x00, 0x00, 0x00, 0x00, 0x01, 0xFF]);
        assert([0xffu8, 0x02, 0x00, 0x00, 0x00, 0x00, 0x00, 0x00, 0x00, 0x00, 0x00, 0x01, 0xFF]@
            =~= seq![0xffu8, 0x02, 0, 0, 0, 0, 0, 0, 0, 0, 0, 0x01, 0xff]);
        r
    }

    /// If `self` is a CIDR-compatible subnet mask, return `Some(prefix_len)`,
    /// where `prefix_len` is the number of leading ones, otherwise return `None`.
    pub fn prefix_len(&self) -> (r: Option<u8>)
        ensures
            r matches Some(n) ==> is_prefix_mask(self.octets_view(), n as int),
            r is None ==> forall|n: int| !is_prefix_mask(self.octets_view(), n),
    {
        let mut ones = true;
        let mut prefix_len: u8 = 0;
        let mut j: usize = 0;
        while j < 16
            invariant
                j <= 16,
                prefix_len <= 8 * j,
                ones ==> prefix_len == 8 * j,
                !ones ==> prefix_len < 8 * j,
                forall|i: int| 0 <= i < 8 * j ==> #[trigger] addr_bit(self.octets@, i) == (i < prefix_len),
            decreases 16 - j,
        {
            let byte = self.octets[j];
            let mut mask: u8 = 0x80;
            let mut k: u8 = 0;
            assert(0x80u8 >> 0u8 == 0x80u8) by (bit_vector);
            while k < 8
                invariant
                    j < 16,
                    byte == self.octets@[j as int],
                    k <= 8,
                    mask == 0x80u8 >> k,
                    prefix_len <= 8 * j + k,
                    ones ==> prefix_len == 8 * j + k,
                    !ones ==> prefix_len < 8 * j + k,
                    forall|i: int| 0 <= i < 8 * j + k ==> #[trigger] addr_bit(self.octets@, i) == (i < prefix_len),
                decreases 8 - k,
            {
                let one = byte & mask != 0;
                proof {
                    lemma_bit_of_mask(byte, k);
                    let t = 8 * j + k;
                    assert(t / 8 == j as int && t % 8 == k as int);
                    assert(addr_bit(self.octets@, t) == one);
                }
                if ones {
                    // Expect 1s until first 0
                    if one {
                        prefix_len = prefix_len + 1;
                    } else {
                        ones = false;
                    }
                } else if one {
                    // 1 where 0 was expected
                    proof {
                        let t = 8 * j + k;
                        assert(!addr_bit(self.octets@, prefix_len as int));
                        assert(addr_bit(self.octets@, t));
                        assert forall|n: int| !is_prefix_mask(self.octets@, n) by {
                            if is_prefix_mask(self.octets@, n) {
                                assert(addr_bit(self.octets@, prefix_len as int) == (prefix_len < n));
                                assert(addr_bit(self.octets@, t) == (t < n));
                            }
                        }
                    }
                    return None;
                }
                proof {
                    lemma_mask_step(k);
                }
                mask = mask >> 1;
                k = k + 1;
            }
            j = j + 1;
        }
        Some(prefix_len)
    }
}

/// Bit `k` of `byte`, counted from the most significant, is set exactly when
/// `byte & (0x80 >> k)` is not zero.
proof fn lemma_bit_of_mask(byte: u8, k: u8)
    requires
        k < 8,
    ensures
        (byte & (0x80u8 >> k) != 0) == ((byte >> ((7 - k) as u8)) & 1 == 1),
{
    assert((byte & (0x80u8 >> k) != 0) == ((byte >> ((7 - k) as u8)) & 1 == 1)) by (bit_vector)
        requires
            k < 8,
    ;
}

/// Shifting the bit one place further right.
proof fn lemma_mask_step(k: u8)
    requires
        k < 8,
    ensures
        (0x80u8 >> k) >> 1u8 == 0x80u8 >> ((k + 1) as u8),
{
    assert((0x80u8 >> k) >> 1u8 == 0x80u8 >> ((k + 1) as u8)) by (bit_vector)
        requires
            k < 8,
    ;
}

impl From<[u8; 16]> for Address {
    fn from(octets: [u8; 16]) -> (r: Address) {
        Address { octets }
    }
}

impl vstd::std_specs::convert::FromSpecImpl<[u8; 16]> for Address {
    open spec fn obeys_from_spec() -> bool {
        true
    }

    open spec fn from_spec(v: [u8; 16]) -> Address {
        Address::from_octets_spec(v)
    }
}

/// The [link-local all nodes multicast address], `ff02::1`.
///
/// [link-local all nodes multicast address]: https://tools.ietf.org/html/rfc4291#section-2.7.1
pub fn link_local_all_nodes() -> (r: Address)
    ensures
        r.octets_view() == seq![0xffu8, 0x02, 0, 0, 0, 0, 0, 0, 0, 0, 0, 0, 0, 0, 0, 1],
{
    let r = Address::new(0xff02, 0, 0, 0, 0, 0, 0, 1);
    assert(r.octets_view() =~= seq![0xffu8, 0x02, 0, 0, 0, 0, 0, 0, 0, 0, 0, 0, 0, 0, 0, 1]);
    r
}

/// The [link-local all routers multicast address], `ff02::2`.
///
/// [link-local all routers multicast address]: https://tools.ietf.org/html/rfc4291#section-2.7.1
pub fn link_local_all_routers() -> (r: Address)
    ensures
        r.octets_view() == seq![0xffu8, 0x02, 0, 0, 0, 0, 0, 0, 0, 0, 0, 0, 0, 0, 0, 2],
{
    let r = Address::new(0xff02, 0, 0, 0, 0, 0, 0, 2);
    assert(r.octets_view() =~= seq![0xffu8, 0x02, 0, 0, 0, 0, 0, 0, 0, 0, 0, 0, 0, 0, 0, 2]);
    r
}

/// The [link-local all MLDv2-capable routers multicast address], `ff02::16`.
///
/// [link-local all MLDv2-capable routers multicast address]: https://tools.ietf.org/html/rfc3810#section-11
pub fn link_local_all_mldv2_routers() -> (r: Address)
    ensures
        r.octets_view() == seq![0xffu8, 0x02, 0, 0, 0, 0, 0, 0, 0, 0, 0, 0, 0, 0, 0, 0x16],
{
    let r = Address::new(0xff02, 0, 0, 0, 0, 0, 0, 0x16);
    assert(r.octets_view() =~= seq![0xffu8, 0x02, 0, 0, 0, 0, 0, 0, 0, 0, 0, 0, 0, 0, 0, 0x16]);
    r
}

/// The [link-local all RPL nodes multicast address], `ff02::1a`.
///
/// [link-local all RPL nodes multicast address]: https://www.rfc-editor.org/rfc/rfc6550.html#section-20.19
pub fn link_local_all_rpl_nodes() -> (r: Address)
    ensures
        r.octets_view() == seq![0xffu8, 0x02, 0, 0, 0, 0, 0, 0, 0, 0, 0, 0, 0, 0, 0, 0x1a],
{
    let r = Address::new(0xff02, 0, 0, 0, 0, 0, 0, 0x1a);
    assert(r.octets_view() =~= seq![0xffu8, 0x02, 0, 0, 0, 0, 0, 0, 0, 0, 0, 0, 0, 0, 0, 0x1a]);
    r
}

/// Whether two octet sequences are equal, compared octet by octet.
fn octets_eq(a: &[u8; 16], b: &[u8; 16]) -> (r: bool)
    ensures
        r == (a@ == b@),
{
    let mut i: usize = 0;
    while i < 16
        invariant
            i <= 16,
            forall|k: int| 0 <= k < i ==> a@[k] == b@[k],
        decreases 16 - i,
    {
        if a[i] != b[i] {
            return false;
        }
        i = i + 1;
    }
    assert(a@ =~= b@);
    true
}

/// A specification of an IPv6 CIDR block, containing an address and a variable-length
/// subnet masking prefix length.
#[derive(Debug, Hash, PartialEq, Eq, PartialOrd, Ord, Clone, Copy)]
pub struct Cidr {
    address: Address,
    prefix_len: u8,
}

impl Cidr {
    /// The address of the block.
    pub closed spec fn address_view(&self) -> Address {
        self.address
    }

    /// The prefix length of the block.
    pub closed spec fn prefix_len_view(&self) -> u8 {
        self.prefix_len
    }

    /// The block's invariant: a prefix covers at most the 128 bits of an address.
    pub open spec fn wf(&self) -> bool {
        self.prefix_len_view() <= 128
    }

    /// Whether the subnet this block describes contains `addr`: the first `prefix_len`
    /// bits of `addr` are those of the block's address.
    pub open spec fn contains_spec(&self, addr: Address) -> bool {
        mask_spec(self.address_view().octets_view(), self.prefix_len_view() as int)
            == mask_spec(addr.octets_view(), self.prefix_len_view() as int)
    }

    /// Whether the subnet this block describes contains the one `subnet` describes.
    pub open spec fn contains_subnet_spec(&self, subnet: Cidr) -> bool {
        self.prefix_len_view() <= subnet.prefix_len_view() && self.contains_spec(subnet.address_view())
    }

    /// The [solicited node prefix], `ff02::1:ff00:0/104`.
    ///
    /// [solicited node prefix]: https://tools.ietf.org/html/rfc4291#section-2.7.1
    pub fn solicited_node_prefix() -> (r: Cidr)
        ensures
            r.wf(),
            r.address_view().octets_view() == seq![0xffu8, 0x02, 0, 0, 0, 0, 0, 0, 0, 0, 0, 0x01, 0xff, 0, 0, 0],
            r.prefix_len_view() == 104,
    {
        let address = Address::new(0xff02, 0, 0, 0, 0, 1, 0xff00, 0);
        assert(address.octets_view() =~= seq![0xffu8, 0x02, 0, 0, 0, 0, 0, 0, 0, 0, 0, 0x01, 0xff, 0, 0, 0]);
        Cidr { address, prefix_len: 104 }
    }

    /// Create an IPv6 CIDR block from the given address and prefix length.
    ///
    /// The function panics if the prefix length is larger than 128; `requires` rules that out.
    pub fn new(address: Address, prefix_len: u8) -> (r: Cidr)
        requires
            prefix_len <= 128,
        ensures
            r.wf(),
            r.address_view() == address,
            r.prefix_len_view() == prefix_len,
    {
        Cidr { address, prefix_len }
    }

    /// Return the address of this IPv6 CIDR block.
    pub fn address(&self) -> (r: Address)
        ensures
            r == self.address_view(),
    {
        self.address
    }

    /// Return the prefix length of this IPv6 CIDR block.
    pub fn prefix_len(&self) -> (r: u8)
        ensures
            r == self.prefix_len_view(),
    {
        self.prefix_len
    }

    /// Query whether the subnetwork described by this IPv6 CIDR block contains
    /// the given address.
    pub fn contains_addr(&self, addr: &Address) -> (r: bool)
        requires
            self.wf(),
        ensures
            r == self.contains_spec(*addr),
    {
        // right shift by 128 is not legal
        if self.prefix_len == 0 {
            proof {
                lemma_mask_zero(self.address.octets@);
                lemma_mask_zero(addr.octets@);
            }
            return true;
        }
        let a = self.address.mask(self.prefix_len);
        let b = addr.mask(self.prefix_len);
        octets_eq(&a, &b)
    }

    /// Query whether the subnetwork described by this IPv6 CIDR block contains
    /// the subnetwork described by the given IPv6 CIDR block.
    pub fn contains_subnet(&self, subnet: &Cidr) -> (r: bool)
        requires
            self.wf(),
        ensures
            r == self.contains_subnet_spec(*subnet),
    {
        self.prefix_len <= subnet.prefix_len && self.contains_addr(&subnet.address)
    }
}

/// With a prefix of no bits, every address masks to all zeros.
proof fn lemma_mask_zero(o: Seq<u8>)
    ensures
        mask_spec(o, 0) == Seq::new(16, |i: int| 0u8),
{
    assert forall|x: u8| #[trigger] (x & !(0xffu8 >> 0u8)) == 0u8 by {
        assert((x & !(0xffu8 >> 0u8)) == 0u8) by (bit_vector);
    }
    assert(mask_spec(o, 0) =~= Seq::new(16, |i: int| 0u8));
}

/// The IPv6 header length.
pub const HEADER_LEN: usize = 40;

/// The version field: the high nibble of the first byte.
pub open spec fn version_of(b: Seq<u8>) -> u8 {
    b[0] >> 4
}

/// The traffic class field: the eight bits after the version.
pub open spec fn traffic_class_of(b: Seq<u8>) -> u8 {
    ((be16(b[0], b[1]) & 0x0ff0) >> 4) as u8
}

/// The flow label field: the low twenty bits of the first four bytes.
pub open spec fn flow_label_of(b: Seq<u8>) -> u32 {
    ((b[1] * 65536 + b[2] * 256 + b[3]) as u32) & 0x000fffff
}

/// The payload length field.
pub open spec fn payload_len_of(b: Seq<u8>) -> u16 {
    be16(b[4], b[5])
}

/// The length of the header plus the payload that the payload length field gives.
pub open spec fn total_len_of(b: Seq<u8>) -> int {
    HEADER_LEN + payload_len_of(b)
}

/// A read/write wrapper around an Internet Protocol version 6 packet buffer.
#[derive(Debug, PartialEq, Eq, Clone)]
pub struct Packet {
    buffer: Vec<u8>,
}

impl Packet {
    /// The bytes of the packet.
    pub closed spec fn bytes(&self) -> Seq<u8> {
        self.buffer@
    }

    /// Create a raw octet buffer with an IPv6 packet structure.
    pub fn new_unchecked(buffer: Vec<u8>) -> (r: Packet)
        ensures
            r.bytes() == buffer@,
    {
        Packet { buffer }
    }

    /// Shorthand for a combination of [new_unchecked] and [check_len].
    ///
    /// [new_unchecked]: #method.new_unchecked
    /// [check_len]: #method.check_len
    pub fn new_checked(buffer: Vec<u8>) -> (r: Result<Packet>)
        ensures
            r is Ok <==> buffer@.len() >= HEADER_LEN && buffer@.len() >= total_len_of(buffer@),
            r matches Ok(p) ==> p.bytes() == buffer@,
    {
        let packet = Self::new_unchecked(buffer);
        match packet.check_len() {
            Ok(()) => Ok(packet),
            Err(e) => Err(e),
        }
    }

    /// Ensure that no accessor method will panic if called.
    /// Returns `Err(Error)` if the buffer is too short.
    ///
    /// The result of this check is invalidated by calling [set_payload_len].
    ///
    /// [set_payload_len]: #method.set_payload_len
    pub fn check_len(&self) -> (r: Result<()>)
        ensures
            r is Ok <==> self.bytes().len() >= HEADER_LEN && self.bytes().len() >= total_len_of(self.bytes()),
    {
        let len = self.buffer.len();
        if len < HEADER_LEN || len < self.total_len() {
            Err(Error)
        } else {
            Ok(())
        }
    }

    /// Consume the packet, returning the underlying buffer.
    pub fn into_inner(self) -> (r: Vec<u8>)
        ensures
            r@ == self.bytes(),
    {
        self.buffer
    }

    /// Return the header length.
    pub fn header_len(&self) -> (r: usize)
        ensures
            r == HEADER_LEN,
    {
        // This is not a strictly necessary function, but it makes
        // code more readable.
        HEADER_LEN
    }

    /// Return the version field.
    pub fn version(&self) -> (r: u8)
        requires
            self.bytes().len() >= 1,
        ensures
            r == version_of(self.bytes()),
    {
        self.buffer[0] >> 4
    }

    /// Return the traffic class.
    pub fn traffic_class(&self) -> (r: u8)
        requires
            self.bytes().len() >= 2,
        ensures
            r == traffic_class_of(self.bytes()),
    {
        let v = read_u16_at(self.buffer.as_slice(), 0);
        let r = ((v & 0x0ff0) >> 4) as u8;
        r
    }

    /// Return the flow label field.
    pub fn flow_label(&self) -> (r: u32)
        requires
            self.bytes().len() >= 4,
        ensures
            r == flow_label_of(self.bytes()),
    {
        read_u24_at(self.buffer.as_slice(), 1) & 0x000fffff
    }

    /// Return the payload length field.
    pub fn payload_len(&self) -> (r: u16)
        requires
            self.bytes().len() >= 6,
        ensures
            r == payload_len_of(self.bytes()),
    {
        read_u16_at(self.buffer.as_slice(), 4)
    }

    /// Return the payload length added to the known header length.
    pub fn total_len(&self) -> (r: usize)
        requires
            self.bytes().len() >= 6,
        ensures
            r == total_len_of(self.bytes()),
    {
        self.header_len() + self.payload_len() as usize
    }

    /// Return the next header field.
    pub fn next_header(&self) -> (r: Protocol)
        requires
            self.bytes().len() >= 7,
        ensures
            r == Protocol::from_raw(self.bytes()[6]),
    {
        Protocol::from(self.buffer[6])
    }

    /// Return the hop limit field.
    pub fn hop_limit(&self) -> (r: u8)
        requires
            self.bytes().len() >= 8,
        ensures
            r == self.bytes()[7],
    {
        self.buffer[7]
    }

    /// Return the source address field.
    pub fn src_addr(&self) -> (r: Address)
        requires
            self.bytes().len() >= 24,
        ensures
            r.octets_view() == self.bytes().subrange(8, 24),
    {
        Address::from_bytes(&self.buffer.as_slice()[8..24])
    }

    /// Return the destination address field.
    pub fn dst_addr(&self) -> (r: Address)
        requires
            self.bytes().len() >= HEADER_LEN,
        ensures
            r.octets_view() == self.bytes().subrange(24, 40),
    {
        Address::from_bytes(&self.buffer.as_slice()[24..40])
    }

    /// Return a pointer to the payload.
    ///
    /// The function panics if the buffer is shorter than the total length; `requires`
    /// rules that out.
    pub fn payload(&self) -> (r: &[u8])
        requires
            self.bytes().len() >= HEADER_LEN,
            self.bytes().len() >= total_len_of(self.bytes()),
        ensures
            r@ == self.bytes().subrange(HEADER_LEN as int, total_len_of(self.bytes())),
    {
        let end = self.total_len();
        &self.buffer.as_slice()[HEADER_LEN..end]
    }

    /// Set the version field.
    pub fn set_version(&mut self, value: u8)
        requires
            old(self).bytes().len() >= 1,
        ensures
            final(self).bytes() == old(self).bytes().update(
                0,
                (old(self).bytes()[0] & 0x0f) | ((value & 0x0f) << 4u8),
            ),
    {
        // Make sure to retain the lower order bits which contain
        // the higher order bits of the traffic class
        let b = self.buffer[0];
        self.buffer.set(0, (b & 0x0f) | ((value & 0x0f) << 4));
    }

    /// Set the traffic class field.
    pub fn set_traffic_class(&mut self, value: u8)
        requires
            old(self).bytes().len() >= 2,
        ensures
            final(self).bytes() == old(self).bytes().update(
                0,
                (old(self).bytes()[0] & 0xf0) | ((value & 0xf0) >> 4u8),
            ).update(1, (old(self).bytes()[1] & 0x0f) | ((value & 0x0f) << 4u8)),
    {
        // Put the higher order 4-bits of value in the lower order
        // 4-bits of the first byte
        let b0 = self.buffer[0];
        self.buffer.set(0, (b0 & 0xf0) | ((value & 0xf0) >> 4));
        // Put the lower order 4-bits of value in the higher order
        // 4-bits of the second byte
        let b1 = self.buffer[1];
        self.buffer.set(1, (b1 & 0x0f) | ((value & 0x0f) << 4));
    }

    /// Set the flow label field.
    pub fn set_flow_label(&mut self, value: u32)
        requires
            old(self).bytes().len() >= 4,
        ensures
            ({
                let raw = (((old(self).bytes()[1] & 0xf0) as u32) << 16u32) | (value & 0x0fffff);
                final(self).bytes() == write_at(
                    old(self).bytes(),
                    1,
                    seq![(raw / 65536) as u8, ((raw / 256) % 256) as u8, (raw % 256) as u8],
                )
            }),
    {
        // Retain the lower order 4-bits of the traffic class
        let b1 = self.buffer[1];
        let raw = (((b1 & 0xf0) as u32) << 16) | (value & 0x0fffff);
        assert(raw < 0x100_0000) by (bit_vector)
            requires
                raw == (((b1 & 0xf0) as u32) << 16u32) | (value & 0x0fffff),
        ;
        write_u24_at(&mut self.buffer, 1, raw);
    }

    /// Set the payload length field.
    pub fn set_payload_len(&mut self, value: u16)
        requires
            old(self).bytes().len() >= 6,
        ensures
            final(self).bytes() == write_at(old(self).bytes(), 4, be16_bytes(value)),
    {
        write_u16_at(&mut self.buffer, 4, value);
    }

    /// Set the next header field.
    pub fn set_next_header(&mut self, value: Protocol)
        requires
            old(self).bytes().len() >= 7,
        ensures
            final(self).bytes() == old(self).bytes().update(6, value.raw()),
    {
        self.buffer.set(6, value.into());
    }

    /// Set the hop limit field.
    pub fn set_hop_limit(&mut self, value: u8)
        requires
            old(self).bytes().len() >= 8,
        ensures
            final(self).bytes() == old(self).bytes().update(7, value),
    {
        self.buffer.set(7, value);
    }

    /// Set the source address field.
    pub fn set_src_addr(&mut self, value: Address)
        requires
            old(self).bytes().len() >= 24,
        ensures
            final(self).bytes() == write_at(old(self).bytes(), 8, value.octets_view()),
    {
        copy_at(&mut self.buffer, 8, value.octets.as_slice());
    }

    /// Set the destination address field.
    pub fn set_dst_addr(&mut self, value: Address)
        requires
            old(self).bytes().len() >= HEADER_LEN,
        ensures
            final(self).bytes() == write_at(old(self).bytes(), 24, value.octets_view()),
    {
        copy_at(&mut self.buffer, 24, value.octets.as_slice());
    }

    /// Return a mutable pointer to the payload.
    ///
    /// The function panics if the buffer is shorter than the total length; `requires`
    /// rules that out.
    pub fn payload_mut(&mut self) -> (r: &mut [u8])
        requires
            old(self).bytes().len() >= HEADER_LEN,
            old(self).bytes().len() >= total_len_of(old(self).bytes()),
        ensures
            r@ == old(self).bytes().subrange(HEADER_LEN as int, total_len_of(old(self).bytes())),
            final(r)@.len() == r@.len() ==> final(self).bytes() == write_at(
                old(self).bytes(),
                HEADER_LEN as int,
                final(r)@,
            ),
    {
        let end = self.total_len();
        let ghost d0 = self.buffer@;
        let s = self.buffer.as_mut_slice();
        let (head, rest) = s.split_at_mut(HEADER_LEN);
        let (body, tail) = rest.split_at_mut(end - HEADER_LEN);
        proof {
            assert(final(head)@ == d0.subrange(0, HEADER_LEN as int));
            assert(final(tail)@ == d0.subrange(end as int, d0.len() as int));
            assert forall|x: Seq<u8>| x.len() == body@.len() implies #[trigger] write_at(d0, HEADER_LEN as int, x)
                == d0.subrange(0, HEADER_LEN as int) + (x + d0.subrange(end as int, d0.len() as int)) by {
                assert(write_at(d0, HEADER_LEN as int, x) =~= d0.subrange(0, HEADER_LEN as int) + (x + d0.subrange(end as int, d0.len() as int)));
            }
        }
        body
    }
}

/// A high-level representation of an Internet Protocol version 6 packet header.
#[derive(Debug, PartialEq, Eq, Clone, Copy)]
pub struct Repr {
    /// IPv6 address of the source node.
    pub src_addr: Address,
    /// IPv6 address of the destination node.
    pub dst_addr: Address,
    /// Protocol contained in the next header.
    pub next_header: Protocol,
    /// Length of the payload including the extension headers.
    pub payload_len: usize,
    /// The 8-bit hop limit field.
    pub hop_limit: u8,
}

impl Repr {
    /// Whether this representation is the one that the header in `b` gives.
    pub open spec fn is_parse_of(self, b: Seq<u8>) -> bool {
        &&& self.src_addr.octets_view() == b.subrange(8, 24)
        &&& self.dst_addr.octets_view() == b.subrange(24, 40)
        &&& self.next_header == Protocol::from_raw(b[6])
        &&& self.payload_len == payload_len_of(b)
        &&& self.hop_limit == b[7]
    }

    /// Whether `parse` accepts the packet in `b`: it holds a whole header of version 6
    /// and the payload that its length field announces.
    pub open spec fn parses(b: Seq<u8>) -> bool {
        &&& b.len() >= HEADER_LEN
        &&& b.len() >= total_len_of(b)
        &&& version_of(b) == 6
    }

    /// The header bytes that `emit` writes: version 6, traffic class and flow label 0,
    /// then the fields of this representation; the payload length is truncated to 16 bits.
    pub open spec fn header_bytes(self) -> Seq<u8> {
        seq![0x60u8, 0, 0, 0] + be16_bytes(self.payload_len as u16) + seq![self.next_header.raw(), self.hop_limit]
            + self.src_addr.octets_view() + self.dst_addr.octets_view()
    }

    /// The header that `emit` writes is a whole header.
    pub proof fn lemma_header_bytes_len(self)
        ensures
            self.header_bytes().len() == HEADER_LEN,
    {
    }

    /// Parse an Internet Protocol version 6 packet and return a high-level representation.
    pub fn parse(packet: &Packet) -> (r: Result<Repr>)
        ensures
            r is Ok <==> Repr::parses(packet.bytes()),
            r matches Ok(repr) ==> repr.is_parse_of(packet.bytes()),
    {
        // Ensure basic accessors will work
        match packet.check_len() {
            Ok(()) => {},
            Err(e) => {
                return Err(e);
            },
        }
        if packet.version() != 6 {
            return Err(Error);
        }
        Ok(
            Repr {
                src_addr: packet.src_addr(),
                dst_addr: packet.dst_addr(),
                next_header: packet.next_header(),
                payload_len: packet.payload_len() as usize,
                hop_limit: packet.hop_limit(),
            },
        )
    }

    /// Return the length of a header that will be emitted from this high-level representation.
    pub fn buffer_len(&self) -> (r: usize)
        ensures
            r == HEADER_LEN,
    {
        // This function is not strictly necessary, but it can make client code more readable.
        HEADER_LEN
    }

    /// Emit a high-level representation into an Internet Protocol version 6 packet.
    ///
    /// The setters panic on a buffer shorter than the header; `requires` rules that out.
    pub fn emit(&self, packet: &mut Packet)
        requires
            old(packet).bytes().len() >= HEADER_LEN,
        ensures
            final(packet).bytes() == write_at(old(packet).bytes(), 0, self.header_bytes()),
    {
        let ghost b0 = packet.bytes();
        // Make no assumptions about the prior state of the packet buffer.
        // Make sure to set every byte.
        packet.set_version(6);
        packet.set_traffic_class(0);
        packet.set_flow_label(0);
        let ghost b1 = packet.bytes();
        proof {
            let x0 = b0[0];
            let x1 = b0[1];
            assert(((((x0 & 0x0f) | ((6u8 & 0x0f) << 4u8)) & 0xf0) | ((0u8 & 0xf0) >> 4u8)) == 0x60u8) by (bit_vector);
            let y1 = (x1 & 0x0f) | ((0u8 & 0x0f) << 4u8);
            assert((((((y1 & 0xf0) as u32) << 16u32) | (0u32 & 0x0fffff)) / 65536) as u8 == 0u8) by (bit_vector)
                requires
                    y1 == (x1 & 0x0f) | ((0u8 & 0x0f) << 4u8),
            ;
            assert(((((((y1 & 0xf0) as u32) << 16u32) | (0u32 & 0x0fffff)) / 256) % 256) as u8 == 0u8) by (bit_vector);
            assert((((((y1 & 0xf0) as u32) << 16u32) | (0u32 & 0x0fffff)) % 256) as u8 == 0u8) by (bit_vector);
            assert(b1.subrange(0, 4) =~= seq![0x60u8, 0, 0, 0]);
        }
        packet.set_payload_len(self.payload_len as u16);
        packet.set_hop_limit(self.hop_limit);
        packet.set_next_header(self.next_header);
        packet.set_src_addr(self.src_addr);
        packet.set_dst_addr(self.dst_addr);
        proof {
            assert(packet.bytes() =~= write_at(b0, 0, self.header_bytes()));
        }
    }
}

/// Emitting a header and parsing the packet gives the header back, when its payload
/// length fits the 16-bit field, the buffer holds that payload, and its next header
/// reads back as itself (an `Unknown` number that a name covers reads back as the name).
pub proof fn law_parse_emit(r: Repr, b: Seq<u8>)
    requires
        r.payload_len <= 0xffff,
        b.len() >= HEADER_LEN + r.payload_len,
        r.next_header.is_canonical(),
    ensures
        Repr::parses(write_at(b, 0, r.header_bytes())),
        r.is_parse_of(write_at(b, 0, r.header_bytes())),
        forall|r2: Repr| #[trigger] r2.is_parse_of(write_at(b, 0, r.header_bytes())) ==> r2 == r,
{
    let b2 = write_at(b, 0, r.header_bytes());
    let n = r.payload_len as u16;
    assert(b2[0] == 0x60u8);
    assert(0x60u8 >> 4u8 == 6u8) by (bit_vector);
    assert(b2[4] == be16_bytes(n)[0] && b2[5] == be16_bytes(n)[1]);
    assert(be16(be16_bytes(n)[0], be16_bytes(n)[1]) == n);
    assert(b2[6] == r.next_header.raw());
    assert(b2[7] == r.hop_limit);
    assert(b2.subrange(8, 24) =~= r.src_addr.octets_view());
    assert(b2.subrange(24, 40) =~= r.dst_addr.octets_view());
    assert forall|r2: Repr| #[trigger] r2.is_parse_of(b2) implies r2 == r by {
        Address::lemma_octets_eq(r2.src_addr, r.src_addr);
        Address::lemma_octets_eq(r2.dst_addr, r.dst_addr);
    }
}

/// Every block contains its own address.
pub proof fn law_cidr_contains_own_address(c: Cidr)
    ensures
        c.contains_spec(c.address_view()),
{
}

/// Every block contains its own subnet.
pub proof fn law_cidr_contains_subnet_reflexive(c: Cidr)
    ensures
        c.contains_subnet_spec(c),
{
}

/// A mask of a wider prefix decides the masks of the narrower ones: addresses that
/// agree on their first `p` bits agree on their first `q <= p` bits.
proof fn lemma_mask_narrow(x: Seq<u8>, y: Seq<u8>, p: int, q: int)
    requires
        0 <= q <= p <= 128,
        x.len() == 16,
        y.len() == 16,
        mask_spec(x, p) == mask_spec(y, p),
    ensures
        mask_spec(x, q) == mask_spec(y, q),
{
    assert forall|i: int| 0 <= i < 16 implies #[trigger] mask_spec(x, q)[i] == mask_spec(y, q)[i] by {
        assert(mask_spec(x, p)[i] == mask_spec(y, p)[i]);
        assert(q / 8 <= p / 8) by (nonlinear_arith)
            requires
                0 <= q <= p,
        ;
        if i < q / 8 {
            assert(mask_spec(x, p)[i] == x[i]);
            assert(mask_spec(y, p)[i] == y[i]);
        } else if i == q / 8 {
            let a = x[i];
            let c = y[i];
            let rq = (q % 8) as u8;
            if i < p / 8 {
                assert(mask_spec(x, p)[i] == x[i]);
                assert(mask_spec(y, p)[i] == y[i]);
            } else {
                assert(i == p / 8);
                let rp = (p % 8) as u8;
                assert(rq <= rp);
                assert(mask_spec(x, p)[i] == (a & !(0xffu8 >> rp)));
                assert(mask_spec(y, p)[i] == (c & !(0xffu8 >> rp)));
                assert((a & !(0xffu8 >> rq)) == (c & !(0xffu8 >> rq))) by (bit_vector)
                    requires
                        rq <= rp,
                        rp < 8,
                        (a & !(0xffu8 >> rp)) == (c & !(0xffu8 >> rp)),
                ;
            }
        }
    }
    assert(mask_spec(x, q) =~= mask_spec(y, q));
}

/// Containment of subnets is transitive.
pub proof fn law_cidr_contains_subnet_transitive(a: Cidr, b: Cidr, c: Cidr)
    requires
        a.wf(),
        b.wf(),
        c.wf(),
        a.contains_subnet_spec(b),
        b.contains_subnet_spec(c),
    ensures
        a.contains_subnet_spec(c),
{
    let pa = a.prefix_len_view() as int;
    let pb = b.prefix_len_view() as int;
    lemma_mask_narrow(b.address_view().octets_view(), c.address_view().octets_view(), pb, pa);
}

/// A block that contains a subnet contains every address of that subnet.
pub proof fn law_cidr_subnet_addresses(a: Cidr, b: Cidr, x: Address)
    requires
        a.wf(),
        b.wf(),
        a.contains_subnet_spec(b),
        b.contains_spec(x),
    ensures
        a.contains_spec(x),
{
    lemma_mask_narrow(b.address_view().octets_view(), x.octets_view(), b.prefix_len_view() as int, a.prefix_len_view() as int);
}

/// The traffic class field, over its two bytes as shifts and masks.
proof fn lemma_be16_bits(hi: u8, lo: u8)
    ensures
        be16(hi, lo) == (((hi as u16) << 8u16) | (lo as u16)),
{
    assert((((hi as u16) * 256u16 + (lo as u16)) as u16) == (((hi as u16) << 8u16) | (lo as u16))) by (bit_vector);
}

/// The three bytes of the flow label field, as shifts and masks.
proof fn lemma_be24_bits(a: u8, b: u8, c: u8)
    ensures
        ((a * 65536 + b * 256 + c) as u32) == (((a as u32) << 16u32) | ((b as u32) << 8u32) | (c as u32)),
{
    assert((((a as u32) * 65536u32 + (b as u32) * 256u32 + (c as u32)) as u32) == (((a as u32) << 16u32) | ((b as u32)
        << 8u32) | (c as u32))) by (bit_vector);
}

/// The version, traffic class and flow label fields share their bytes without
/// interfering: each setter makes its getter read the value written (the bits of it
/// that the field holds) and leaves the other two fields as they were.
pub proof fn law_field_setters(b: Seq<u8>, v: u8, t: u8, fl: u32)
    requires
        b.len() >= 4,
    ensures
        ({
            let b2 = b.update(0, (b[0] & 0x0f) | ((v & 0x0f) << 4u8));
            &&& version_of(b2) == v & 0x0f
            &&& traffic_class_of(b2) == traffic_class_of(b)
            &&& flow_label_of(b2) == flow_label_of(b)
        }),
        ({
            let b2 = b.update(0, (b[0] & 0xf0) | ((t & 0xf0) >> 4u8)).update(1, (b[1] & 0x0f) | ((t & 0x0f) << 4u8));
            &&& traffic_class_of(b2) == t
            &&& version_of(b2) == version_of(b)
            &&& flow_label_of(b2) == flow_label_of(b)
        }),
        ({
            let raw = (((b[1] & 0xf0) as u32) << 16u32) | (fl & 0x0fffff);
            let b2 = write_at(b, 1, seq![(raw / 65536) as u8, ((raw / 256) % 256) as u8, (raw % 256) as u8]);
            &&& flow_label_of(b2) == fl & 0x000fffff
            &&& traffic_class_of(b2) == traffic_class_of(b)
            &&& version_of(b2) == version_of(b)
        }),
{
    let x0 = b[0];
    let x1 = b[1];
    let x2 = b[2];
    let x3 = b[3];
    lemma_be16_bits(x0, x1);
    lemma_be24_bits(x1, x2, x3);
    // the version
    let y0 = (x0 & 0x0f) | ((v & 0x0f) << 4u8);
    lemma_be16_bits(y0, x1);
    assert(y0 >> 4u8 == v & 0x0f && ((((((y0 as u16) << 8u16) | (x1 as u16)) & 0x0ff0u16) >> 4u16) as u8)
        == ((((((x0 as u16) << 8u16) | (x1 as u16)) & 0x0ff0u16) >> 4u16) as u8)) by (bit_vector)
        requires
            y0 == (x0 & 0x0f) | ((v & 0x0f) << 4u8),
    ;
    // the traffic class
    let z0 = (x0 & 0xf0) | ((t & 0xf0) >> 4u8);
    let z1 = (x1 & 0x0f) | ((t & 0x0f) << 4u8);
    lemma_be16_bits(z0, z1);
    lemma_be24_bits(z1, x2, x3);
    assert((((((z0 as u16) << 8u16) | (z1 as u16)) & 0x0ff0u16) >> 4u16) as u8 == t && z0 >> 4u8 == x0 >> 4u8
        && ((((z1 as u32) << 16u32) | ((x2 as u32) << 8u32) | (x3 as u32)) & 0x000fffffu32)
        == ((((x1 as u32) << 16u32) | ((x2 as u32) << 8u32) | (x3 as u32)) & 0x000fffffu32)) by (bit_vector)
        requires
            z0 == (x0 & 0xf0) | ((t & 0xf0) >> 4u8),
            z1 == (x1 & 0x0f) | ((t & 0x0f) << 4u8),
    ;
    // the flow label
    let raw = (((x1 & 0xf0) as u32) << 16u32) | (fl & 0x0fffff);
    let n1 = (raw / 65536) as u8;
    let n2 = ((raw / 256) % 256) as u8;
    let n3 = (raw % 256) as u8;
    assert((raw / 65536u32) as u8 == (raw >> 16u32) as u8 && ((raw / 256u32) % 256u32) as u8 == (raw >> 8u32) as u8
        && (raw % 256u32) as u8 == raw as u8) by (bit_vector);
    let m1 = (raw >> 16u32) as u8;
    let m2 = (raw >> 8u32) as u8;
    let m3 = raw as u8;
    assert(n1 == m1 && n2 == m2 && n3 == m3);
    lemma_be16_bits(x0, n1);
    lemma_be24_bits(n1, n2, n3);
    assert(((((m1 as u32) << 16u32) | ((m2 as u32) << 8u32) | (m3 as u32)) & 0x000fffffu32) == fl & 0x000fffffu32
        && ((((((x0 as u16) << 8u16) | (m1 as u16)) & 0x0ff0u16) >> 4u16) as u8)
        == ((((((x0 as u16) << 8u16) | (x1 as u16)) & 0x0ff0u16) >> 4u16) as u8)) by (bit_vector)
        requires
            raw == (((x1 & 0xf0) as u32) << 16u32) | (fl & 0x0fffff),
            m1 == (raw >> 16u32) as u8,
            m2 == (raw >> 8u32) as u8,
            m3 == raw as u8,
    ;
    let b2 = write_at(b, 1, seq![n1, n2, n3]);
    assert(b2[0] == x0 && b2[1] == n1 && b2[2] == n2 && b2[3] == n3);
}

/// The address blocks, by the value of the leading octets: global unicast is
/// `2000::/3` (first octet 0x20 to 0x3f), unique local is `fc00::/7` (first octet
/// 0xfc or 0xfd), multicast is `ff00::/8`, link-local is `fe80::/64`.
pub proof fn law_address_blocks(a: Address)
    ensures
        a.is_global_unicast_spec() <==> 0x20 <= a.octets_view()[0] < 0x40,
        a.is_unique_local_spec() <==> 0xfc <= a.octets_view()[0] <= 0xfd,
        a.is_multicast_spec() <==> a.octets_view()[0] == 0xff,
        a.is_link_local_spec() <==> {
            &&& a.octets_view()[0] == 0xfe
            &&& a.octets_view()[1] == 0x80
            &&& forall|i: int| 2 <= i < 8 ==> #[trigger] a.octets_view()[i] == 0
        },
{
    let x = a.octets_view()[0];
    assert((x >> 5u8 == 1) <==> (0x20 <= x && x < 0x40)) by (bit_vector);
    assert((x & 0xfeu8 == 0xfc) <==> (0xfc <= x && x <= 0xfd)) by (bit_vector);
    assert(a.octets@.len() == 16);
    let p = seq![0xfeu8, 0x80, 0, 0, 0, 0, 0, 0];
    let o = a.octets_view();
    if a.is_link_local_spec() {
        assert forall|i: int| 2 <= i < 8 implies #[trigger] o[i] == 0 by {
            assert(o.subrange(0, 8)[i] == p[i]);
        }
        assert(o.subrange(0, 8)[0] == p[0]);
        assert(o.subrange(0, 8)[1] == p[1]);
    }
    if o[0] == 0xfe && o[1] == 0x80 && (forall|i: int| 2 <= i < 8 ==> #[trigger] o[i] == 0) {
        assert(o.subrange(0, 8) =~= p);
    }
}

/// The scope of a unicast address: link-local for `fe80::/64`, global for the unique
/// local block `fc00::/7` and the global unicast block `2000::/3`; and of a multicast
/// address, the one its four-bit scope field names.
pub proof fn law_scope(a: Address)
    ensures
        a.octets_view()[0] == 0xff ==> a.scope_spec() == MulticastScope::from_raw(a.octets_view()[1] % 16),
        0x20 <= a.octets_view()[0] < 0x40 ==> a.scope_spec() == MulticastScope::Global,
        0xfc <= a.octets_view()[0] <= 0xfd ==> a.scope_spec() == MulticastScope::Global,
        a.octets_view()[0] == 0xfe && a.octets_view()[1] == 0x80 && (forall|i: int|
            2 <= i < 8 ==> #[trigger] a.octets_view()[i] == 0) ==> a.scope_spec() == MulticastScope::LinkLocal,
{
    law_address_blocks(a);
    let y = a.octets_view()[1];
    assert(y & 0b1111u8 == y % 16) by (bit_vector);
}

/// `parse` accepts exactly the buffers that hold a whole header of version 6 and the
/// payload that its length field announces, whatever their traffic class and flow
/// label.
pub proof fn law_parse_accepts(b: Seq<u8>)
    ensures
        Repr::parses(b) <==> (b.len() >= 40 && b.len() >= 40 + b[4] * 256 + b[5] && b[0] / 16 == 6),
{
    if b.len() >= 40 {
        let x = b[0];
        assert(x >> 4u8 == x / 16) by (bit_vector);
        let h = b[4];
        let l = b[5];
        assert((h * 256 + l) as u16 == h * 256 + l) by (nonlinear_arith);
    }
}

/// What `parse` gives of a buffer depends on its bytes from the payload length field
/// on alone: neither the version, traffic class and flow label bytes nor the payload
/// change the header it reads, so long as both buffers parse.
pub proof fn law_parse_ignores_class_and_flow(b1: Seq<u8>, b2: Seq<u8>, r: Repr)
    requires
        b1.len() >= HEADER_LEN,
        b2.len() >= HEADER_LEN,
        b1.subrange(4, 40) == b2.subrange(4, 40),
    ensures
        r.is_parse_of(b1) <==> r.is_parse_of(b2),
{
    assert(b1[4] == b1.subrange(4, 40)[0] && b2[4] == b2.subrange(4, 40)[0]);
    assert(b1[5] == b1.subrange(4, 40)[1] && b2[5] == b2.subrange(4, 40)[1]);
    assert(b1[6] == b1.subrange(4, 40)[2] && b2[6] == b2.subrange(4, 40)[2]);
    assert(b1[7] == b1.subrange(4, 40)[3] && b2[7] == b2.subrange(4, 40)[3]);
    assert(b1.subrange(8, 24) =~= b1.subrange(4, 40).subrange(4, 20));
    assert(b2.subrange(8, 24) =~= b2.subrange(4, 40).subrange(4, 20));
    assert(b1.subrange(24, 40) =~= b1.subrange(4, 40).subrange(20, 36));
    assert(b2.subrange(24, 40) =~= b2.subrange(4, 40).subrange(20, 36));
}


/// The unspecified address is the one of sixteen zero octets, and the unicast addresses
/// are all the others outside `ff00::/8`.
pub proof fn law_unspecified_and_unicast(a: Address)
    ensures
        a.is_unspecified_spec() <==> a.octets_view() == Seq::new(16, |i: int| 0u8),
        a.is_unicast_spec() <==> (a.octets_view()[0] != 0xff && a.octets_view() != Seq::new(16, |i: int| 0u8)),
{
    assert(a.octets@.len() == 16);
    let z = Seq::new(16, |i: int| 0u8);
    if a.is_unspecified_spec() {
        assert(a.octets_view() =~= z);
    }
    if a.octets_view() == z {
        assert forall|i: int| 0 <= i < 16 implies #[trigger] a.octets_view()[i] == 0 by {
            assert(z[i] == 0);
        }
    }
}

/// The multicast scope that a four-bit field value names reads back as that value, for
/// the values that name one.
pub proof fn law_multicast_scope_values(v: u8)
    ensures
        v == 0x1 <==> MulticastScope::from_raw(v) == MulticastScope::InterfaceLocal,
        v == 0x2 <==> MulticastScope::from_raw(v) == MulticastScope::LinkLocal,
        v == 0x4 <==> MulticastScope::from_raw(v) == MulticastScope::AdminLocal,
        v == 0x5 <==> MulticastScope::from_raw(v) == MulticastScope::SiteLocal,
        v == 0x8 <==> MulticastScope::from_raw(v) == MulticastScope::OrganizationLocal,
        v == 0xe <==> MulticastScope::from_raw(v) == MulticastScope::Global,
{
}

} // verus!
