use smoltcp::wire::ipv6::{
    link_local_all_nodes, link_local_all_routers, Address, Cidr, MulticastScope, Packet, Repr,
};
use smoltcp::wire::{Error, IpProtocol as Protocol};

fn link_local_addr() -> Address {
    Address::new(0xfe80, 0, 0, 0, 0, 0, 0, 1)
}

fn unique_local_addr() -> Address {
    Address::new(0xfd00, 0, 0, 201, 1, 1, 1, 1)
}

fn global_unicast_addr() -> Address {
    Address::new(0x2001, 0xdb8, 0x3, 0, 0, 0, 0, 1)
}

fn test_sol_node_mcast_addr() -> Address {
    Address::new(0xff02, 0, 0, 0, 0, 1, 0xff01, 101)
}

#[test]
fn test_basic_multicast() {
    assert!(!link_local_all_routers().is_unspecified());
    assert!(link_local_all_routers().is_multicast());
    assert!(!link_local_all_routers().is_link_local());
    assert!(!link_local_all_routers().is_loopback());
    assert!(!link_local_all_routers().x_is_unique_local());
    assert!(!link_local_all_routers().is_global_unicast());
    assert!(!link_local_all_routers().is_solicited_node_multicast());
    assert!(!link_local_all_nodes().is_unspecified());
    assert!(link_local_all_nodes().is_multicast());
    assert!(!link_local_all_nodes().is_link_local());
    assert!(!link_local_all_nodes().is_loopback());
    assert!(!link_local_all_nodes().x_is_unique_local());
    assert!(!link_local_all_nodes().is_global_unicast());
    assert!(!link_local_all_nodes().is_solicited_node_multicast());
}

#[test]
fn test_basic_link_local() {
    assert!(!link_local_addr().is_unspecified());
    assert!(!link_local_addr().is_multicast());
    assert!(link_local_addr().is_link_local());
    assert!(!link_local_addr().is_loopback());
    assert!(!link_local_addr().x_is_unique_local());
    assert!(!link_local_addr().is_global_unicast());
    assert!(!link_local_addr().is_solicited_node_multicast());
}

#[test]
fn test_basic_loopback() {
    assert!(!Address::localhost().is_unspecified());
    assert!(!Address::localhost().is_multicast());
    assert!(!Address::localhost().is_link_local());
    assert!(Address::localhost().is_loopback());
    assert!(!Address::localhost().x_is_unique_local());
    assert!(!Address::localhost().is_global_unicast());
    assert!(!Address::localhost().is_solicited_node_multicast());
}

#[test]
fn test_unique_local() {
    assert!(!unique_local_addr().is_unspecified());
    assert!(!unique_local_addr().is_multicast());
    assert!(!unique_local_addr().is_link_local());
    assert!(!unique_local_addr().is_loopback());
    assert!(unique_local_addr().x_is_unique_local());
    assert!(!unique_local_addr().is_global_unicast());
    assert!(!unique_local_addr().is_solicited_node_multicast());
}

#[test]
fn test_global_unicast() {
    assert!(!global_unicast_addr().is_unspecified());
    assert!(!global_unicast_addr().is_multicast());
    assert!(!global_unicast_addr().is_link_local());
    assert!(!global_unicast_addr().is_loopback());
    assert!(!global_unicast_addr().x_is_unique_local());
    assert!(global_unicast_addr().is_global_unicast());
    assert!(!global_unicast_addr().is_solicited_node_multicast());
}

#[test]
fn test_sollicited_node_multicast() {
    assert!(!test_sol_node_mcast_addr().is_unspecified());
    assert!(test_sol_node_mcast_addr().is_multicast());
    assert!(!test_sol_node_mcast_addr().is_link_local());
    assert!(!test_sol_node_mcast_addr().is_loopback());
    assert!(!test_sol_node_mcast_addr().x_is_unique_local());
    assert!(!test_sol_node_mcast_addr().is_global_unicast());
    assert!(test_sol_node_mcast_addr().is_solicited_node_multicast());
}

#[test]
fn test_mask() {
    let addr = Address::new(0x0123, 0x4567, 0x89ab, 0, 0, 0, 0, 1);
    assert_eq!(
        addr.mask(11),
        [0x01, 0x20, 0, 0, 0, 0, 0, 0, 0, 0, 0, 0, 0, 0, 0, 0]
    );
    assert_eq!(
        addr.mask(15),
        [0x01, 0x22, 0, 0, 0, 0, 0, 0, 0, 0, 0, 0, 0, 0, 0, 0]
    );
    assert_eq!(
        addr.mask(26),
        [0x01, 0x23, 0x45, 0x40, 0, 0, 0, 0, 0, 0, 0, 0, 0, 0, 0, 0]
    );
    assert_eq!(
        addr.mask(128),
        [0x01, 0x23, 0x45, 0x67, 0x89, 0xab, 0, 0, 0, 0, 0, 0, 0, 0, 0, 1]
    );
    assert_eq!(
        addr.mask(127),
        [0x01, 0x23, 0x45, 0x67, 0x89, 0xab, 0, 0, 0, 0, 0, 0, 0, 0, 0, 0]
    );
}

#[test]
fn test_cidr() {
    // fe80::1/56
    // 0xfe, 0x80, 0x00, 0x00, 0x00, 0x00, 0x00,
    // 0x00, 0x00, 0x00, 0x00, 0x00, 0x00, 0x00, 0x00, 0x01,
    let cidr = Cidr::new(link_local_addr(), 56);

    let inside_subnet = [
        // fe80::2
        [
            0xfe, 0x80, 0x00, 0x00, 0x00, 0x00, 0x00, 0x00, 0x00, 0x00, 0x00, 0x00, 0x00, 0x00,
            0x00, 0x02,
        ],
        // fe80::1122:3344:5566:7788
        [
            0xfe, 0x80, 0x00, 0x00, 0x00, 0x00, 0x00, 0x00, 0x11, 0x22, 0x33, 0x44, 0x55, 0x66,
            0x77, 0x88,
        ],
        // fe80::ff00:0:0:0
        [
            0xfe, 0x80, 0x00, 0x00, 0x00, 0x00, 0x00, 0x00, 0xff, 0x00, 0x00, 0x00, 0x00, 0x00,
            0x00, 0x00,
        ],
        // fe80::ff
        [
            0xfe, 0x80, 0x00, 0x00, 0x00, 0x00, 0x00, 0x00, 0x00, 0x00, 0x00, 0x00, 0x00, 0x00,
            0x00, 0xff,
        ],
    ];

    let outside_subnet = [
        // fe80:0:0:101::1
        [
            0xfe, 0x80, 0x00, 0x00, 0x00, 0x00, 0x01, 0x01, 0x00, 0x00, 0x00, 0x00, 0x00, 0x00,
            0x00, 0x01,
        ],
        // ::1
        [
            0x00, 0x00, 0x00, 0x00, 0x00, 0x00, 0x00, 0x00, 0x00, 0x00, 0x00, 0x00, 0x00, 0x00,
            0x00, 0x01,
        ],
        // ff02::1
        [
            0xff, 0x02, 0x00, 0x00, 0x00, 0x00, 0x00, 0x00, 0x00, 0x00, 0x00, 0x00, 0x00, 0x00,
            0x00, 0x01,
        ],
        // ff02::2
        [
            0xff, 0x02, 0x00, 0x00, 0x00, 0x00, 0x00, 0x00, 0x00, 0x00, 0x00, 0x00, 0x00, 0x00,
            0x00, 0x02,
        ],
    ];

    let subnets = [
        // fe80::ffff:ffff:ffff:ffff/65
        (
            [
                0xfe, 0x80, 0x00, 0x00, 0x00, 0x00, 0x00, 0x00, 0xff, 0xff, 0xff, 0xff, 0xff,
                0xff, 0xff, 0xff,
            ],
            65,
        ),
        // fe80::1/128
        (
            [
                0xfe, 0x80, 0x00, 0x00, 0x00, 0x00, 0x00, 0x00, 0x00, 0x00, 0x00, 0x00, 0x00,
                0x00, 0x00, 0x01,
            ],
            128,
        ),
        // fe80::1234:5678/96
        (
            [
                0xfe, 0x80, 0x00, 0x00, 0x00, 0x00, 0x00, 0x00, 0x00, 0x00, 0x00, 0x00, 0x12,
                0x34, 0x56, 0x78,
            ],
            96,
        ),
    ];

    let not_subnets = [
        // fe80::101:ffff:ffff:ffff:ffff/55
        (
            [
                0xfe, 0x80, 0x00, 0x00, 0x00, 0x00, 0x01, 0x01, 0xff, 0xff, 0xff, 0xff, 0xff,
                0xff, 0xff, 0xff,
            ],
            55,
        ),
        // fe80::101:ffff:ffff:ffff:ffff/56
        (
            [
                0xfe, 0x80, 0x00, 0x00, 0x00, 0x00, 0x01, 0x01, 0xff, 0xff, 0xff, 0xff, 0xff,
                0xff, 0xff, 0xff,
            ],
            56,
        ),
        // fe80::101:ffff:ffff:ffff:ffff/57
        (
            [
                0xfe, 0x80, 0x00, 0x00, 0x00, 0x00, 0x01, 0x01, 0xff, 0xff, 0xff, 0xff, 0xff,
                0xff, 0xff, 0xff,
            ],
            57,
        ),
        // ::1/128
        (
            [
                0x00, 0x00, 0x00, 0x00, 0x00, 0x00, 0x00, 0x00, 0x00, 0x00, 0x00, 0x00, 0x00,
                0x00, 0x00, 0x01,
            ],
            128,
        ),
    ];

    for addr in inside_subnet.iter().map(|a| Address::from_bytes(a)) {
        assert!(cidr.contains_addr(&addr));
    }

    for addr in outside_subnet.iter().map(|a| Address::from_bytes(a)) {
        assert!(!cidr.contains_addr(&addr));
    }

    for subnet in subnets.iter().map(|&(a, p)| Cidr::new(Address::from(a), p)) {
        assert!(cidr.contains_subnet(&subnet));
    }

    for subnet in not_subnets
        .iter()
        .map(|&(a, p)| Cidr::new(Address::from(a), p))
    {
        assert!(!cidr.contains_subnet(&subnet));
    }

    let cidr_without_prefix = Cidr::new(link_local_addr(), 0);
    assert!(cidr_without_prefix.contains_addr(&Address::localhost()));
}

#[test]
fn test_scope() {
    assert_eq!(
        Address::new(0xff01, 0, 0, 0, 0, 0, 0, 1).x_multicast_scope(),
        MulticastScope::InterfaceLocal
    );
    assert_eq!(
        Address::new(0xff02, 0, 0, 0, 0, 0, 0, 1).x_multicast_scope(),
        MulticastScope::LinkLocal
    );
    assert_eq!(
        Address::new(0xff03, 0, 0, 0, 0, 0, 0, 1).x_multicast_scope(),
        MulticastScope::Unknown
    );
    assert_eq!(
        Address::new(0xff04, 0, 0, 0, 0, 0, 0, 1).x_multicast_scope(),
        MulticastScope::AdminLocal
    );
    assert_eq!(
        Address::new(0xff05, 0, 0, 0, 0, 0, 0, 1).x_multicast_scope(),
        MulticastScope::SiteLocal
    );
    assert_eq!(
        Address::new(0xff08, 0, 0, 0, 0, 0, 0, 1).x_multicast_scope(),
        MulticastScope::OrganizationLocal
    );
    assert_eq!(
        Address::new(0xff0e, 0, 0, 0, 0, 0, 0, 1).x_multicast_scope(),
        MulticastScope::Global
    );

    assert_eq!(
        link_local_all_nodes().x_multicast_scope(),
        MulticastScope::LinkLocal
    );

    // For source address selection, unicast addresses also have a scope:
    assert_eq!(
        link_local_addr().x_multicast_scope(),
        MulticastScope::LinkLocal
    );
    assert_eq!(
        global_unicast_addr().x_multicast_scope(),
        MulticastScope::Global
    );
    assert_eq!(
        unique_local_addr().x_multicast_scope(),
        MulticastScope::Global
    );
}

static REPR_PACKET_BYTES: [u8; 52] = [
    0x60, 0x00, 0x00, 0x00, 0x00, 0x0c, 0x11, 0x40, 0xfe, 0x80, 0x00, 0x00, 0x00, 0x00, 0x00,
    0x00, 0x00, 0x00, 0x00, 0x00, 0x00, 0x00, 0x00, 0x01, 0xff, 0x02, 0x00, 0x00, 0x00, 0x00,
    0x00, 0x00, 0x00, 0x00, 0x00, 0x00, 0x00, 0x00, 0x00, 0x01, 0x00, 0x01, 0x00, 0x02, 0x00,
    0x0c, 0x02, 0x4e, 0xff, 0xff, 0xff, 0xff,
];
static REPR_PAYLOAD_BYTES: [u8; 12] = [
    0x00, 0x01, 0x00, 0x02, 0x00, 0x0c, 0x02, 0x4e, 0xff, 0xff, 0xff, 0xff,
];

fn packet_repr() -> Repr {
    Repr {
        src_addr: Address::new(0xfe80, 0, 0, 0, 0, 0, 0, 1),
        dst_addr: link_local_all_nodes(),
        next_header: Protocol::Udp,
        payload_len: 12,
        hop_limit: 64,
    }
}

#[test]
fn test_packet_deconstruction() {
    let packet = Packet::new_unchecked(REPR_PACKET_BYTES.to_vec());
    assert_eq!(packet.check_len(), Ok(()));
    assert_eq!(packet.version(), 6);
    assert_eq!(packet.traffic_class(), 0);
    assert_eq!(packet.flow_label(), 0);
    assert_eq!(packet.total_len(), 0x34);
    assert_eq!(packet.payload_len() as usize, REPR_PAYLOAD_BYTES.len());
    assert_eq!(packet.next_header(), Protocol::Udp);
    assert_eq!(packet.hop_limit(), 0x40);
    assert_eq!(packet.src_addr(), Address::new(0xfe80, 0, 0, 0, 0, 0, 0, 1));
    assert_eq!(packet.dst_addr(), link_local_all_nodes());
    assert_eq!(packet.payload(), &REPR_PAYLOAD_BYTES[..]);
}

#[test]
fn test_packet_construction() {
    let bytes = vec![0xff; 52];
    let mut packet = Packet::new_unchecked(bytes);
    // Version, Traffic Class, and Flow Label are not
    // byte aligned. make sure the setters and getters
    // do not interfere with each other.
    packet.set_version(6);
    assert_eq!(packet.version(), 6);
    packet.set_traffic_class(0x99);
    assert_eq!(packet.version(), 6);
    assert_eq!(packet.traffic_class(), 0x99);
    packet.set_flow_label(0x54321);
    assert_eq!(packet.traffic_class(), 0x99);
    assert_eq!(packet.flow_label(), 0x54321);
    packet.set_payload_len(0xc);
    packet.set_next_header(Protocol::Udp);
    packet.set_hop_limit(0xfe);
    packet.set_src_addr(link_local_all_routers());
    packet.set_dst_addr(link_local_all_nodes());
    packet
        .payload_mut()
        .copy_from_slice(&REPR_PAYLOAD_BYTES[..]);
    let mut expected_bytes = [
        0x69, 0x95, 0x43, 0x21, 0x00, 0x0c, 0x11, 0xfe, 0xff, 0x02, 0x00, 0x00, 0x00, 0x00,
        0x00, 0x00, 0x00, 0x00, 0x00, 0x00, 0x00, 0x00, 0x00, 0x02, 0xff, 0x02, 0x00, 0x00,
        0x00, 0x00, 0x00, 0x00, 0x00, 0x00, 0x00, 0x00, 0x00, 0x00, 0x00, 0x01, 0x00, 0x00,
        0x00, 0x00, 0x00, 0x00, 0x00, 0x00, 0x00, 0x00, 0x00, 0x00,
    ];
    let start = expected_bytes.len() - REPR_PAYLOAD_BYTES.len();
    expected_bytes[start..].copy_from_slice(&REPR_PAYLOAD_BYTES[..]);
    assert_eq!(packet.check_len(), Ok(()));
    assert_eq!(&*packet.into_inner(), &expected_bytes[..]);
}

#[test]
fn test_overlong() {
    let mut bytes = vec![];
    bytes.extend(&REPR_PACKET_BYTES[..]);
    bytes.push(0);

    assert_eq!(
        Packet::new_unchecked(bytes.clone()).payload().len(),
        REPR_PAYLOAD_BYTES.len()
    );
    assert_eq!(
        Packet::new_unchecked(bytes).payload_mut().len(),
        REPR_PAYLOAD_BYTES.len()
    );
}

#[test]
fn test_total_len_overflow() {
    let mut bytes = vec![];
    bytes.extend(&REPR_PACKET_BYTES[..]);
    let mut packet = Packet::new_unchecked(bytes);
    packet.set_payload_len(0x80);
    let bytes = packet.into_inner();

    assert_eq!(Packet::new_checked(bytes).unwrap_err(), Error);
}

#[test]
fn test_repr_parse_valid() {
    let packet = Packet::new_unchecked(REPR_PACKET_BYTES.to_vec());
    let repr = Repr::parse(&packet).unwrap();
    assert_eq!(repr, packet_repr());
}

#[test]
fn test_repr_parse_bad_version() {
    let bytes = vec![0; 40];
    let mut packet = Packet::new_unchecked(bytes);
    packet.set_version(4);
    packet.set_payload_len(0);
    let packet = Packet::new_unchecked(packet.into_inner());
    assert_eq!(Repr::parse(&packet), Err(Error));
}

#[test]
fn test_repr_parse_smaller_than_header() {
    let bytes = vec![0; 40];
    let mut packet = Packet::new_unchecked(bytes);
    packet.set_version(6);
    packet.set_payload_len(39);
    let packet = Packet::new_unchecked(packet.into_inner());
    assert_eq!(Repr::parse(&packet), Err(Error));
}

#[test]
fn test_repr_parse_smaller_than_payload() {
    let bytes = vec![0; 40];
    let mut packet = Packet::new_unchecked(bytes);
    packet.set_version(6);
    packet.set_payload_len(1);
    let packet = Packet::new_unchecked(packet.into_inner());
    assert_eq!(Repr::parse(&packet), Err(Error));
}

#[test]
fn test_basic_repr_emit() {
    let repr = packet_repr();
    let bytes = vec![0xff; repr.buffer_len() + REPR_PAYLOAD_BYTES.len()];
    let mut packet = Packet::new_unchecked(bytes);
    repr.emit(&mut packet);
    packet.payload_mut().copy_from_slice(&REPR_PAYLOAD_BYTES);
    assert_eq!(&*packet.into_inner(), &REPR_PACKET_BYTES[..]);
}

#[test]
fn ipv6_prefix_len_of_masks() {
    assert_eq!(Address::new(0xffff, 0xffff, 0xffff, 0xffff, 0, 0, 0, 0).prefix_len(), Some(64));
    assert_eq!(Address::new(0xffff, 0xfe00, 0, 0, 0, 0, 0, 0).prefix_len(), Some(23));
    assert_eq!(Address::unspecified().prefix_len(), Some(0));
    assert_eq!(
        Address::new(0xffff, 0xffff, 0xffff, 0xffff, 0xffff, 0xffff, 0xffff, 0xffff).prefix_len(),
        Some(128)
    );
    assert_eq!(Address::new(0xff00, 0x0100, 0, 0, 0, 0, 0, 0).prefix_len(), None);
    assert_eq!(Address::localhost().prefix_len(), None);
}

#[test]
fn ipv6_solicited_node_and_cidr_laws() {
    let addr = Address::new(0xfe80, 0, 0, 0, 0x1234, 0x5678, 0x9abc, 0xdef0);
    let sn = addr.solicited_node();
    assert_eq!(sn, Address::new(0xff02, 0, 0, 0, 0, 1, 0xffbc, 0xdef0));
    assert!(sn.is_solicited_node_multicast());
    assert!(Cidr::solicited_node_prefix().contains_addr(&sn));
    // A block contains itself, its address, and what its subnets contain.
    let a = Cidr::new(addr, 16);
    let b = Cidr::new(addr, 64);
    assert!(a.contains_subnet(&a));
    assert!(a.contains_addr(&a.address()));
    assert!(a.contains_subnet(&b));
    assert!(!b.contains_subnet(&a));
    assert_eq!(b.prefix_len(), 64);
    assert_eq!(Address::from(addr.octets()), addr);
}

#[test]
fn ipv6_parse_after_emit_gives_the_header_back() {
    let repr = Repr {
        src_addr: Address::new(0x2001, 0xdb8, 0, 0, 0, 0, 0, 5),
        dst_addr: Address::localhost(),
        next_header: Protocol::Unknown(0x99),
        payload_len: 3,
        hop_limit: 1,
    };
    let mut packet = Packet::new_unchecked(vec![0xaa; 43]);
    repr.emit(&mut packet);
    assert_eq!(Repr::parse(&packet), Ok(repr));
    assert_eq!(packet.traffic_class(), 0);
    assert_eq!(packet.flow_label(), 0);
}
