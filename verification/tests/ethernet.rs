use smoltcp::wire::ethernet::{Address, EtherType, Frame, Repr};

#[test]
fn test_broadcast() {
    assert!(Address::broadcast().is_broadcast());
    assert!(!Address::broadcast().is_unicast());
    assert!(Address::broadcast().is_multicast());
    assert!(Address::broadcast().is_local());
}

static FRAME_BYTES_IPV4: [u8; 64] = [
    0x01, 0x02, 0x03, 0x04, 0x05, 0x06, 0x11, 0x12, 0x13, 0x14, 0x15, 0x16, 0x08, 0x00, 0xaa,
    0x00, 0x00, 0x00, 0x00, 0x00, 0x00, 0x00, 0x00, 0x00, 0x00, 0x00, 0x00, 0x00, 0x00, 0x00,
    0x00, 0x00, 0x00, 0x00, 0x00, 0x00, 0x00, 0x00, 0x00, 0x00, 0x00, 0x00, 0x00, 0x00, 0x00,
    0x00, 0x00, 0x00, 0x00, 0x00, 0x00, 0x00, 0x00, 0x00, 0x00, 0x00, 0x00, 0x00, 0x00, 0x00,
    0x00, 0x00, 0x00, 0xff,
];

static PAYLOAD_BYTES_IPV4: [u8; 50] = [
    0xaa, 0x00, 0x00, 0x00, 0x00, 0x00, 0x00, 0x00, 0x00, 0x00, 0x00, 0x00, 0x00, 0x00, 0x00,
    0x00, 0x00, 0x00, 0x00, 0x00, 0x00, 0x00, 0x00, 0x00, 0x00, 0x00, 0x00, 0x00, 0x00, 0x00,
    0x00, 0x00, 0x00, 0x00, 0x00, 0x00, 0x00, 0x00, 0x00, 0x00, 0x00, 0x00, 0x00, 0x00, 0x00,
    0x00, 0x00, 0x00, 0x00, 0xff,
];

static FRAME_BYTES_IPV6: [u8; 54] = [
    0x01, 0x02, 0x03, 0x04, 0x05, 0x06, 0x11, 0x12, 0x13, 0x14, 0x15, 0x16, 0x86, 0xdd, 0x60,
    0x00, 0x00, 0x00, 0x00, 0x00, 0x00, 0x00, 0xfe, 0x80, 0x00, 0x00, 0x00, 0x00, 0x00, 0x00,
    0x00, 0x00, 0x00, 0x00, 0x00, 0x00, 0x00, 0x01, 0x00, 0x00, 0x00, 0x00, 0x00, 0x00, 0x00,
    0x00, 0x00, 0x00, 0x00, 0x00, 0x00, 0x00, 0x00, 0x01,
];

static PAYLOAD_BYTES_IPV6: [u8; 40] = [
    0x60, 0x00, 0x00, 0x00, 0x00, 0x00, 0x00, 0x00, 0xfe, 0x80, 0x00, 0x00, 0x00, 0x00, 0x00,
    0x00, 0x00, 0x00, 0x00, 0x00, 0x00, 0x00, 0x00, 0x01, 0x00, 0x00, 0x00, 0x00, 0x00, 0x00,
    0x00, 0x00, 0x00, 0x00, 0x00, 0x00, 0x00, 0x00, 0x00, 0x01,
];

#[test]
fn ethernet_test_deconstruct() {
    let frame = Frame::new_unchecked(FRAME_BYTES_IPV4.to_vec());
    assert_eq!(
        frame.dst_addr(),
        Address([0x01, 0x02, 0x03, 0x04, 0x05, 0x06])
    );
    assert_eq!(
        frame.src_addr(),
        Address([0x11, 0x12, 0x13, 0x14, 0x15, 0x16])
    );
    assert_eq!(frame.ethertype(), EtherType::Ipv4);
    assert_eq!(frame.payload(), &PAYLOAD_BYTES_IPV4[..]);

    let frame = Frame::new_unchecked(FRAME_BYTES_IPV6.to_vec());
    assert_eq!(
        frame.dst_addr(),
        Address([0x01, 0x02, 0x03, 0x04, 0x05, 0x06])
    );
    assert_eq!(
        frame.src_addr(),
        Address([0x11, 0x12, 0x13, 0x14, 0x15, 0x16])
    );
    assert_eq!(frame.ethertype(), EtherType::Ipv6);
    assert_eq!(frame.payload(), &PAYLOAD_BYTES_IPV6[..]);
}

#[test]
fn ethernet_test_construct() {
    let bytes = vec![0xa5; 64];
    let mut frame = Frame::new_unchecked(bytes);
    frame.set_dst_addr(Address([0x01, 0x02, 0x03, 0x04, 0x05, 0x06]));
    frame.set_src_addr(Address([0x11, 0x12, 0x13, 0x14, 0x15, 0x16]));
    frame.set_ethertype(EtherType::Ipv4);
    frame.payload_mut().copy_from_slice(&PAYLOAD_BYTES_IPV4[..]);
    assert_eq!(&frame.into_inner()[..], &FRAME_BYTES_IPV4[..]);

    let bytes = vec![0xa5; 54];
    let mut frame = Frame::new_unchecked(bytes);
    frame.set_dst_addr(Address([0x01, 0x02, 0x03, 0x04, 0x05, 0x06]));
    frame.set_src_addr(Address([0x11, 0x12, 0x13, 0x14, 0x15, 0x16]));
    frame.set_ethertype(EtherType::Ipv6);
    assert_eq!(PAYLOAD_BYTES_IPV6.len(), frame.payload_mut().len());
    frame.payload_mut().copy_from_slice(&PAYLOAD_BYTES_IPV6[..]);
    assert_eq!(&frame.into_inner()[..], &FRAME_BYTES_IPV6[..]);
}

#[test]
fn ethernet_repr_roundtrip() {
    let repr = Repr {
        src_addr: Address([0x11, 0x12, 0x13, 0x14, 0x15, 0x16]),
        dst_addr: Address::broadcast(),
        ethertype: EtherType::Arp,
    };
    let mut frame = Frame::new_unchecked(vec![0u8; repr.buffer_len()]);
    repr.emit(&mut frame);
    assert_eq!(
        &frame.clone().into_inner()[..],
        &[0xff, 0xff, 0xff, 0xff, 0xff, 0xff, 0x11, 0x12, 0x13, 0x14, 0x15, 0x16, 0x08, 0x06][..]
    );
    assert_eq!(Repr::parse(&frame), Ok(repr));
    assert!(Frame::new_checked(vec![0u8; 13]).is_err());
    assert!(Repr::parse(&Frame::new_unchecked(vec![0u8; 13])).is_err());
    assert_eq!(Frame::buffer_len(50), 64);
    assert_eq!(Frame::header_len(), 14);
}

#[test]
fn ethertype_conversions() {
    assert_eq!(EtherType::from(0x0800u16), EtherType::Ipv4);
    assert_eq!(EtherType::from(0x0806u16), EtherType::Arp);
    assert_eq!(EtherType::from(0x86DDu16), EtherType::Ipv6);
    assert_eq!(EtherType::from(0x1234u16), EtherType::Unknown(0x1234));
    assert_eq!(u16::from(EtherType::Unknown(0x1234)), 0x1234);
    assert_eq!(u16::from(EtherType::Ipv6), 0x86DD);
}

#[test]
fn address_kinds() {
    let unicast = Address([0x02, 0, 0, 0, 0, 1]);
    assert!(unicast.is_unicast());
    assert!(unicast.is_local());
    assert!(!unicast.is_multicast());
    let multicast = Address([0x01, 0x00, 0x5e, 0, 0, 1]);
    assert!(multicast.is_multicast());
    assert!(!multicast.is_unicast());
    assert!(!multicast.is_broadcast());
    assert_eq!(Address::from_bytes(&[1, 2, 3, 4, 5, 6]).as_bytes(), &[1, 2, 3, 4, 5, 6]);
}
