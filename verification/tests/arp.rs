use smoltcp::wire::arp::{Hardware, Operation, Packet, Repr, SHA, SPA, THA, TPA};
use smoltcp::wire::{EthernetAddress, EthernetProtocol as Protocol, Ipv4Address};

static PACKET_BYTES: [u8; 28] = [
    0x00, 0x01, 0x08, 0x00, 0x06, 0x04, 0x00, 0x01, 0x11, 0x12, 0x13, 0x14, 0x15, 0x16, 0x21,
    0x22, 0x23, 0x24, 0x31, 0x32, 0x33, 0x34, 0x35, 0x36, 0x41, 0x42, 0x43, 0x44,
];

#[test]
fn arp_test_deconstruct() {
    let packet = Packet::new_unchecked(PACKET_BYTES.to_vec());
    assert_eq!(packet.hardware_type(), Hardware::Ethernet);
    assert_eq!(packet.protocol_type(), Protocol::Ipv4);
    assert_eq!(packet.hardware_len(), 6);
    assert_eq!(packet.protocol_len(), 4);
    assert_eq!(packet.operation(), Operation::Request);
    assert_eq!(
        packet.source_hardware_addr(),
        &[0x11, 0x12, 0x13, 0x14, 0x15, 0x16]
    );
    assert_eq!(packet.source_protocol_addr(), &[0x21, 0x22, 0x23, 0x24]);
    assert_eq!(
        packet.target_hardware_addr(),
        &[0x31, 0x32, 0x33, 0x34, 0x35, 0x36]
    );
    assert_eq!(packet.target_protocol_addr(), &[0x41, 0x42, 0x43, 0x44]);
}

#[test]
fn arp_test_construct() {
    let bytes = vec![0xa5; 28];
    let mut packet = Packet::new_unchecked(bytes);
    packet.set_hardware_type(Hardware::Ethernet);
    packet.set_protocol_type(Protocol::Ipv4);
    packet.set_hardware_len(6);
    packet.set_protocol_len(4);
    packet.set_operation(Operation::Request);
    packet.set_source_hardware_addr(&[0x11, 0x12, 0x13, 0x14, 0x15, 0x16]);
    packet.set_source_protocol_addr(&[0x21, 0x22, 0x23, 0x24]);
    packet.set_target_hardware_addr(&[0x31, 0x32, 0x33, 0x34, 0x35, 0x36]);
    packet.set_target_protocol_addr(&[0x41, 0x42, 0x43, 0x44]);
    assert_eq!(&*packet.into_inner(), &PACKET_BYTES[..]);
}

fn packet_repr() -> Repr {
    Repr::EthernetIpv4 {
        operation: Operation::Request,
        source_hardware_addr: EthernetAddress::from_bytes(&[
            0x11, 0x12, 0x13, 0x14, 0x15, 0x16,
        ]),
        source_protocol_addr: Ipv4Address::from_bytes(&[0x21, 0x22, 0x23, 0x24]),
        target_hardware_addr: EthernetAddress::from_bytes(&[
            0x31, 0x32, 0x33, 0x34, 0x35, 0x36,
        ]),
        target_protocol_addr: Ipv4Address::from_bytes(&[0x41, 0x42, 0x43, 0x44]),
    }
}

#[test]
fn test_parse() {
    let packet = Packet::new_unchecked(PACKET_BYTES.to_vec());
    let repr = Repr::parse(&packet).unwrap();
    assert_eq!(repr, packet_repr());
}

#[test]
fn test_emit() {
    let bytes = vec![0xa5; 28];
    let mut packet = Packet::new_unchecked(bytes);
    packet_repr().emit(&mut packet);
    assert_eq!(&*packet.into_inner(), &PACKET_BYTES[..]);
}

#[test]
fn arp_fields_follow_the_address_lengths() {
    assert_eq!(SHA(6, 4), 8..14);
    assert_eq!(SPA(6, 4), 14..18);
    assert_eq!(THA(6, 4), 18..24);
    assert_eq!(TPA(6, 4), 24..28);
    assert_eq!(TPA(2, 3), 15..18);
    assert_eq!(packet_repr().buffer_len(), 28);
}

#[test]
fn arp_errors() {
    assert!(Packet::new_checked(vec![0u8; 7]).is_err());
    assert!(Packet::new_checked(PACKET_BYTES[..27].to_vec()).is_err());
    assert!(Packet::new_checked(PACKET_BYTES.to_vec()).is_ok());
    // A packet of another hardware type is not recognized.
    let mut other = PACKET_BYTES.to_vec();
    other[1] = 0x06;
    assert!(Repr::parse(&Packet::new_unchecked(other)).is_err());
    assert_eq!(Operation::from(2u16), Operation::Reply);
    assert_eq!(u16::from(Operation::Unknown(9)), 9);
    assert_eq!(Hardware::from(7u16), Hardware::Unknown(7));
}
