use smoltcp::wire::ip::checksum;
use smoltcp::wire::{IpProtocol, Ipv4Address, Ipv4Packet, Ipv4Repr};

const PACKET_BYTES: [u8; 24] = [
    0x45, 0x00, 0x00, 0x18, 0x00, 0x00, 0x40, 0x00, 0x40, 0x3f, 0x00, 0x00, 0x0a, 0x00, 0x00,
    0x01, 0x0a, 0x00, 0x00, 0x02, 0xaa, 0x00, 0x00, 0xff,
];

fn repr() -> Ipv4Repr {
    Ipv4Repr {
        src_addr: Ipv4Address::new(10, 0, 0, 1),
        dst_addr: Ipv4Address::new(10, 0, 0, 2),
        next_header: IpProtocol::Unknown(63),
        payload_len: 4,
        hop_limit: 64,
    }
}

#[test]
fn ipv4_checksum_of_the_header() {
    assert_eq!(checksum::data(&PACKET_BYTES[..20]), 0xd95a);
    assert_eq!(checksum::data(&[0x01]), 0x0100);
    assert_eq!(checksum::data(&[0xff, 0xff, 0x00, 0x01]), 0x0001);
    assert_eq!(checksum::data(&[]), 0);
}

#[test]
fn ipv4_fill_then_verify_checksum() {
    let mut packet = Ipv4Packet::new_unchecked(PACKET_BYTES.to_vec());
    assert!(!packet.verify_checksum());
    packet.fill_checksum();
    assert_eq!(packet.checksum(), 0x26a5);
    assert!(packet.verify_checksum());
}

#[test]
fn ipv4_parse() {
    let mut packet = Ipv4Packet::new_unchecked(PACKET_BYTES.to_vec());
    assert!(Ipv4Repr::parse(&packet).is_err());
    packet.fill_checksum();
    assert_eq!(Ipv4Repr::parse(&packet), Ok(repr()));
    assert_eq!(packet.payload(), &[0xaa, 0x00, 0x00, 0xff]);
    assert_eq!(packet.header_len(), 20);
    assert_eq!(packet.total_len(), 24);
    assert_eq!(packet.hop_limit(), 64);
    assert_eq!(packet.next_header(), IpProtocol::Unknown(63));
    assert_eq!(packet.src_addr(), Ipv4Address::new(10, 0, 0, 1));
    assert_eq!(packet.dst_addr(), Ipv4Address::new(10, 0, 0, 2));
    assert_eq!(packet.ident(), 0);
}

#[test]
fn ipv4_emit() {
    let mut expected = Ipv4Packet::new_unchecked(PACKET_BYTES.to_vec());
    expected.fill_checksum();
    let mut packet = Ipv4Packet::new_unchecked(vec![0xee; 24]);
    repr().emit(&mut packet);
    let bytes = packet.into_inner();
    assert_eq!(&bytes[..20], &expected.into_inner()[..20]);
    assert_eq!(&bytes[20..], &[0xee; 4]);
}

#[test]
fn ipv4_check_len() {
    assert!(Ipv4Packet::new_checked(PACKET_BYTES[..19].to_vec()).is_err());
    assert!(Ipv4Packet::new_checked(PACKET_BYTES[..23].to_vec()).is_err());
    assert!(Ipv4Packet::new_checked(PACKET_BYTES.to_vec()).is_ok());
    let mut long_header = PACKET_BYTES;
    long_header[0] = 0x47;
    assert!(Ipv4Packet::new_checked(long_header.to_vec()).is_err());
    let mut wrong_version = Ipv4Packet::new_unchecked(PACKET_BYTES.to_vec());
    wrong_version.set_version(5);
    wrong_version.fill_checksum();
    assert!(Ipv4Repr::parse(&wrong_version).is_err());
}
