use smoltcp::socket::raw::{PacketBuffer, PacketMetadata, RecvError, SendError, Socket};
use smoltcp::socket::{AnySocket, PollAt, Socket as AnyKindSocket};
use smoltcp::wire::{
    IpProtocol, IpRepr, IpVersion, Ipv4Address, Ipv4Packet, Ipv4Repr, Ipv6Address, Ipv6Packet,
    Ipv6Repr,
};

fn buffer(packets: usize) -> PacketBuffer {
    PacketBuffer::new(vec![PacketMetadata::empty(); packets], vec![0; 48 * packets])
}

const IP_PROTO: u8 = 63;

fn socket(rx_buffer: PacketBuffer, tx_buffer: PacketBuffer) -> Socket {
    Socket::new(
        Some(IpVersion::Ipv6),
        Some(IpProtocol::Unknown(IP_PROTO)),
        rx_buffer,
        tx_buffer,
    )
}

fn header_repr() -> IpRepr {
    IpRepr::Ipv6(Ipv6Repr {
        src_addr: Ipv6Address::new(0xfe80, 0, 0, 0, 0, 0, 0, 1),
        dst_addr: Ipv6Address::new(0xfe80, 0, 0, 0, 0, 0, 0, 2),
        next_header: IpProtocol::Unknown(IP_PROTO),
        payload_len: 4,
        hop_limit: 64,
    })
}

const PACKET_BYTES: [u8; 44] = [
    0x60, 0x00, 0x00, 0x00, 0x00, 0x04, 0x3f, 0x40, 0xfe, 0x80, 0x00, 0x00, 0x00, 0x00, 0x00,
    0x00, 0x00, 0x00, 0x00, 0x00, 0x00, 0x00, 0x00, 0x01, 0xfe, 0x80, 0x00, 0x00, 0x00, 0x00,
    0x00, 0x00, 0x00, 0x00, 0x00, 0x00, 0x00, 0x00, 0x00, 0x02, 0xaa, 0x00, 0x00, 0xff,
];

const PACKET_PAYLOAD: [u8; 4] = [0xaa, 0x00, 0x00, 0xff];

fn ipv4_socket(rx_buffer: PacketBuffer, tx_buffer: PacketBuffer) -> Socket {
    Socket::new(
        Some(IpVersion::Ipv4),
        Some(IpProtocol::Unknown(IP_PROTO)),
        rx_buffer,
        tx_buffer,
    )
}

fn ipv4_header_repr() -> IpRepr {
    IpRepr::Ipv4(Ipv4Repr {
        src_addr: Ipv4Address::new(10, 0, 0, 1),
        dst_addr: Ipv4Address::new(10, 0, 0, 2),
        next_header: IpProtocol::Unknown(IP_PROTO),
        payload_len: 4,
        hop_limit: 64,
    })
}

const IPV4_PACKET_BYTES: [u8; 24] = [
    0x45, 0x00, 0x00, 0x18, 0x00, 0x00, 0x40, 0x00, 0x40, 0x3f, 0x00, 0x00, 0x0a, 0x00, 0x00,
    0x01, 0x0a, 0x00, 0x00, 0x02, 0xaa, 0x00, 0x00, 0xff,
];

fn ipv4_checksummed_packet() -> Vec<u8> {
    let mut packet = Ipv4Packet::new_unchecked(IPV4_PACKET_BYTES.to_vec());
    packet.fill_checksum();
    packet.into_inner()
}

#[test]
fn test_doesnt_accept_wrong_proto() {
    let socket = Socket::new(
        Some(IpVersion::Ipv6),
        Some(IpProtocol::Unknown(IP_PROTO + 1)),
        buffer(1),
        buffer(1),
    );
    assert!(!socket.accepts(&header_repr()));
    assert!(!socket.accepts(&ipv4_header_repr()));

    let socket = Socket::new(
        Some(IpVersion::Ipv4),
        Some(IpProtocol::Unknown(IP_PROTO + 1)),
        buffer(1),
        buffer(1),
    );
    assert!(!socket.accepts(&ipv4_header_repr()));
    assert!(!socket.accepts(&header_repr()));
}

#[test]
fn raw_send_truncated() {
    let mut socket = socket(buffer(0), buffer(1));
    assert_eq!(socket.send_slice(&[0; 56][..]), Err(SendError::BufferFull));
}

#[test]
fn raw_send_dispatch() {
    let mut socket = socket(buffer(0), buffer(1));

    assert!(socket.can_send());
    assert_eq!(socket.dispatch(|_| unreachable!()), Ok::<_, ()>(()));

    assert_eq!(socket.send_slice(&PACKET_BYTES[..]), Ok(()));
    assert_eq!(socket.send_slice(b""), Err(SendError::BufferFull));
    assert!(!socket.can_send());
    assert_eq!(socket.poll_at(), PollAt::Now);

    assert_eq!(
        socket.dispatch(|(ip_repr, ip_payload)| {
            assert_eq!(ip_repr, header_repr());
            assert_eq!(ip_payload, &PACKET_PAYLOAD);
            Err(())
        }),
        Err(())
    );
    assert!(!socket.can_send());

    assert_eq!(
        socket.dispatch(|(ip_repr, ip_payload)| {
            assert_eq!(ip_repr, header_repr());
            assert_eq!(ip_payload, &PACKET_PAYLOAD);
            Ok::<_, ()>(())
        }),
        Ok(())
    );
    assert!(socket.can_send());
    assert_eq!(socket.poll_at(), PollAt::Ingress);
}

#[test]
fn raw_recv_truncated_slice() {
    let mut socket = socket(buffer(1), buffer(0));

    assert!(socket.accepts(&header_repr()));
    socket.process(&header_repr(), &PACKET_PAYLOAD);

    let mut slice = [0; 4];
    assert_eq!(socket.recv_slice(&mut slice[..]), Err(RecvError::Truncated));
}

#[test]
fn raw_recv_truncated_packet() {
    let mut socket = socket(buffer(1), buffer(0));

    let mut buffer = vec![0; 128];
    buffer[..PACKET_BYTES.len()].copy_from_slice(&PACKET_BYTES[..]);

    assert!(socket.accepts(&header_repr()));
    socket.process(&header_repr(), &buffer);
    assert!(!socket.can_recv());
}

#[test]
fn raw_peek_truncated_slice() {
    let mut socket = socket(buffer(1), buffer(0));

    assert!(socket.accepts(&header_repr()));
    socket.process(&header_repr(), &PACKET_PAYLOAD);

    let mut slice = [0; 4];
    assert_eq!(socket.peek_slice(&mut slice[..]), Err(RecvError::Truncated));
    assert_eq!(socket.recv_slice(&mut slice[..]), Err(RecvError::Truncated));
    assert_eq!(socket.peek_slice(&mut slice[..]), Err(RecvError::Exhausted));
}

#[test]
fn raw_send_illegal() {
    let mut socket = socket(buffer(0), buffer(2));

    let mut wrong_version = Ipv6Packet::new_unchecked(PACKET_BYTES.to_vec());
    wrong_version.set_version(4);
    let wrong_version = wrong_version.into_inner();

    assert_eq!(socket.send_slice(&wrong_version[..]), Ok(()));
    assert_eq!(socket.dispatch(|_| unreachable!()), Ok::<_, ()>(()));

    let mut wrong_protocol = Ipv6Packet::new_unchecked(PACKET_BYTES.to_vec());
    wrong_protocol.set_next_header(IpProtocol::Tcp);
    let wrong_protocol = wrong_protocol.into_inner();

    assert_eq!(socket.send_slice(&wrong_protocol[..]), Ok(()));
    assert_eq!(socket.dispatch(|_| unreachable!()), Ok::<_, ()>(()));
    assert_eq!(socket.send_queue(), 0);

    let mut socket = ipv4_socket(buffer(0), buffer(2));

    let mut wrong_version = Ipv4Packet::new_unchecked(IPV4_PACKET_BYTES.to_vec());
    wrong_version.set_version(6);
    let wrong_version = wrong_version.into_inner();

    assert_eq!(socket.send_slice(&wrong_version[..]), Ok(()));
    assert_eq!(socket.dispatch(|_| unreachable!()), Ok::<_, ()>(()));

    let mut wrong_protocol = Ipv4Packet::new_unchecked(IPV4_PACKET_BYTES.to_vec());
    wrong_protocol.set_next_header(IpProtocol::Tcp);
    let wrong_protocol = wrong_protocol.into_inner();

    assert_eq!(socket.send_slice(&wrong_protocol[..]), Ok(()));
    assert_eq!(socket.dispatch(|_| unreachable!()), Ok::<_, ()>(()));
    assert_eq!(socket.send_queue(), 0);
    assert!(socket.can_send());
}

#[test]
fn raw_recv_process() {
    let mut socket = socket(buffer(1), buffer(0));
    assert!(!socket.can_recv());

    assert_eq!(socket.recv(), Err(RecvError::Exhausted));
    assert!(socket.accepts(&header_repr()));
    socket.process(&header_repr(), &PACKET_PAYLOAD);
    assert!(socket.can_recv());
    assert_eq!(socket.recv_queue(), PACKET_BYTES.len());

    assert!(socket.accepts(&header_repr()));
    socket.process(&header_repr(), &PACKET_PAYLOAD);
    assert_eq!(socket.recv(), Ok(&PACKET_BYTES[..]));
    assert!(!socket.can_recv());

    let mut socket = ipv4_socket(buffer(1), buffer(0));
    assert!(!socket.can_recv());
    let cksumd_packet = ipv4_checksummed_packet();

    assert_eq!(socket.recv(), Err(RecvError::Exhausted));
    assert!(socket.accepts(&ipv4_header_repr()));
    socket.process(&ipv4_header_repr(), &PACKET_PAYLOAD);
    assert!(socket.can_recv());

    assert!(socket.accepts(&ipv4_header_repr()));
    socket.process(&ipv4_header_repr(), &PACKET_PAYLOAD);
    assert_eq!(socket.recv(), Ok(&cksumd_packet[..]));
    assert!(!socket.can_recv());
}

#[test]
fn raw_peek_process() {
    let mut socket = socket(buffer(1), buffer(0));

    assert_eq!(socket.peek(), Err(RecvError::Exhausted));
    assert!(socket.accepts(&header_repr()));
    socket.process(&header_repr(), &PACKET_PAYLOAD);

    assert!(socket.accepts(&header_repr()));
    socket.process(&header_repr(), &PACKET_PAYLOAD);
    assert_eq!(socket.peek(), Ok(&PACKET_BYTES[..]));
    let mut slice = [0u8; 50];
    assert_eq!(socket.peek_slice(&mut slice[..]), Ok(44));
    assert_eq!(&slice[..44], &PACKET_BYTES[..]);
    assert_eq!(socket.recv(), Ok(&PACKET_BYTES[..]));
    assert_eq!(socket.peek(), Err(RecvError::Exhausted));

    let mut socket = ipv4_socket(buffer(1), buffer(0));
    let cksumd_packet = ipv4_checksummed_packet();

    assert_eq!(socket.peek(), Err(RecvError::Exhausted));
    assert!(socket.accepts(&ipv4_header_repr()));
    socket.process(&ipv4_header_repr(), &PACKET_PAYLOAD);

    assert!(socket.accepts(&ipv4_header_repr()));
    socket.process(&ipv4_header_repr(), &PACKET_PAYLOAD);
    assert_eq!(socket.peek(), Ok(&cksumd_packet[..]));
    assert_eq!(socket.recv(), Ok(&cksumd_packet[..]));
    assert_eq!(socket.peek(), Err(RecvError::Exhausted));
}

#[test]
fn raw_unfiltered_sends_all() {
    let mut socket = Socket::new(None, None, buffer(0), buffer(2));

    for proto in [IpProtocol::Udp, IpProtocol::Tcp] {
        let mut packet = Ipv4Packet::new_unchecked(IPV4_PACKET_BYTES.to_vec());
        packet.set_next_header(proto);
        let packet = packet.into_inner();
        assert_eq!(socket.send_slice(&packet[..]), Ok(()));
        let mut emitted = false;
        assert_eq!(
            socket.dispatch(|_| {
                emitted = true;
                Ok::<_, ()>(())
            }),
            Ok(())
        );
        assert!(emitted);
    }

    assert_eq!(socket.send_slice(&PACKET_BYTES), Ok(()));
    let mut emitted = false;
    assert_eq!(
        socket.dispatch(|_| {
            emitted = true;
            Ok::<_, ()>(())
        }),
        Ok(())
    );
    assert!(emitted);

    let mut tcp_packet = Ipv6Packet::new_unchecked(PACKET_BYTES.to_vec());
    tcp_packet.set_next_header(IpProtocol::Tcp);
    let tcp_packet = tcp_packet.into_inner();

    assert_eq!(socket.send_slice(&tcp_packet[..]), Ok(()));
    let mut emitted = false;
    assert_eq!(
        socket.dispatch(|_| {
            emitted = true;
            Ok::<_, ()>(())
        }),
        Ok(())
    );
    assert!(emitted);
}

#[test]
fn raw_unfiltered_accepts_all() {
    let socket = Socket::new(None, None, buffer(0), buffer(0));
    for proto in [IpProtocol::Icmp, IpProtocol::Tcp, IpProtocol::Udp] {
        let header_repr = IpRepr::Ipv6(Ipv6Repr {
            src_addr: Ipv6Address::new(0xfe80, 0, 0, 0, 0, 0, 0, 1),
            dst_addr: Ipv6Address::new(0xfe80, 0, 0, 0, 0, 0, 0, 2),
            next_header: proto,
            payload_len: 4,
            hop_limit: 64,
        });
        assert!(socket.accepts(&header_repr));
        let header_repr = IpRepr::Ipv4(Ipv4Repr {
            src_addr: Ipv4Address::new(10, 0, 0, 1),
            dst_addr: Ipv4Address::new(10, 0, 0, 2),
            next_header: proto,
            payload_len: 4,
            hop_limit: 64,
        });
        assert!(socket.accepts(&header_repr));
    }
}

#[test]
fn raw_send_with_and_capacities() {
    let mut socket = socket(buffer(2), buffer(2));
    assert_eq!(socket.packet_send_capacity(), 2);
    assert_eq!(socket.payload_send_capacity(), 96);
    assert_eq!(socket.packet_recv_capacity(), 2);
    assert_eq!(socket.payload_recv_capacity(), 96);
    assert_eq!(
        socket.send_with(60, |buf| {
            buf[..PACKET_BYTES.len()].copy_from_slice(&PACKET_BYTES);
            PACKET_BYTES.len()
        }),
        Ok(44)
    );
    assert_eq!(socket.send_queue(), 44);
    assert_eq!(socket.ip_version(), Some(IpVersion::Ipv6));
    assert_eq!(socket.ip_protocol(), Some(IpProtocol::Unknown(IP_PROTO)));
    let mut any = socket.upcast();
    assert_eq!(any.poll_at(), PollAt::Now);
    let raw = Socket::downcast_mut(&mut any).unwrap();
    assert_eq!(raw.dispatch(|_| Ok::<_, ()>(())), Ok(()));
    assert!(matches!(Socket::downcast(&any), Some(_)));
    assert!(matches!(any, AnyKindSocket::Raw(_)));
    assert_eq!(any.poll_at(), PollAt::Ingress);
    assert_eq!(IpVersion::of_packet(&PACKET_BYTES), Ok(IpVersion::Ipv6));
    assert_eq!(IpVersion::of_packet(&[0x45]), Ok(IpVersion::Ipv4));
    assert!(IpVersion::of_packet(&[0x55]).is_err());
    assert!(IpVersion::of_packet(&[]).is_err());
}

#[test]
fn raw_ipv4_send_truncated() {
    let mut socket = ipv4_socket(buffer(0), buffer(1));
    assert_eq!(socket.send_slice(&[0; 56][..]), Err(SendError::BufferFull));
}

#[test]
fn raw_ipv4_send_dispatch() {
    let mut socket = ipv4_socket(buffer(0), buffer(1));

    assert!(socket.can_send());
    assert_eq!(socket.dispatch(|_| unreachable!()), Ok::<_, ()>(()));

    assert_eq!(socket.send_slice(&IPV4_PACKET_BYTES[..]), Ok(()));
    assert_eq!(socket.send_slice(b""), Err(SendError::BufferFull));
    assert!(!socket.can_send());

    assert_eq!(
        socket.dispatch(|(ip_repr, ip_payload)| {
            assert_eq!(ip_repr, ipv4_header_repr());
            assert_eq!(ip_payload, &PACKET_PAYLOAD);
            Err(())
        }),
        Err(())
    );
    assert!(!socket.can_send());

    assert_eq!(
        socket.dispatch(|(ip_repr, ip_payload)| {
            assert_eq!(ip_repr, ipv4_header_repr());
            assert_eq!(ip_payload, &PACKET_PAYLOAD);
            Ok::<_, ()>(())
        }),
        Ok(())
    );
    assert!(socket.can_send());
}

#[test]
fn raw_ipv4_recv_truncated_slice() {
    let mut socket = ipv4_socket(buffer(1), buffer(0));

    assert!(socket.accepts(&ipv4_header_repr()));
    socket.process(&ipv4_header_repr(), &PACKET_PAYLOAD);

    let mut slice = [0; 4];
    assert_eq!(socket.recv_slice(&mut slice[..]), Err(RecvError::Truncated));
}

#[test]
fn raw_ipv4_recv_truncated_packet() {
    let mut socket = ipv4_socket(buffer(1), buffer(0));

    let mut buffer = vec![0; 128];
    buffer[..IPV4_PACKET_BYTES.len()].copy_from_slice(&IPV4_PACKET_BYTES[..]);

    assert!(socket.accepts(&ipv4_header_repr()));
    socket.process(&ipv4_header_repr(), &buffer);
    assert!(!socket.can_recv());
}

#[test]
fn raw_ipv4_peek_truncated_slice() {
    let mut socket = ipv4_socket(buffer(1), buffer(0));

    assert!(socket.accepts(&ipv4_header_repr()));
    socket.process(&ipv4_header_repr(), &PACKET_PAYLOAD);

    let mut slice = [0; 4];
    assert_eq!(socket.peek_slice(&mut slice[..]), Err(RecvError::Truncated));
    assert_eq!(socket.recv_slice(&mut slice[..]), Err(RecvError::Truncated));
    assert_eq!(socket.peek_slice(&mut slice[..]), Err(RecvError::Exhausted));
}
