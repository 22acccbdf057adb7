//! Raw IP sockets: sockets that exchange whole IP packets, header included.

use vstd::prelude::*;

use super::PollAt;
use crate::storage::Empty;
use crate::wire::bytes::{copy_slice, write_at};
use crate::wire::ip::{IpProtocol, IpRepr, IpVersion};
use crate::wire::ipv4::{self, Packet as Ipv4Packet, Repr as Ipv4Repr};
use crate::wire::ipv6::{self, total_len_of, Packet as Ipv6Packet, Repr as Ipv6Repr};

verus! {

/// Error returned by [`Socket::bind`]
#[derive(Debug, PartialEq, Eq, Clone, Copy, Structural)]
pub enum BindError {
    InvalidState,
    Unaddressable,
}

/// Error returned by [`Socket::send`]
#[derive(Debug, PartialEq, Eq, Clone, Copy, Structural)]
pub enum SendError {
    BufferFull,
}

/// Error returned by [`Socket::recv`]
#[derive(Debug, PartialEq, Eq, Clone, Copy, Structural)]
pub enum RecvError {
    Exhausted,
    Truncated,
}

/// A raw IP packet metadata.
pub type PacketMetadata = crate::storage::PacketMetadata<()>;

/// A raw IP packet ring buffer.
pub type PacketBuffer = crate::storage::PacketBuffer<()>;

/// Whether a queued IPv6 packet `pkt` goes out: a whole header and the payload it
/// announces, of the bound protocol if any.
pub open spec fn sendable_v6(ip_protocol: Option<IpProtocol>, pkt: Seq<u8>) -> bool {
    &&& pkt.len() > 0
    &&& pkt[0] >> 4u8 == 6
    &&& pkt.len() >= ipv6::HEADER_LEN
    &&& pkt.len() >= total_len_of(pkt)
    &&& ip_protocol matches Some(p) ==> p == IpProtocol::from_raw(pkt[6])
    &&& Ipv6Repr::parses(pkt)
}

/// Whether a queued IPv4 packet `pkt` goes out: a whole header and the payload it
/// announces, of the bound protocol if any, that parses once its header checksum is
/// filled in.
pub open spec fn sendable_v4(ip_protocol: Option<IpProtocol>, pkt: Seq<u8>) -> bool {
    &&& pkt.len() > 0
    &&& pkt[0] >> 4u8 == 4
    &&& ipv4::len_ok(pkt)
    &&& ip_protocol matches Some(p) ==> p == IpProtocol::from_raw(pkt[9])
    &&& Ipv4Repr::parses(ipv4::with_checksum(pkt))
}

/// Whether a packet queued for sending, held in `pkt`, goes out. Any other packet is
/// dropped.
pub open spec fn sendable(ip_protocol: Option<IpProtocol>, pkt: Seq<u8>) -> bool {
    sendable_v4(ip_protocol, pkt) || sendable_v6(ip_protocol, pkt)
}

/// Whether the queued packet `pkt` goes out with the header `repr` and the payload
/// `payload`: an IPv4 packet after its header checksum is filled in.
pub open spec fn goes_out_as(ip_protocol: Option<IpProtocol>, pkt: Seq<u8>, repr: IpRepr, payload: Seq<u8>) -> bool {
    match repr {
        IpRepr::Ipv4(r) => {
            let q = ipv4::with_checksum(pkt);
            &&& sendable_v4(ip_protocol, pkt)
            &&& r.is_parse_of(q)
            &&& payload == q.subrange(ipv4::header_len_of(q) as int, ipv4::total_len_of(q) as int)
        },
        IpRepr::Ipv6(r) => {
            &&& sendable_v6(ip_protocol, pkt)
            &&& r.is_parse_of(pkt)
            &&& payload == pkt.subrange(ipv6::HEADER_LEN as int, total_len_of(pkt))
        },
    }
}

/// The packet `pkt` as it stays queued when `emit` fails on it: an IPv4 packet keeps
/// the header checksum filled in on its way out.
pub open spec fn kept_after_failure(ip_protocol: Option<IpProtocol>, pkt: Seq<u8>) -> Seq<u8> {
    if sendable_v4(ip_protocol, pkt) {
        ipv4::with_checksum(pkt)
    } else {
        pkt
    }
}

/// Fill in the header checksum of the queued IPv4 packet `b`, where the buffer holds its
/// header, and keep the packet queued.
fn keep_with_checksum(_h: &mut (), b: &mut [u8]) -> (r: Result<(), ()>)
    ensures
        r is Err,
        ipv4::fill_ok(old(b)@) ==> final(b)@ == ipv4::with_checksum(old(b)@),
        !ipv4::fill_ok(old(b)@) ==> final(b)@ == old(b)@,
        final(b)@.len() == old(b)@.len(),
{
    if ipv4::fill_ok_exec(b) {
        ipv4::fill_checksum_in(b);
    }
    Err(())
}

/// The header and the payload that a queued packet goes out with, or `None` for one
/// that is dropped.
fn outgoing(ip_protocol: Option<IpProtocol>, buffer: &[u8]) -> (r: Option<(IpRepr, Vec<u8>)>)
    ensures
        r is Some <==> sendable(ip_protocol, buffer@),
        r matches Some((repr, payload)) ==> goes_out_as(ip_protocol, buffer@, repr, payload@),
{
    match IpVersion::of_packet(buffer) {
        Ok(IpVersion::Ipv4) => {
            let mut packet = match Ipv4Packet::new_checked(vstd::slice::slice_to_vec(buffer)) {
                Ok(x) => x,
                Err(_) => {
                    // malformed ipv4 packet in queue, dropping
                    return None;
                },
            };
            if let Some(next_header) = ip_protocol {
                if next_header != packet.next_header() {
                    // sent packet with wrong ip protocol, dropping
                    return None;
                }
            }
            packet.fill_checksum();
            let repr = match Ipv4Repr::parse(&packet) {
                Ok(x) => x,
                Err(_) => {
                    // malformed ipv4 packet in queue, dropping
                    return None;
                },
            };
            let payload = vstd::slice::slice_to_vec(packet.payload());
            Some((IpRepr::Ipv4(repr), payload))
        },
        Ok(IpVersion::Ipv6) => {
            let packet = match Ipv6Packet::new_checked(vstd::slice::slice_to_vec(buffer)) {
                Ok(x) => x,
                Err(_) => {
                    // malformed ipv6 packet in queue, dropping
                    return None;
                },
            };
            if let Some(next_header) = ip_protocol {
                if next_header != packet.next_header() {
                    // sent ipv6 packet with wrong ip protocol, dropping
                    return None;
                }
            }
            let repr = match Ipv6Repr::parse(&packet) {
                Ok(x) => x,
                Err(_) => {
                    // malformed ipv6 packet in queue, dropping
                    return None;
                },
            };
            let payload = vstd::slice::slice_to_vec(packet.payload());
            Some((IpRepr::Ipv6(repr), payload))
        },
        Err(_) => {
            // sent packet with invalid IP version, dropping
            None
        },
    }
}

/// A raw IP socket.
///
/// A raw socket is bound to a specific IP protocol, and owns
/// transmit and receive packet buffers.
#[derive(Debug)]
pub struct Socket {
    ip_version: Option<IpVersion>,
    ip_protocol: Option<IpProtocol>,
    rx_buffer: PacketBuffer,
    tx_buffer: PacketBuffer,
}

impl Socket {
    /// The IP version the socket is bound to, if any.
    pub closed spec fn version_view(&self) -> Option<IpVersion> {
        self.ip_version
    }

    /// The IP protocol the socket is bound to, if any.
    pub closed spec fn protocol_view(&self) -> Option<IpProtocol> {
        self.ip_protocol
    }

    /// The buffer of received packets.
    pub closed spec fn rx(&self) -> PacketBuffer {
        self.rx_buffer
    }

    /// The buffer of packets to send.
    pub closed spec fn tx(&self) -> PacketBuffer {
        self.tx_buffer
    }

    /// The socket's invariant: both buffers are well formed.
    pub open spec fn wf(&self) -> bool {
        self.rx().wf() && self.tx().wf()
    }

    /// Whether the socket takes in a packet with the header `repr`: of the bound IP
    /// version and protocol, where the socket is bound to them.
    pub open spec fn accepts_spec(&self, repr: IpRepr) -> bool {
        &&& self.version_view() matches Some(v) ==> v == repr.version_spec()
        &&& self.protocol_view() matches Some(p) ==> p == repr.next_header_spec()
    }

    /// Create a raw IP socket bound to the given IP version and datagram protocol,
    /// with the given buffers.
    pub fn new(
        ip_version: Option<IpVersion>,
        ip_protocol: Option<IpProtocol>,
        rx_buffer: PacketBuffer,
        tx_buffer: PacketBuffer,
    ) -> (r: Socket)
        ensures
            r.version_view() == ip_version,
            r.protocol_view() == ip_protocol,
            r.rx() == rx_buffer,
            r.tx() == tx_buffer,
    {
        Socket { ip_version, ip_protocol, rx_buffer, tx_buffer }
    }

    /// Return the IP version the socket is bound to.
    pub fn ip_version(&self) -> (r: Option<IpVersion>)
        ensures
            r == self.version_view(),
    {
        self.ip_version
    }

    /// Return the IP protocol the socket is bound to.
    pub fn ip_protocol(&self) -> (r: Option<IpProtocol>)
        ensures
            r == self.protocol_view(),
    {
        self.ip_protocol
    }

    /// Check whether the transmit buffer is full.
    pub fn can_send(&self) -> (r: bool)
        requires
            self.wf(),
        ensures
            r == (self.tx().metadata().free() > 0),
    {
        !self.tx_buffer.is_full()
    }

    /// Check whether the receive buffer is not empty.
    pub fn can_recv(&self) -> (r: bool)
        ensures
            r == (self.rx().metadata()@.len() > 0),
    {
        !self.rx_buffer.is_empty()
    }

    /// Return the maximum number packets the socket can receive.
    pub fn packet_recv_capacity(&self) -> (r: usize)
        ensures
            r == self.rx().metadata().cap(),
    {
        self.rx_buffer.packet_capacity()
    }

    /// Return the maximum number packets the socket can transmit.
    pub fn packet_send_capacity(&self) -> (r: usize)
        ensures
            r == self.tx().metadata().cap(),
    {
        self.tx_buffer.packet_capacity()
    }

    /// Return the maximum number of bytes inside the recv buffer.
    pub fn payload_recv_capacity(&self) -> (r: usize)
        ensures
            r == self.rx().payload().cap(),
    {
        self.rx_buffer.payload_capacity()
    }

    /// Return the maximum number of bytes inside the transmit buffer.
    pub fn payload_send_capacity(&self) -> (r: usize)
        ensures
            r == self.tx().payload().cap(),
    {
        self.tx_buffer.payload_capacity()
    }

    /// Enqueue a packet to send, and return a pointer to its payload.
    ///
    /// This function returns `Err(SendError::BufferFull)` if the transmit buffer is full.
    ///
    /// If the buffer is filled in a way that does not match the socket's
    /// IP version or protocol, the packet will be silently dropped.
    ///
    /// **Note:** The IP header is parsed and re-serialized, and may not match
    /// the header actually transmitted bit for bit.
    pub fn send<'b>(&'b mut self, size: usize) -> (r: Result<&'b mut [u8], SendError>)
        requires
            old(self).wf(),
        ensures
            r is Ok <==> old(self).tx().can_enqueue(size as nat),
            r is Err ==> final(self).tx()@ == old(self).tx()@ && final(self).wf(),
            r is Err ==> PacketBuffer::enqueue_result(old(self).tx(), final(self).tx(), size as nat, (), false),
            r matches Ok(buf) ==> {
                &&& buf@.len() == size
                &&& final(buf)@.len() == size ==> final(self).wf()
                &&& final(buf)@.len() == size ==> final(self).tx()@ == old(self).tx()@.push(((), final(buf)@))
                &&& final(buf)@.len() == size ==> PacketBuffer::enqueue_result(
                    old(self).tx(),
                    final(self).tx(),
                    size as nat,
                    (),
                    true,
                )
            },
            final(self).rx() == old(self).rx(),
            final(self).version_view() == old(self).version_view(),
            final(self).protocol_view() == old(self).protocol_view(),
            final(self).tx().metadata().cap() == old(self).tx().metadata().cap(),
    {
        match self.tx_buffer.enqueue(size, ()) {
            Ok(packet_buf) => Ok(packet_buf),
            Err(_) => Err(SendError::BufferFull),
        }
    }

    /// Enqueue a packet to be send and pass the buffer to the provided closure.
    /// The closure then returns the size of the data written into the buffer.
    ///
    /// `f` must not report more bytes than the `max_size` it was given. When a padding
    /// is needed and it takes the last free entry, the packet that `f` wrote finds no
    /// entry: `Err(SendError::BufferFull)` is returned and its bytes stay in the buffer.
    ///
    /// Also see [send](#method.send).
    pub fn send_with<F>(&mut self, max_size: usize, f: F) -> (r: Result<usize, SendError>)
        where
            F: FnOnce(&mut [u8]) -> usize,
        requires
            old(self).wf(),
            forall|s: &mut [u8]| s@.len() == max_size ==> call_requires(f, (s,)),
            forall|s: &mut [u8], n: usize| call_ensures(f, (s,), n) ==> n <= s@.len() && final(s)@.len() == s@.len(),
        ensures
            !old(self).tx().infallible_strands_payload(max_size as nat) ==> final(self).wf(),
            r is Ok <==> old(self).tx().can_enqueue(max_size as nat),
            r is Err && !old(self).tx().infallible_strands_payload(max_size as nat) ==> final(self).tx()@ == old(self).tx()@,
            !old(self).tx().infallible_proceeds(max_size as nat) ==> final(self).tx() == old(self).tx(),
            r is Ok ==> final(self).tx().entries() == PacketBuffer::infallible_padded(old(self).tx(), max_size as nat).push(
                (r->Ok_0 as nat, Some(())),
            ),
            r is Err && old(self).tx().infallible_proceeds(max_size as nat) ==> final(self).tx().entries()
                == PacketBuffer::infallible_padded(old(self).tx(), max_size as nat),
            r is Ok ==> final(self).tx()@ == old(self).tx()@.push(((), final(self).tx()@.last().1)),
            r is Ok ==> final(self).tx()@.last().1.len() == r->Ok_0,
            r is Ok ==> exists|s: &mut [u8]|
                {
                    &&& s@.len() == max_size
                    &&& #[trigger] call_ensures(f, (s,), r->Ok_0)
                    &&& final(s)@.take(r->Ok_0 as int) == final(self).tx()@.last().1
                },
            final(self).rx() == old(self).rx(),
            final(self).version_view() == old(self).version_view(),
            final(self).protocol_view() == old(self).protocol_view(),
    {
        match self.tx_buffer.enqueue_with_infallible(max_size, (), f) {
            Ok(size) => Ok(size),
            Err(_) => Err(SendError::BufferFull),
        }
    }

    /// Enqueue a packet to send, and fill it from a slice.
    ///
    /// See also [send](#method.send).
    pub fn send_slice(&mut self, data: &[u8]) -> (r: Result<(), SendError>)
        requires
            old(self).wf(),
        ensures
            final(self).wf(),
            r is Ok <==> old(self).tx().can_enqueue(data@.len()),
            r is Ok ==> final(self).tx()@ == old(self).tx()@.push(((), data@)),
            r is Err ==> final(self).tx()@ == old(self).tx()@,
            PacketBuffer::enqueue_result(old(self).tx(), final(self).tx(), data@.len(), (), r is Ok),
            final(self).rx() == old(self).rx(),
            final(self).version_view() == old(self).version_view(),
            final(self).protocol_view() == old(self).protocol_view(),
    {
        match self.send(data.len()) {
            Ok(buf) => {
                copy_slice(buf, data);
                Ok(())
            },
            Err(e) => Err(e),
        }
    }

    /// Dequeue a packet, and return a pointer to the payload.
    ///
    /// This function returns `Err(RecvError::Exhausted)` if the receive buffer is empty.
    ///
    /// **Note:** The IP header is parsed and re-serialized, and may not match
    /// the header actually received bit for bit.
    pub fn recv(&mut self) -> (r: Result<&[u8], RecvError>)
        requires
            old(self).wf(),
        ensures
            final(self).wf(),
            r is Err <==> old(self).rx()@.len() == 0,
            r matches Err(e) ==> e == RecvError::Exhausted && final(self).rx()@ == old(self).rx()@,
            r matches Ok(buf) ==> buf@ == old(self).rx()@[0].1 && final(self).rx()@ == old(self).rx()@.skip(1),
            PacketBuffer::front_dropped(old(self).rx(), final(self).rx(), r is Ok),
            r is Err ==> final(self).rx().entries() == old(self).rx().entries().skip(old(self).rx().front_skip() as int),
            final(self).tx() == old(self).tx(),
            final(self).version_view() == old(self).version_view(),
            final(self).protocol_view() == old(self).protocol_view(),
    {
        match self.rx_buffer.dequeue() {
            Ok(((), packet_buf)) => Ok(&*packet_buf),
            Err(_) => Err(RecvError::Exhausted),
        }
    }

    /// Dequeue a packet, and copy the payload into the given slice.
    ///
    /// **Note**: when the size of the provided buffer is smaller than the size of the payload,
    /// the packet is dropped and a `RecvError::Truncated` error is returned.
    ///
    /// See also [recv](#method.recv).
    pub fn recv_slice(&mut self, data: &mut [u8]) -> (r: Result<usize, RecvError>)
        requires
            old(self).wf(),
        ensures
            final(self).wf(),
            old(self).rx()@.len() == 0 ==> r == Err::<usize, RecvError>(RecvError::Exhausted)
                && final(self).rx()@ == old(self).rx()@ && final(data)@ == old(data)@,
            old(self).rx()@.len() > 0 ==> {
                let p = old(self).rx()@[0].1;
                &&& final(self).rx()@ == old(self).rx()@.skip(1)
                &&& p.len() > old(data)@.len() ==> r == Err::<usize, RecvError>(RecvError::Truncated)
                    && final(data)@ == old(data)@
                &&& p.len() <= old(data)@.len() ==> r == Ok::<usize, RecvError>(p.len() as usize)
                    && final(data)@ == p + old(data)@.skip(p.len() as int)
            },
            PacketBuffer::front_dropped(old(self).rx(), final(self).rx(), old(self).rx()@.len() > 0),
            final(self).tx() == old(self).tx(),
            final(self).version_view() == old(self).version_view(),
            final(self).protocol_view() == old(self).protocol_view(),
    {
        let buffer = match self.recv() {
            Ok(b) => b,
            Err(e) => {
                return Err(e);
            },
        };
        if data.len() < buffer.len() {
            return Err(RecvError::Truncated);
        }
        let length = buffer.len();
        let ghost d0 = data@;
        let (head, _tail) = data.split_at_mut(length);
        copy_slice(head, buffer);
        proof {
            assert(final(_tail)@ == d0.skip(length as int));
        }
        Ok(length)
    }

    /// Peek at a packet in the receive buffer and return a pointer to the
    /// payload without removing the packet from the receive buffer.
    /// This function otherwise behaves identically to [recv](#method.recv).
    ///
    /// It returns `Err(RecvError::Exhausted)` if the receive buffer is empty.
    pub fn peek(&mut self) -> (r: Result<&[u8], RecvError>)
        requires
            old(self).wf(),
        ensures
            final(self).wf(),
            final(self).rx()@ == old(self).rx()@,
            r is Err <==> old(self).rx()@.len() == 0,
            r matches Err(e) ==> e == RecvError::Exhausted,
            r matches Ok(buf) ==> buf@ == old(self).rx()@[0].1,
            PacketBuffer::front_dropped(old(self).rx(), final(self).rx(), false),
            final(self).rx().entries() == old(self).rx().entries().skip(old(self).rx().front_skip() as int),
            final(self).tx() == old(self).tx(),
            final(self).version_view() == old(self).version_view(),
            final(self).protocol_view() == old(self).protocol_view(),
    {
        match self.rx_buffer.peek() {
            Ok((_, packet_buf)) => Ok(packet_buf),
            Err(_) => Err(RecvError::Exhausted),
        }
    }

    /// Peek at a packet in the receive buffer, copy the payload into the given slice,
    /// and return the amount of octets copied without removing the packet from the receive buffer.
    /// This function otherwise behaves identically to [recv_slice](#method.recv_slice).
    ///
    /// **Note**: when the size of the provided buffer is smaller than the size of the payload,
    /// no data is copied into the provided buffer and a `RecvError::Truncated` error is returned.
    ///
    /// See also [peek](#method.peek).
    pub fn peek_slice(&mut self, data: &mut [u8]) -> (r: Result<usize, RecvError>)
        requires
            old(self).wf(),
        ensures
            final(self).wf(),
            final(self).rx()@ == old(self).rx()@,
            old(self).rx()@.len() == 0 ==> r == Err::<usize, RecvError>(RecvError::Exhausted)
                && final(data)@ == old(data)@,
            old(self).rx()@.len() > 0 ==> {
                let p = old(self).rx()@[0].1;
                &&& p.len() > old(data)@.len() ==> r == Err::<usize, RecvError>(RecvError::Truncated)
                    && final(data)@ == old(data)@
                &&& p.len() <= old(data)@.len() ==> r == Ok::<usize, RecvError>(p.len() as usize)
                    && final(data)@ == p + old(data)@.skip(p.len() as int)
            },
            PacketBuffer::front_dropped(old(self).rx(), final(self).rx(), false),
            final(self).rx().entries() == old(self).rx().entries().skip(old(self).rx().front_skip() as int),
            final(self).tx() == old(self).tx(),
            final(self).version_view() == old(self).version_view(),
            final(self).protocol_view() == old(self).protocol_view(),
    {
        let buffer = match self.peek() {
            Ok(b) => b,
            Err(e) => {
                return Err(e);
            },
        };
        if data.len() < buffer.len() {
            return Err(RecvError::Truncated);
        }
        let length = buffer.len();
        let ghost d0 = data@;
        let (head, _tail) = data.split_at_mut(length);
        copy_slice(head, buffer);
        proof {
            assert(final(_tail)@ == d0.skip(length as int));
        }
        Ok(length)
    }

    /// Return the amount of octets queued in the transmit buffer.
    pub fn send_queue(&self) -> (r: usize)
        requires
            self.wf(),
        ensures
            r == crate::storage::packet_buffer::total_size(self.tx().metadata()@),
    {
        self.tx_buffer.payload_bytes_count()
    }

    /// Return the amount of octets queued in the receive buffer.
    pub fn recv_queue(&self) -> (r: usize)
        requires
            self.wf(),
        ensures
            r == crate::storage::packet_buffer::total_size(self.rx().metadata()@),
    {
        self.rx_buffer.payload_bytes_count()
    }

    /// Whether the socket takes in a packet with the header `ip_repr`.
    pub fn accepts(&self, ip_repr: &IpRepr) -> (r: bool)
        ensures
            r == self.accepts_spec(*ip_repr),
    {
        if let Some(version) = self.ip_version {
            if version != ip_repr.version() {
                return false;
            }
        }
        if let Some(next_header) = self.ip_protocol {
            if next_header != ip_repr.next_header() {
                return false;
            }
        }
        true
    }

    /// Take in a packet with the header `ip_repr` and the payload `payload`: queue the
    /// header, emitted anew, and the payload in the receive buffer, or drop them when it
    /// has no room.
    pub fn process(&mut self, ip_repr: &IpRepr, payload: &[u8])
        requires
            old(self).wf(),
            old(self).accepts_spec(*ip_repr),
            ip_repr.emit_ok(),
            ip_repr.header_len_spec() + payload@.len() <= usize::MAX,
        ensures
            final(self).wf(),
            ({
                let total = ip_repr.header_len_spec() + payload@.len();
                if old(self).rx().can_enqueue(total) {
                    final(self).rx()@ == old(self).rx()@.push(((), ip_repr.header_bytes() + payload@))
                } else {
                    final(self).rx()@ == old(self).rx()@
                }
            }),
            PacketBuffer::enqueue_result(
                old(self).rx(),
                final(self).rx(),
                ip_repr.header_len_spec() + payload@.len(),
                (),
                old(self).rx().can_enqueue(ip_repr.header_len_spec() + payload@.len()),
            ),
            final(self).tx() == old(self).tx(),
            final(self).version_view() == old(self).version_view(),
            final(self).protocol_view() == old(self).protocol_view(),
    {
        let header_len = ip_repr.header_len();
        let total_len = header_len + payload.len();
        match self.rx_buffer.enqueue(total_len, ()) {
            Ok(buf) => {
                let (head, rest) = buf.split_at_mut(header_len);
                ip_repr.emit(head);
                copy_slice(rest, payload);
                proof {
                    ip_repr.lemma_header_bytes_len();
                    assert(final(head)@ =~= ip_repr.header_bytes());
                }
            },
            Err(_) => {
                // buffer full, dropped incoming packet
            },
        }
    }

    /// Take the oldest packet queued for sending and, if it goes out (see
    /// [`sendable`]), hand its header and payload to `emit`. The packet leaves the
    /// queue unless `emit` fails, whose error is passed on; a packet that does not go
    /// out is dropped.
    pub fn dispatch<F, E>(&mut self, emit: F) -> (r: Result<(), E>)
        where
            F: FnOnce((IpRepr, &[u8])) -> Result<(), E>,
        requires
            old(self).wf(),
            forall|a: (IpRepr, &[u8])| call_requires(emit, (a,)),
        ensures
            final(self).wf(),
            old(self).tx()@.len() == 0 ==> r is Ok && final(self).tx()@ == old(self).tx()@,
            old(self).tx()@.len() > 0 && !sendable(old(self).protocol_view(), old(self).tx()@[0].1) ==> r is Ok
                && final(self).tx()@ == old(self).tx()@.skip(1),
            old(self).tx()@.len() > 0 && sendable(old(self).protocol_view(), old(self).tx()@[0].1) ==> exists|
                repr: IpRepr,
                p: &[u8],
            |
                {
                    let pkt = old(self).tx()@[0].1;
                    &&& goes_out_as(old(self).protocol_view(), pkt, repr, p@)
                    &&& #[trigger] call_ensures(emit, ((repr, p),), r)
                    &&& r is Ok ==> final(self).tx()@ == old(self).tx()@.skip(1)
                    &&& r is Err ==> final(self).tx()@ == old(self).tx()@.update(
                        0,
                        ((), kept_after_failure(old(self).protocol_view(), pkt)),
                    )
                },
            PacketBuffer::front_dropped(old(self).tx(), final(self).tx(), r is Ok && old(self).tx()@.len() > 0),
            final(self).tx().metadata().cap() == old(self).tx().metadata().cap(),
            final(self).tx().payload().cap() == old(self).tx().payload().cap(),
            final(self).rx() == old(self).rx(),
            final(self).version_view() == old(self).version_view(),
            final(self).protocol_view() == old(self).protocol_view(),
    {
        let ip_protocol = self.ip_protocol;
        let ghost tx0 = self.tx_buffer@;
        let mut is_ipv4 = false;
        let res = match self.tx_buffer.peek() {
            Err(Empty) => {
                return Ok(());
            },
            Ok((_, buffer)) => match outgoing(ip_protocol, buffer) {
                None => Ok(()),
                Some((repr, payload)) => {
                    is_ipv4 = matches!(repr, IpRepr::Ipv4(_));
                    let p = payload.as_slice();
                    let res = emit((repr, p));
                    proof {
                        assert(call_ensures(emit, ((repr, p),), res));
                    }
                    res
                },
            },
        };
        let ghost b1 = self.tx_buffer;
        if res.is_ok() {
            let taken = self.tx_buffer.dequeue().is_ok();
            proof {
                if taken {
                    crate::storage::packet_buffer::lemma_front_dropped_then_taken(old(self).tx(), b1, self.tx_buffer);
                }
            }
        } else if is_ipv4 {
            // The packet stays queued with its header checksum filled in.
            let _ = self.tx_buffer.dequeue_with(keep_with_checksum);
            proof {
                crate::storage::packet_buffer::lemma_front_dropped_nothing(b1, self.tx_buffer);
            }
        }
        res
    }

    /// Return when the socket should be polled next: at once while packets wait to be
    /// sent, otherwise only on an incoming packet.
    pub fn poll_at(&self) -> (r: PollAt)
        ensures
            r == if self.tx().metadata()@.len() == 0 {
                PollAt::Ingress
            } else {
                PollAt::Now
            },
    {
        if self.tx_buffer.is_empty() {
            PollAt::Ingress
        } else {
            PollAt::Now
        }
    }
}

/// The version of a header is the one of its variant.
pub proof fn law_repr_version(r4: Ipv4Repr, r6: Ipv6Repr)
    ensures
        IpRepr::Ipv4(r4).version_spec() == IpVersion::Ipv4,
        IpRepr::Ipv6(r6).version_spec() == IpVersion::Ipv6,
        IpRepr::Ipv4(r4).next_header_spec() == r4.next_header,
        IpRepr::Ipv6(r6).next_header_spec() == r6.next_header,
{
}

/// A socket bound to an IP version takes in no header of another version, and one bound
/// to a protocol no header of another protocol; a header of the bound version and
/// protocol, where bound, is taken in.
pub proof fn law_accepts_binding(s: Socket, repr: IpRepr)
    ensures
        s.version_view() is Some && s.version_view()->Some_0 != repr.version_spec() ==> !s.accepts_spec(repr),
        s.protocol_view() is Some && s.protocol_view()->Some_0 != repr.next_header_spec() ==> !s.accepts_spec(repr),
        (s.version_view() is None || s.version_view() == Some(repr.version_spec())) && (s.protocol_view() is None
            || s.protocol_view() == Some(repr.next_header_spec())) ==> s.accepts_spec(repr),
{
}

/// The facts about an IPv4 packet's fixed fields that its accessors read.
proof fn lemma_ipv4_fields(pkt: Seq<u8>)
    requires
        pkt.len() >= ipv4::HEADER_LEN,
    ensures
        ipv4::header_len_of(pkt) == (pkt[0] % 16) * 4,
        ipv4::total_len_of(pkt) == pkt[2] * 256 + pkt[3],
        (pkt[0] >> 4u8 == 4) <==> pkt[0] / 16 == 4,
{
    let x = pkt[0];
    assert(((x & 0x0fu8) * 4) as u8 == (x % 16) * 4) by (bit_vector);
    assert((x >> 4u8 == 4) <==> x / 16 == 4) by (bit_vector);
    let h = pkt[2];
    let l = pkt[3];
    assert((h * 256 + l) as u16 == h * 256 + l) by (nonlinear_arith);
}

/// Filling in the checksum changes only the checksum field.
proof fn lemma_with_checksum_keeps(pkt: Seq<u8>)
    requires
        pkt.len() >= ipv4::HEADER_LEN,
    ensures
        ipv4::with_checksum(pkt).len() == pkt.len(),
        forall|i: int| 0 <= i < pkt.len() && i != 10 && i != 11 ==> #[trigger] ipv4::with_checksum(pkt)[i] == pkt[i],
{
}

/// A queued IPv4 packet whose header reaches past the checksum field goes out exactly
/// when it holds a whole header and the payload its total length announces, of the bound
/// protocol if any: whatever its other fields (type of service, identification, flags,
/// time to live, checksum) hold.
pub proof fn law_ipv4_goes_out(ip_protocol: Option<IpProtocol>, pkt: Seq<u8>)
    requires
        pkt.len() > 0,
        pkt[0] / 16 == 4,
        pkt[0] % 16 >= 3,
    ensures
        sendable(ip_protocol, pkt) <==> {
            &&& pkt.len() >= 20
            &&& pkt.len() >= (pkt[0] % 16) * 4
            &&& (pkt[0] % 16) * 4 <= pkt[2] * 256 + pkt[3]
            &&& pkt.len() >= pkt[2] * 256 + pkt[3]
            &&& ip_protocol matches Some(p) ==> p == IpProtocol::from_raw(pkt[9])
        },
{
    let x = pkt[0];
    assert(x >> 4u8 == x / 16) by (bit_vector);
    assert(!sendable_v6(ip_protocol, pkt));
    if pkt.len() >= 20 {
        lemma_ipv4_fields(pkt);
        lemma_with_checksum_keeps(pkt);
        let q = ipv4::with_checksum(pkt);
        lemma_ipv4_fields(q);
        if ipv4::len_ok(pkt) {
            ipv4::law_filled_checksum_verifies(pkt);
        }
    }
}

/// An IPv4 packet whose header reaches past the checksum field goes out with the header
/// and payload it holds: its addresses, protocol, time to live, the payload length that
/// its total and header lengths give, and the bytes between them.
pub proof fn law_ipv4_goes_out_as(ip_protocol: Option<IpProtocol>, pkt: Seq<u8>, r: Ipv4Repr, p: Seq<u8>)
    requires
        goes_out_as(ip_protocol, pkt, IpRepr::Ipv4(r), p),
        pkt[0] % 16 >= 3,
    ensures
        r.src_addr.octets_view() == pkt.subrange(12, 16),
        r.dst_addr.octets_view() == pkt.subrange(16, 20),
        r.next_header == IpProtocol::from_raw(pkt[9]),
        r.hop_limit == pkt[8],
        r.payload_len == pkt[2] * 256 + pkt[3] - (pkt[0] % 16) * 4,
        p == pkt.subrange((pkt[0] % 16) * 4, pkt[2] * 256 + pkt[3]),
{
    lemma_ipv4_fields(pkt);
    lemma_with_checksum_keeps(pkt);
    let q = ipv4::with_checksum(pkt);
    lemma_ipv4_fields(q);
    assert(q.subrange(12, 16) =~= pkt.subrange(12, 16));
    assert(q.subrange(16, 20) =~= pkt.subrange(16, 20));
    assert(q.subrange((pkt[0] % 16) * 4, pkt[2] * 256 + pkt[3]) =~= pkt.subrange((pkt[0] % 16) * 4, pkt[2] * 256 + pkt[3]));
}

} // verus!
