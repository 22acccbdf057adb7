use smoltcp::storage::{Empty, Full, PacketBuffer, PacketMetadata};

fn buffer() -> PacketBuffer<()> {
    PacketBuffer::new(vec![PacketMetadata::empty(); 4], vec![0u8; 16])
}

#[test]
fn test_simple() {
    let mut buffer = buffer();
    buffer.enqueue(6, ()).unwrap().copy_from_slice(b"abcdef");
    assert_eq!(buffer.enqueue(16, ()), Err(Full));
    assert_eq!(buffer.metadata_len(), 1);
    assert_eq!(buffer.dequeue().unwrap().1, &b"abcdef"[..]);
    assert_eq!(buffer.dequeue(), Err(Empty));
}

#[test]
fn test_peek() {
    let mut buffer = buffer();
    assert_eq!(buffer.peek(), Err(Empty));
    buffer.enqueue(6, ()).unwrap().copy_from_slice(b"abcdef");
    assert_eq!(buffer.metadata_len(), 1);
    assert_eq!(buffer.peek().unwrap().1, &b"abcdef"[..]);
    assert_eq!(buffer.dequeue().unwrap().1, &b"abcdef"[..]);
    assert_eq!(buffer.peek(), Err(Empty));
}

#[test]
fn test_padding() {
    let mut buffer = buffer();
    assert!(buffer.enqueue(6, ()).is_ok());
    assert!(buffer.enqueue(8, ()).is_ok());
    assert!(buffer.dequeue().is_ok());
    buffer.enqueue(4, ()).unwrap().copy_from_slice(b"abcd");
    assert_eq!(buffer.metadata_len(), 3);
    assert!(buffer.dequeue().is_ok());

    assert_eq!(buffer.dequeue().unwrap().1, &b"abcd"[..]);
    assert_eq!(buffer.metadata_len(), 0);
}

#[test]
fn test_padding_with_large_payload() {
    let mut buffer = buffer();
    assert!(buffer.enqueue(12, ()).is_ok());
    assert!(buffer.dequeue().is_ok());
    buffer
        .enqueue(12, ())
        .unwrap()
        .copy_from_slice(b"abcdefghijkl");
}

#[test]
fn test_dequeue_with() {
    let mut buffer = buffer();
    assert!(buffer.enqueue(6, ()).is_ok());
    assert!(buffer.enqueue(8, ()).is_ok());
    assert!(buffer.dequeue().is_ok());
    buffer.enqueue(4, ()).unwrap().copy_from_slice(b"abcd");
    assert_eq!(buffer.metadata_len(), 3);
    assert!(buffer.dequeue().is_ok());

    assert!(matches!(
        buffer.dequeue_with(|_, _| Result::<(), u32>::Err(123)),
        Ok(Err(_))
    ));
    assert_eq!(buffer.metadata_len(), 1);

    assert!(buffer
        .dequeue_with(|&mut (), payload| {
            assert_eq!(payload, &b"abcd"[..]);
            Result::<(), ()>::Ok(())
        })
        .is_ok());
    assert_eq!(buffer.metadata_len(), 0);
}

#[test]
fn test_metadata_full_empty() {
    let mut buffer = buffer();
    assert!(buffer.is_empty());
    assert!(!buffer.is_full());
    assert!(buffer.enqueue(1, ()).is_ok());
    assert!(!buffer.is_empty());
    assert!(buffer.enqueue(1, ()).is_ok());
    assert!(buffer.enqueue(1, ()).is_ok());
    assert!(!buffer.is_full());
    assert!(!buffer.is_empty());
    assert!(buffer.enqueue(1, ()).is_ok());
    assert!(buffer.is_full());
    assert!(!buffer.is_empty());
    assert_eq!(buffer.metadata_len(), 4);
    assert_eq!(buffer.enqueue(1, ()), Err(Full));
}

#[test]
fn test_window_too_small() {
    let mut buffer = buffer();
    assert!(buffer.enqueue(4, ()).is_ok());
    assert!(buffer.enqueue(8, ()).is_ok());
    assert!(buffer.dequeue().is_ok());
    assert_eq!(buffer.enqueue(16, ()), Err(Full));
    assert_eq!(buffer.metadata_len(), 1);
}

#[test]
fn test_contiguous_window_too_small() {
    let mut buffer = buffer();
    assert!(buffer.enqueue(4, ()).is_ok());
    assert!(buffer.enqueue(8, ()).is_ok());
    assert!(buffer.dequeue().is_ok());
    assert_eq!(buffer.enqueue(8, ()), Err(Full));
    assert_eq!(buffer.metadata_len(), 1);
}

#[test]
fn test_contiguous_window_wrap() {
    let mut buffer = buffer();
    assert!(buffer.enqueue(15, ()).is_ok());
    assert!(buffer.dequeue().is_ok());
    assert!(buffer.enqueue(16, ()).is_ok());
}

#[test]
fn test_capacity_too_small() {
    let mut buffer = buffer();
    assert_eq!(buffer.enqueue(32, ()), Err(Full));
}

#[test]
fn test_contig_window_prioritized() {
    let mut buffer = buffer();
    assert!(buffer.enqueue(4, ()).is_ok());
    assert!(buffer.dequeue().is_ok());
    assert!(buffer.enqueue(5, ()).is_ok());
}

#[test]
fn clear() {
    let mut buffer = buffer();

    // Ensure enqueuing data in the buffer fills it somewhat.
    assert!(buffer.is_empty());
    assert!(buffer.enqueue(6, ()).is_ok());

    // Ensure that resetting the buffer causes it to be empty.
    assert!(!buffer.is_empty());
    buffer.reset();
    assert!(buffer.is_empty());
}

#[test]
fn packets_come_out_in_order_with_headers() {
    let mut buffer: PacketBuffer<u8> = PacketBuffer::new(vec![PacketMetadata::empty(); 4], vec![0u8; 16]);
    buffer.enqueue(3, 1).unwrap().copy_from_slice(b"one");
    buffer.enqueue(3, 2).unwrap().copy_from_slice(b"two");
    assert_eq!(buffer.payload_bytes_count(), 6);
    let (h, p) = buffer.dequeue().unwrap();
    assert_eq!((h, &p[..]), (1, &b"one"[..]));
    let (h, p) = buffer.peek().unwrap();
    assert_eq!((*h, p), (2, &b"two"[..]));
    let (h, p) = buffer.dequeue().unwrap();
    assert_eq!((h, &p[..]), (2, &b"two"[..]));
    assert_eq!(buffer.dequeue(), Err(Empty));
}

#[test]
fn enqueue_with_infallible_shrinks_to_written() {
    let mut buffer = buffer();
    assert_eq!(
        buffer.enqueue_with_infallible(8, (), |buf| {
            assert_eq!(buf.len(), 8);
            buf[..3].copy_from_slice(b"xyz");
            3
        }),
        Ok(3)
    );
    assert_eq!(buffer.payload_bytes_count(), 3);
    assert_eq!(buffer.dequeue().unwrap().1, &b"xyz"[..]);
    assert_eq!(buffer.enqueue_with_infallible(17, (), |_| 0), Err(Full));
}

#[test]
fn padding_counts_as_payload_bytes() {
    let mut buffer = buffer();
    assert!(buffer.enqueue(10, ()).is_ok());
    assert!(buffer.enqueue(2, ()).is_ok());
    assert!(buffer.dequeue().is_ok());
    // 4 bytes remain before the end of the storage: a padding covers them.
    assert!(buffer.enqueue(8, ()).is_ok());
    assert_eq!(buffer.metadata_len(), 3);
    assert_eq!(buffer.payload_bytes_count(), 14);
    assert_eq!(buffer.packet_capacity(), 4);
    assert_eq!(buffer.payload_capacity(), 16);
}

#[test]
fn enqueue_with_infallible_keeps_the_packets_when_the_padding_takes_the_last_entry() {
    let mut buffer: PacketBuffer<()> =
        PacketBuffer::new(vec![PacketMetadata::empty(); 2], vec![0u8; 16]);
    assert!(buffer.enqueue(10, ()).is_ok());
    buffer.enqueue(2, ()).unwrap().copy_from_slice(b"hi");
    assert!(buffer.dequeue().is_ok());
    assert_eq!(
        buffer.enqueue_with_infallible(8, (), |buf| {
            buf[..3].copy_from_slice(b"abc");
            3
        }),
        Err(Full)
    );
    assert_eq!(buffer.peek().unwrap().1, &b"hi"[..]);
    // The padding and the bytes written stay in the payload ring.
    assert_eq!(buffer.payload_bytes_count(), 2 + 4 + 3);
}

#[test]
fn enqueue_keeps_the_padding_when_it_takes_the_last_entry() {
    let mut buffer: PacketBuffer<()> =
        PacketBuffer::new(vec![PacketMetadata::empty(); 2], vec![0u8; 16]);
    assert!(buffer.enqueue(6, ()).is_ok());
    buffer.enqueue(8, ()).unwrap().copy_from_slice(b"abcdefgh");
    assert!(buffer.dequeue().is_ok());
    assert!(!buffer.is_full());
    // 2 bytes remain before the end of the storage: the padding takes the last entry.
    assert_eq!(buffer.enqueue(4, ()), Err(Full));
    assert_eq!(buffer.metadata_len(), 2);
    assert_eq!(buffer.payload_bytes_count(), 8 + 2);
    assert!(buffer.is_full());
    assert_eq!(buffer.dequeue().unwrap().1, &b"abcdefgh"[..]);
    // The padding left at the front is dropped on the way to an empty answer.
    assert_eq!(buffer.dequeue(), Err(Empty));
    assert!(buffer.is_empty());
    assert_eq!(buffer.payload_bytes_count(), 0);
    assert!(buffer.enqueue(16, ()).is_ok());
}

#[test]
fn enqueue_failing_before_any_padding_changes_nothing() {
    let mut buffer = buffer();
    buffer.enqueue(10, ()).unwrap().copy_from_slice(b"0123456789");
    assert_eq!(buffer.enqueue(7, ()), Err(Full));
    assert_eq!(buffer.metadata_len(), 1);
    assert_eq!(buffer.payload_bytes_count(), 10);
    assert!(!buffer.is_full());
    assert_eq!(buffer.peek().unwrap().1, &b"0123456789"[..]);
}

#[test]
fn enqueue_with_infallible_restarts_an_empty_payload_ring() {
    let mut buffer = buffer();
    assert!(buffer.enqueue(15, ()).is_ok());
    assert!(buffer.dequeue().is_ok());
    assert_eq!(
        buffer.enqueue_with_infallible(16, (), |buf| {
            assert_eq!(buf.len(), 16);
            buf.len()
        }),
        Ok(16)
    );
    assert_eq!(buffer.metadata_len(), 1);
    assert_eq!(buffer.dequeue().unwrap().1.len(), 16);
}
