use smoltcp::config::REASSEMBLY_BUFFER_COUNT;
use smoltcp::iface::{Fragmenter, PacketAssembler, PacketAssemblerSet};
use smoltcp::wire::{Ieee802154Address, IpProtocol, Ipv4Address};
use smoltcp::time::Instant;

#[derive(PartialEq, Eq, PartialOrd, Ord, Clone, Copy, Debug)]
struct Key {
    id: usize,
}

#[test]
fn packet_assembler_overlap() {
    let mut p_assembler = PacketAssembler::<Key>::new();

    p_assembler.set_total_size(5).unwrap();

    let data = b"Rust";
    let _ = p_assembler.add(&data[..], 0);
    let _ = p_assembler.add(&data[..], 1);

    assert_eq!(p_assembler.assemble(), Some(&b"RRust"[..]))
}

#[test]
fn packet_assembler_assemble() {
    let mut p_assembler = PacketAssembler::<Key>::new();

    let data = b"Hello World!";

    p_assembler.set_total_size(data.len()).unwrap();

    p_assembler.add(b"Hello ", 0).unwrap();
    assert_eq!(p_assembler.assemble(), None);

    p_assembler.add(b"World!", b"Hello ".len()).unwrap();

    assert_eq!(p_assembler.assemble(), Some(&b"Hello World!"[..]));
}

#[test]
fn packet_assembler_out_of_order_assemble() {
    let mut p_assembler = PacketAssembler::<Key>::new();

    let data = b"Hello World!";

    p_assembler.set_total_size(data.len()).unwrap();

    p_assembler.add(b"World!", b"Hello ".len()).unwrap();
    assert_eq!(p_assembler.assemble(), None);

    p_assembler.add(b"Hello ", 0).unwrap();

    assert_eq!(p_assembler.assemble(), Some(&b"Hello World!"[..]));
}

#[test]
fn packet_assembler_set() {
    let key = Key { id: 1 };

    let mut set = PacketAssemblerSet::new();

    assert!(set.get(&key, Instant::zero()).is_ok());
}

#[test]
fn packet_assembler_set_full() {
    let mut set = PacketAssemblerSet::new();
    for i in 0..REASSEMBLY_BUFFER_COUNT {
        set.get(&Key { id: i }, Instant::zero()).unwrap();
    }
    assert!(set.get(&Key { id: 4 }, Instant::zero()).is_err());
}

#[test]
fn packet_assembler_set_assembling_many() {
    let mut set = PacketAssemblerSet::new();

    let key = Key { id: 0 };
    let assr = set.get(&key, Instant::zero()).unwrap();
    assert_eq!(assr.assemble(), None);
    assr.set_total_size(0).unwrap();
    assr.assemble().unwrap();

    // Test that `.assemble()` effectively deletes it.
    let assr = set.get(&key, Instant::zero()).unwrap();
    assert_eq!(assr.assemble(), None);
    assr.set_total_size(0).unwrap();
    assr.assemble().unwrap();

    let key = Key { id: 1 };
    let assr = set.get(&key, Instant::zero()).unwrap();
    assr.set_total_size(0).unwrap();
    assr.assemble().unwrap();

    let key = Key { id: 2 };
    let assr = set.get(&key, Instant::zero()).unwrap();
    assr.set_total_size(0).unwrap();
    assr.assemble().unwrap();

    let key = Key { id: 2 };
    let assr = set.get(&key, Instant::zero()).unwrap();
    assr.set_total_size(2).unwrap();
    assr.add(&[0x00], 0).unwrap();
    assert_eq!(assr.assemble(), None);
    let assr = set.get(&key, Instant::zero()).unwrap();
    assr.add(&[0x01], 1).unwrap();
    assert_eq!(assr.assemble(), Some(&[0x00, 0x01][..]));
}

#[test]
fn set_total_size_refuses_a_different_size() {
    let mut p_assembler = PacketAssembler::<Key>::new();
    assert!(p_assembler.set_total_size(4).is_ok());
    assert!(p_assembler.set_total_size(4).is_ok());
    assert!(p_assembler.set_total_size(5).is_err());
}

#[test]
fn assembler_with_more_than_the_total_is_not_complete() {
    let mut p_assembler = PacketAssembler::<Key>::new();
    p_assembler.set_total_size(2).unwrap();
    p_assembler.add(b"abc", 0).unwrap();
    assert!(!p_assembler.is_complete());
    assert_eq!(p_assembler.assemble(), None);
}

#[test]
fn add_with_records_what_the_closure_wrote() {
    let mut p_assembler = PacketAssembler::<Key>::new();
    p_assembler.set_total_size(3).unwrap();
    assert!(p_assembler
        .add_with(0, |buf| {
            buf[..3].copy_from_slice(b"xyz");
            Ok(3)
        })
        .is_ok());
    assert!(p_assembler.add_with(4, |_| Ok(0)).is_err());
    assert_eq!(p_assembler.assemble(), Some(&b"xyz"[..]));
}

#[test]
fn get_twice_gives_the_same_assembler_and_expiry_frees_it() {
    let mut set = PacketAssemblerSet::new();
    let key = Key { id: 7 };
    set.get(&key, Instant::from_millis(10)).unwrap().set_total_size(3).unwrap();
    // The same key finds the assembler holding the total size.
    assert!(set.get(&key, Instant::from_millis(99)).unwrap().set_total_size(4).is_err());
    assert_eq!(set.get(&key, Instant::zero()).unwrap().expires_at(), Instant::from_millis(10));
    set.remove_expired(Instant::from_millis(11));
    // Freed: the key gets a fresh assembler.
    assert!(set.get(&key, Instant::zero()).unwrap().set_total_size(4).is_ok());
}

#[test]
fn a_new_key_gets_an_empty_assembler() {
    let mut set = PacketAssemblerSet::new();
    for i in 0..REASSEMBLY_BUFFER_COUNT {
        let assr = set.get(&Key { id: i }, Instant::zero()).unwrap();
        assert_eq!(assr.assemble(), None);
        assert!(assr.set_total_size(i + 1).is_ok());
        assr.add(&[0xaa], 0).unwrap();
    }
    // Every slot holds a different key.
    for i in 0..REASSEMBLY_BUFFER_COUNT {
        let assr = set.get(&Key { id: i }, Instant::zero()).unwrap();
        assert!(assr.set_total_size(i + 1).is_ok());
        assert!(assr.set_total_size(i + 2).is_err());
    }
    set.remove_expired(Instant::from_millis(1));
    // Expired slots come back free and empty.
    let assr = set.get(&Key { id: 100 }, Instant::zero()).unwrap();
    assert_eq!(assr.assemble(), None);
    assert!(assr.set_total_size(100).is_ok());
}

#[test]
fn fragmenter_starts_blank_and_reset_keeps_offsets() {
    let mut f = Fragmenter::new();
    assert!(f.is_empty() && f.finished());
    assert_eq!(f.ipv4.repr.src_addr, Ipv4Address::new(0, 0, 0, 0));
    assert_eq!(f.ipv4.repr.next_header, IpProtocol::Unknown(0));
    assert_eq!(f.ipv4.dst_hardware_addr.0, [0; 6]);
    assert_eq!(f.sixlowpan.ll_dst_addr, Ieee802154Address::Absent);
    f.packet_len = 10;
    f.sent_bytes = 4;
    f.ipv4.frag_offset = 8;
    f.ipv4.ident = 3;
    f.ipv4.repr.hop_limit = 64;
    f.sixlowpan.datagram_offset = 5;
    f.sixlowpan.datagram_tag = 9;
    f.sixlowpan.ll_src_addr = Ieee802154Address::Short([1, 2]);
    f.reset();
    assert!(f.is_empty() && f.finished());
    assert_eq!(f.ipv4.frag_offset, 8);
    assert_eq!(f.ipv4.ident, 3);
    assert_eq!(f.ipv4.repr.hop_limit, 0);
    assert_eq!(f.sixlowpan.datagram_offset, 5);
    assert_eq!(f.sixlowpan.datagram_tag, 0);
    assert_eq!(f.sixlowpan.ll_src_addr, Ieee802154Address::Absent);
}
