//! Network interface logic.
//!
//! The `iface` module deals with the *network interfaces*: here, the reassembly of
//! packets that arrive in fragments and the state of packets sent in fragments.

pub mod fragmentation;

pub use self::fragmentation::{
    AssemblerError, AssemblerFullError, Fragmenter, Ipv4Fragmenter, PacketAssembler, PacketAssemblerSet,
    SixlowpanFragmenter,
};
