//! A verified core of an event-driven TCP/IP stack for bare-metal systems: ring and
//! packet buffers, the wire formats of Ethernet II, ARP, IPv4 and IPv6, IP fragment
//! reassembly and raw IP sockets.

pub mod config;
pub mod iface;
pub mod socket;
pub mod storage;
pub mod time;
pub mod wire;
