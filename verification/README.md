# smoltcp (verified core)

A Verus-verified core of an event-driven TCP/IP stack for bare-metal systems.

- `src/storage`: a ring buffer of elements, a ring buffer of variable-size packets
  with headers, and a tracker of the byte ranges received so far. Each buffer is
  modelled by the sequence of what it holds; every operation states how it changes it.
- `src/wire`: Ethernet II frames, ARP packets, IPv4 packets with their header
  checksum, IPv6 addresses, CIDR blocks and packets, and IEEE 802.15.4 addresses.
  Field accessors are stated over the packet bytes. For Ethernet and ARP, `parse` and
  `emit` are proved to invert each other; for IPv4 and IPv6, parsing what `emit` wrote
  gives the header back (for IPv4, the checksum it fills in is proved to verify).
  Big-endian fields go through `byteorder`.
- `src/iface`: reassembly of fragmented packets, and the state of packets sent in
  fragments.
- `src/socket`: raw IP sockets, for IPv4 and IPv6.
- `app/`: the text forms of the values (`Display`), and buffers built from `managed`
  storage.
