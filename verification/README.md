# dds

DDS transport: RTPS over UDP. `DATA` submessages carry a sample whole, and
`DATA_FRAG` submessages carry it in fragments reassembled by sequence number.

The library under `src/` holds the protocol, verified with Verus: the wire
format (`rtps`), what a writer sends for a sample (`transport`), what a reader
makes of each datagram (`reader`), and that what is written is read
(`delivery`). It opens no socket. The crate under `app/` does: it sends and
receives the datagrams, on `udp`, behind the traits of `transport`.
