# jap

Jeremy's Awesome Protocol: a file transfer over UDP with a sliding window,
cumulative acks and a receiver that puts packets back in order.

The library (`src/`) is verified with Verus:

- `wire`, `order`: the postcard primitives the packet format is built from
  (varints, length-prefixed bytes, sequences of `u32`), and the sorted
  listing of a set of sequence numbers.
- `codec`: the bytes of a packet, reading one back, reading a whole buffer
  of packets and ordering them by sequence number; reading back what was
  written gives the packets written.
- `value`, `packet`: packet values, acks and their laws, fragmentation of
  file data into packets that fit the MTU.
- `receiver`: reordering of packets that arrive ahead of the cumulative ack.
- `sender`, `orchestrator`: the sender's window, ack bookkeeping and
  timeouts.

`app/` holds the two programs (`jap send <host> <port>`, `jap recv`): sockets,
standard input and output, clocks and the floating-point round-trip estimate.
