# utp_rs

The sending half and the connection bookkeeping of the uTP transport protocol, verified with Verus.

- `src/utils.rs`: a growable circular buffer, and wrap-around comparison
- `src/seq.rs`, `src/time.rs`, `src/packet.rs`: sequence numbers, instants and packets
- `src/congestion.rs`: delay-based congestion control
- `src/sent.rs`: packets in flight, acknowledgements and loss
- `src/state.rs`, `src/flight.rs`: the models that the contracts of `src/sent.rs` speak of, slot by slot and as one run of packets
- `src/laws.rs`: what holds over several calls
- `src/cid.rs`, `src/socket.rs`: connection identifiers, and the decisions of a socket
- `app/`: UDP, channels and tasks around those decisions
