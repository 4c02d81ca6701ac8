# evergreen

A passive decoder for the traffic of a game client: it strips captured UDP
datagrams down to their payload, reassembles the reliable-UDP transport,
finds the keys the packets are encrypted with and parses the decrypted frames.

## Layout

- `src/` — the verified library.
  - `mtkey.rs`: the 64-bit twister generator, key streams derived from a seed,
    and the repeating-key cipher.
  - `random_cs.rs`: the subtractive generator that the client seeds from the
    clock, its scaling to 64-bit values, and the one-shot key search.
  - `key_bruteforce.rs`: the key search that remembers the time stamps that
    worked, and the text the remembered stamps are saved as.
  - `client_server_pair.rs`: frames and packets, the per-connection key state
    machine, and the transport and RSA steps it relies on.
  - `udp_data_processor.rs`, `evergreen.rs`, `sniffer.rs`: header stripping,
    control datagrams, and the per-datagram steps of the two capture loops.
  - `iridium.rs`: the notification text that hands a decoded packet to the
    viewer.
  - `toolkit_app.rs`: the state the desktop viewer keeps.
- `app/` — the programs: device selection, capture loops, threads and
  channels, the websocket broadcaster and forwarder, and file handling.
- `tests/` — concrete scenarios for the library.

## What is missing

The command-id table and the protobuf message types are generated from
`CmdIds.csv` and `.proto` files that are not part of this tree, and the
built-in dispatch-key table and `private.pem` are not either. So:

- `ClientServerPair::record_token_rsp`, which takes the send time and the
  encrypted server seed of the token response, is not called by the programs:
  recognising and parsing that message needs the generated code. Without it
  the session-key search has no send time to start from.
- The viewer backend cannot decode messages to JSON; only the notification
  envelope (`iridium::packet_notify`) is here.
- Dispatch keys are read from `dispatch_keys.bin` and the RSA key from
  `private.pem` at start-up.
- The transport crate used (`kcp` 0.5) takes no conversation token, so the
  token of the connect datagram goes unused.
