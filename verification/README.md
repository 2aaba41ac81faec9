# dns

Streams that travel as DNS dynamic updates: one RFC 2136 UPDATE is one Stream,
carried in the TXT record it adds.

- `src/` is the library, proved with Verus: the RFC 1035 message codec
  (`label`, `record`, `message`), what a sender and a receiver of updates
  decide (`transport`), the length-prefixed TCP form (`frame`), how much one
  update carries (`loopback`), and in `laws` what holds of these together, such
  as that reading undoes writing and that what is sent arrives.
- `app/` is the sockets and threads around it.
- `tests/` runs the library on given values.

The one fact taken on trust is what `String::from_utf8_lossy` does, in
`src/text.rs`.
