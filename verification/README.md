# moshcatty

The wire messages of the mosh protocol (transport, host and user
instructions) as hand-rolled protobuf codecs, verified with Verus, and the
decisions of the `mosh-client` command.

- `src/varint.rs`, `src/wire.rs`: varints, field keys, length-delimited
  payloads, skipping unknown fields, and reading a message field by field.
- `src/pb.rs`: the three instruction types, their models, their exact wire
  forms (`*_encoding`) and what decoding a buffer gives (`*_decoding`).
- `src/roundtrip.rs`: decoding an encoding gives the value back.
- `src/cli.rs`: argument handling, window sizes, what to do with input.
- `app/main.rs`: the `mosh-client` program: terminal, threads, signals, and
  the session itself.
