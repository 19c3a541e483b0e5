# quarta

Encoding and decoding of QUIC frames, verified with Verus.

- `src/data.rs`: `Data`, a byte buffer with a read cursor, and the primitive
  codecs on it (bytes, big-endian integers, QUIC variable-length integers,
  length-prefixed byte strings, hex input), each specified over the buffer's
  bytes and cursor position.
- `src/frame.rs`: the `Frame` type, its mathematical view `FrameView`, the
  encoding (`Frame::marshal`, `Frame::get_type`) and decoding (`decode_frame`)
  with contracts stated over the specification encoder `spec_frame_bytes` and
  decoder `spec_decode_frame`.
- `src/roundtrip.rs`: the laws: decoding gives back what encoding wrote,
  type bits read back, decoding advances within the buffer.
- `tests/`: the frame scenarios and further checks on concrete values.
