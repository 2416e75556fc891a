# transport_io

Message framing over WebTransport bidirectional streams, in the manner of
WebSocket frames, with its byte formats, message assembly and handler
bookkeeping proved correct.

## Frame layout

A frame is a string of bits, most significant bit first: the FIN bit, the
3-bit opcode, the 7-bit payload length code; when the code is 126 or 127,
the payload length in the next 16 or 64 bits, big-endian (otherwise the code
is the length); then the payload's bytes. Five zero bits close the frame, so
that it is a whole number of bytes:

```
byte 0:   F O O O L L L L    F = FIN, O = opcode, L = length code (high 4 bits)
byte 1:   L L L x x x x x    low 3 bits of the code, then the high 5 bits of
                             the first extended-length or payload byte
byte i:   y y y x x x x x    low 3 bits of the byte before, high 5 of the next
last:     y y y 0 0 0 0 0    low 3 bits of the last byte, then the closing zeros
```

Opcodes: 0 continuation, 1 text, 2 binary, 3 and 4 reserved (non-control),
5 discard message, 6 reserved (control), 7 reserved. The length is always
written in the fewest bits; the reader refuses other encodings and non-zero
closing bits.

A message is a text or binary frame followed by continuation frames, the last
one final. Writers send binary messages in chunks of at most 1024 bytes (an
empty message is one final empty frame); readers refuse messages over 65535
bytes, continuation frames with no message begun, a new message before the
current one is complete, and reserved opcodes, and drop the message being
received on a discard-message frame.

## Layout

- `src/framing/big_endian.rs`: fixed-width big-endian integers.
- `src/framing/frame.rs`: opcodes, the frame format, its writer and parser,
  and the proofs that they invert each other.
- `src/framing/message.rs`: splitting a message into frames, assembling
  frames into messages, and the proofs that reading a written message gives
  it back.
- `src/eventful.rs`, `src/smth.rs`: sessions whose uni- and bidirectional
  streams each go to at most one handler.
- `src/transport.rs`: the wtransport types that the library carries.
- `app/`: the async stream traits, their implementations on wtransport
  streams, and the servers; all I/O lives there.
