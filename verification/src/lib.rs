//! Message framing for WebTransport bidirectional streams, in the manner of
//! WebSocket frames: a one-byte header (FIN bit and 7-bit length code), an
//! optional 16- or 64-bit big-endian extended length, then the payload.

pub mod framing;
pub mod transport;
pub mod eventful;
pub mod smth;
