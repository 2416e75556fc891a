//! The frame and message formats, as functions on bytes.

pub mod big_endian;
pub mod frame;
pub mod message;
