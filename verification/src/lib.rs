//! QUIC frame encoding and decoding over a byte buffer with a read cursor.
pub mod data;

pub mod frame;
pub mod roundtrip;
