//! Reading and writing DNS messages in a fixed 512-byte packet buffer.
pub mod bytepacketbuffer;
pub mod text;
pub mod dns;
pub mod wire;
pub mod laws;
