//! A broadcast chat service over a Redis-style framing format: the frame
//! codec, the buffered frame reader, and the state of the event loop.

pub mod connection;
pub mod cursor;
pub mod decimal;
pub mod error;
pub mod frame;
pub mod codec_laws;
pub mod rw;
pub mod server;
pub mod server_laws;
