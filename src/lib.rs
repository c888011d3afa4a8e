//! A request/response channel between two processes over a pair of byte
//! pipes: VLQ-prefixed frames, the reads and writes beneath them, and the
//! client call and server loop above them.

pub mod channel;
pub mod error;
pub mod io;
pub mod ipc;
pub mod packet;
pub mod pipe;
pub mod vlq;
pub mod world;
