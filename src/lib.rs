//! Process-execution service core: the wire codec for spawn requests and
//! responses, and the per-connection multiplexer that tracks running children.
pub mod codec;
pub mod laws;
pub mod mux;
