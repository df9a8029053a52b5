//! Binary encoding layer of a small database engine: order-preserving tuple
//! and key encoding for storage, and the framing of the client/server wire
//! protocol.
pub mod bytes;
pub mod types;
pub mod tuple;
pub mod laws;
pub mod proto;
