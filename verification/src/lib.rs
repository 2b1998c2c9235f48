//! An in-memory key-value store speaking the Redis Serialization Protocol.
//!
//! The crate has three parts. `object` holds the tagged value type that is
//! both the wire representation and the store's value type, together with its
//! mathematical model. `resp` is the codec: a streaming decoder that reads one
//! object at a time from a pull source of bytes, and an encoder that writes
//! the canonical wire form of any object into a byte buffer. `engine` owns the
//! key-value store and evaluates one command at a time, producing one reply
//! object; its whole behaviour is stated as a specification-level step
//! function over the store's model.

pub mod engine;
pub mod object;
pub mod resp;
