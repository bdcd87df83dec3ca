//! A codec for the Redis serialization protocol: commands are framed as
//! arrays of bulk strings, and reply frames are decoded into typed values.

pub mod buffer;
pub mod command;
pub mod reply;
pub mod round_trip;
