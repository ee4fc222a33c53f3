//! A byte-oriented framing protocol for delimiting and validating discrete
//! packets on an unreliable byte stream.
//!
//! The crate has two parts: a frame codec (`codec`) that serializes a command
//! plus payload bytes into a self-delimiting, CRC-protected frame, and a
//! streaming parser (`parser`) that consumes a byte stream one byte at a time,
//! reconstructs frames, and resynchronizes after corruption. The running
//! CRC-16 (`crc`) is shared by both: a frame whose own CRC bytes have been
//! folded back through the accumulator runs to exactly zero when intact.

pub mod codec;
pub mod crc;
pub mod parser;

pub use codec::ControlByte;
pub use codec::ShprotoError;
pub use codec::ShprotoPacket;
pub use parser::ShprotoParser;
pub use parser::ShprotoParserState;
