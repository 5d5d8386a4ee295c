//! Host side of the serial protocol spoken by motion-control firmware:
//! the variable-length integer codec, the frame checksum, framing, the
//! compiled command/response registry built from the firmware's data
//! dictionary, and the bookkeeping of in-flight exchanges.

pub mod command;
pub mod data;
pub mod frame;
pub mod identify;
pub mod message;
pub mod msgblock;
pub mod queue;
pub mod varint;
