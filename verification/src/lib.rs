//! An XMODEM/CRC file-transfer protocol engine: a fixed 133-byte wire frame
//! with CRC-16 validation, a sender and a receiver state machine driven over a
//! byte-oriented serial transport, and explicit retry, cancel and error
//! semantics.

pub mod checksum;
pub mod device;
pub mod model;
pub mod protocol;

pub use checksum::checksum;
pub use device::ScriptedTransport;
pub use device::SerialDevice;
pub use model::ACK;
pub use model::CANCEL;
pub use model::CHECKSUM_REQUEST;
pub use model::END_OF_TRANSMISSION;
pub use model::END_OF_TRANSMISSION_BLOCK;
pub use model::Error;
pub use model::NAK;
pub use model::START_OF_HEADER;
pub use protocol::BlockCollector;
pub use protocol::BlockConsumer;
pub use protocol::Packet;
pub use protocol::ProgressLog;
pub use protocol::ProgressObserver;
pub use protocol::Receiver;
pub use protocol::Sender;
pub use protocol::SilentProgress;
