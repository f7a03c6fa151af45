//! A software model of a multi-node LoRa link.
//!
//! The crate holds the parts of the link that decide something, each with
//! a contract that Verus proves:
//!
//! - [`kiss_driver`]: the host framing protocol, escaping and commands;
//! - [`decoder`]: the frame decoder with whitening sequence and CRC-16;
//! - [`shmem`]: frames of samples, the packetizer and the depacketizer;
//! - [`channel`]: the epoch barrier and the superposition of the combiner;
//! - [`awgn`]: the work plan of the noise stage;
//! - [`node`]: the sample rate of a node.
//!
//! Samples are of any copyable type: the library moves them and leaves all
//! arithmetic on them to the caller.

pub mod awgn;
pub mod channel;
pub mod decoder;
pub mod kiss_driver;
pub mod node;
pub mod shmem;
