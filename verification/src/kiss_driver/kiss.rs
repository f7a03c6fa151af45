//! Byte values of the host framing protocol.

use vstd::prelude::*;

verus! {

/// Frame delimiter.
pub const FEND: u8 = 0xC0;

/// Escape byte.
pub const FESC: u8 = 0xDB;

/// Stands for a delimiter after an escape byte.
pub const TFEND: u8 = 0xDC;

/// Stands for an escape byte after an escape byte.
pub const TFESC: u8 = 0xDD;

/// A preamble was detected.
pub const CMD_DETECT: u8 = 0x08;

/// The payload of a received or outgoing frame.
pub const CMD_DATA: u8 = 0x00;

/// Signal-to-noise ratio of the last frame.
pub const CMD_SNR: u8 = 0x24;

/// Signal strength of the last frame.
pub const CMD_RSSI: u8 = 0x23;

/// Status byte that closes a receive or transmit cycle.
pub const CMD_READY: u8 = 0x0F;

} // verus!
