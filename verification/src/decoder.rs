//! Frame decoder: turns a demodulated nibble sequence back into payload
//! bytes, checks the trailing CRC and frames the result for the host.

use vstd::prelude::*;

pub mod crc;
pub mod message;
pub mod whitening;

use crate::decoder::crc::crc16_of;
use crate::decoder::whitening::{whitening, whitening_byte, WHITENING_LEN};
use crate::kiss_driver::kiss::{CMD_DATA, CMD_READY};
use crate::kiss_driver::{command_frame, create_cmd, RADIOLIB_SX126X_IRQ_CRC_ERR};

verus! {

/// Nibbles that an explicit header takes at the front of a frame.
pub const HEADER_NIBBLES: usize = 5;

/// Nibbles that the CRC takes at the end of a frame.
pub const CRC_NIBBLES: usize = 4;

/// A demodulated frame as the receive chain hands it over. `V` is the type
/// of the annotation values that the chain attached on the way.
#[derive(Debug)]
pub struct Frame<V> {
    /// The symbols of the frame, one nibble in each byte.
    pub nibbles: Vec<u8>,
    /// The frame has no header in front of its payload.
    pub implicit_header: bool,
    /// The payload is followed by a CRC.
    pub has_crc: bool,
    /// The code rate the frame was sent with.
    pub code_rate: usize,
    /// What earlier stages noted about the frame, by key.
    pub annotations: Vec<(String, V)>,
}

/// What decoding one frame produces.
#[derive(Debug)]
pub struct Decoded {
    /// The outcome of the CRC comparison, where one was made.
    pub crc_check: Option<bool>,
    /// The `DATA` command with all recovered bytes, CRC bytes included.
    pub kiss_data: Vec<u8>,
    /// The `READY` command with the status byte.
    pub kiss_ready: Vec<u8>,
    /// The payload without its CRC bytes; `None` when the CRC failed.
    pub payload: Option<Vec<u8>>,
}

/// The byte that a pair of nibbles stands for once the whitening byte `w`
/// is taken off: the low nibble comes first.
pub open spec fn dewhiten_pair(low: u8, high: u8, w: u8) -> u8 {
    ((high ^ ((w & 0xF0) >> 4)) << 4) | (low ^ (w & 0x0F))
}

/// The bytes that `nibbles` stand for, pair by pair, where the pair at
/// position `k` is masked with the whitening byte at `first + k`. A last
/// nibble without a partner is left out.
pub open spec fn dewhitened_from(nibbles: Seq<u8>, first: int) -> Seq<u8> {
    Seq::new(
        (nibbles.len() / 2) as nat,
        |k: int| dewhiten_pair(nibbles[2 * k], nibbles[2 * k + 1], whitening(first + k)),
    )
}

/// The nibbles between the header and the CRC.
pub open spec fn body_of(nibbles: Seq<u8>, implicit_header: bool, has_crc: bool) -> Seq<u8> {
    let start = if implicit_header {
        0
    } else {
        HEADER_NIBBLES as int
    };
    let end = if has_crc {
        nibbles.len() - CRC_NIBBLES
    } else {
        nibbles.len() as int
    };
    if start <= end {
        nibbles.subrange(start, end)
    } else {
        Seq::empty()
    }
}

/// The nibbles of the CRC: the last four, where the frame has a CRC and is
/// long enough to hold one.
pub open spec fn trailer_of(nibbles: Seq<u8>, has_crc: bool) -> Seq<u8> {
    if has_crc && nibbles.len() >= CRC_NIBBLES {
        nibbles.subrange(nibbles.len() - CRC_NIBBLES, nibbles.len() as int)
    } else {
        Seq::empty()
    }
}

/// All bytes recovered from a frame: the body, then the CRC bytes, whose
/// whitening positions continue those of the body.
pub open spec fn recovered(nibbles: Seq<u8>, implicit_header: bool, has_crc: bool) -> Seq<u8> {
    let body = dewhitened_from(body_of(nibbles, implicit_header, has_crc), 0);
    body + dewhitened_from(trailer_of(nibbles, has_crc), body.len() as int)
}

/// Two bytes as a 16-bit value, the first byte low.
pub open spec fn le16(first: u8, second: u8) -> u16 {
    (first as u16) | ((second as u16) << 8)
}

/// Two bytes as a 16-bit value, the first byte high.
pub open spec fn be16(first: u8, second: u8) -> u16 {
    ((first as u16) << 8) | (second as u16)
}

/// The CRC comparison on recovered bytes whose last two are the CRC: the
/// CRC-16 of the bytes before them, with the last two of those bytes added
/// in, equals the transmitted value.
pub open spec fn crc_matches(bytes: Seq<u8>) -> bool
    recommends
        bytes.len() >= 4,
{
    let l = bytes.len() as int;
    crc16_of(bytes.take(l - 2)) ^ be16(bytes[l - 4], bytes[l - 3]) == le16(
        bytes[l - 2],
        bytes[l - 1],
    )
}

impl<V> Frame<V> {
    /// All bytes recovered from this frame.
    pub open spec fn recovered(&self) -> Seq<u8> {
        recovered(self.nibbles@, self.implicit_header, self.has_crc)
    }

    /// The whitening sequence reaches every byte of this frame.
    pub open spec fn decodable(&self) -> bool {
        self.recovered().len() <= WHITENING_LEN
    }

    /// The CRC comparison is made: the frame has a CRC and at least four
    /// bytes were recovered.
    pub open spec fn crc_compared(&self) -> bool {
        self.has_crc && self.recovered().len() >= 4
    }

    /// The frame is accepted: it has no CRC, or the comparison was made and
    /// the values agree.
    pub open spec fn crc_passed(&self) -> bool {
        !self.has_crc || (self.crc_compared() && crc_matches(self.recovered()))
    }

    /// The payload of an accepted frame: the recovered bytes without the
    /// two CRC bytes.
    pub open spec fn payload(&self) -> Seq<u8> {
        if self.has_crc {
            self.recovered().take(self.recovered().len() - 2)
        } else {
            self.recovered()
        }
    }

    /// The status byte of the `READY` command.
    pub open spec fn status(&self) -> u8 {
        if self.crc_passed() {
            0
        } else {
            RADIOLIB_SX126X_IRQ_CRC_ERR
        }
    }

    /// `out` is what decoding this frame produces: the outcome of the CRC
    /// comparison where one is made, the `DATA` command with all recovered
    /// bytes, the `READY` command with the status byte, and the payload
    /// where the frame is accepted.
    pub open spec fn decodes_to(&self, out: Decoded) -> bool {
        &&& out.crc_check == (if self.crc_compared() {
            Some(crc_matches(self.recovered()))
        } else {
            None
        })
        &&& out.kiss_data@ == command_frame(CMD_DATA, self.recovered())
        &&& out.kiss_ready@ == command_frame(CMD_READY, seq![self.status()])
        &&& self.crc_passed() ==> out.payload is Some && out.payload->0@ == self.payload()
        &&& !self.crc_passed() ==> out.payload is None
    }

    /// Tells whether the whitening sequence reaches every byte of this
    /// frame, which `Decoder::decode` asks for.
    pub fn is_decodable(&self) -> (ok: bool)
        ensures
            ok == self.decodable(),
    {
        let n = self.nibbles.len();
        let start: usize = if self.implicit_header {
            0
        } else {
            HEADER_NIBBLES
        };
        if self.has_crc {
            if n < CRC_NIBBLES {
                true
            } else if n - CRC_NIBBLES < start {
                true
            } else {
                (n - CRC_NIBBLES - start) / 2 <= WHITENING_LEN - 2
            }
        } else if n < start {
            true
        } else {
            (n - start) / 2 <= WHITENING_LEN
        }
    }
}

/// Takes the whitening byte `w` off a pair of nibbles.
fn dewhiten(low: u8, high: u8, w: u8) -> (byte: u8)
    ensures
        byte == dewhiten_pair(low, high, w),
{
    let low_nib = low ^ (w & 0x0F);
    let high_nib = high ^ ((w & 0xF0) >> 4);
    (high_nib << 4) | low_nib
}

/// Appends to `out` the bytes of `pairs` pairs of nibbles that start at
/// `start`, masked with the whitening bytes from position `first` on.
fn dewhiten_into(out: &mut Vec<u8>, nibbles: &Vec<u8>, start: usize, pairs: usize, first: usize)
    requires
        start + 2 * pairs <= nibbles@.len(),
        first + pairs <= WHITENING_LEN,
    ensures
        final(out)@ == old(out)@ + dewhitened_from(
            nibbles@.subrange(start as int, start + 2 * pairs),
            first as int,
        ),
{
    let ghost part = nibbles@.subrange(start as int, start + 2 * pairs);
    let n = nibbles.len();
    let mut k: usize = 0;
    while k < pairs
        invariant
            k <= pairs,
            n == nibbles@.len(),
            start + 2 * pairs <= n,
            first + pairs <= WHITENING_LEN,
            part == nibbles@.subrange(start as int, start + 2 * pairs),
            out@ == old(out)@ + dewhitened_from(part, first as int).take(k as int),
        decreases pairs - k,
    {
        let w = whitening_byte(first + k);
        let byte = dewhiten(nibbles[start + 2 * k], nibbles[start + 2 * k + 1], w);
        out.push(byte);
        k += 1;
    }
    proof {
        let all = dewhitened_from(part, first as int);
    }
}

/// The frame decoder. It keeps no state between frames.
#[derive(Debug)]
pub struct Decoder;

impl Decoder {
    /// A new decoder.
    pub fn new() -> (decoder: Self)
        ensures
            decoder == Decoder,
    {
        Decoder
    }

    /// Decodes one frame: recovers its bytes, compares the CRC where the
    /// frame has one, and builds the two commands for the host.
    pub fn decode<V>(frame: &Frame<V>) -> (out: Decoded)
        requires
            frame.decodable(),
        ensures
            frame.decodes_to(out),
    {
        let n = frame.nibbles.len();
        let start: usize = if frame.implicit_header {
            0
        } else {
            HEADER_NIBBLES
        };
        let end: usize = if !frame.has_crc {
            n
        } else if n >= CRC_NIBBLES {
            n - CRC_NIBBLES
        } else {
            0
        };
        let pairs: usize = if start <= end {
            (end - start) / 2
        } else {
            0
        };
        let mut dewhitened: Vec<u8> = Vec::new();
        if pairs > 0 {
            dewhiten_into(&mut dewhitened, &frame.nibbles, start, pairs, 0);
        }
        if frame.has_crc && n >= CRC_NIBBLES {
            dewhiten_into(&mut dewhitened, &frame.nibbles, n - CRC_NIBBLES, 2, pairs);
        }
        assert(dewhitened@ == frame.recovered());
        let l = dewhitened.len();
        let mut crc_check: Option<bool> = None;
        let crc_passed = if frame.has_crc {
            if l < 4 {
                false
            } else {
                let computed = Decoder::crc16(slice_to(&dewhitened, l - 2));
                let last_two = ((dewhitened[l - 4] as u16) << 8) | (dewhitened[l - 3] as u16);
                let folded = computed ^ last_two;
                let sent = (dewhitened[l - 2] as u16) | ((dewhitened[l - 1] as u16) << 8);
                let crc_valid = sent == folded;
                crc_check = Some(crc_valid);
                crc_valid
            }
        } else {
            true
        };
        let kiss_data = create_cmd(CMD_DATA, dewhitened.as_slice());
        let status: u8 = if crc_passed {
            0
        } else {
            RADIOLIB_SX126X_IRQ_CRC_ERR
        };
        let mut status_bytes: Vec<u8> = Vec::new();
        status_bytes.push(status);
        let kiss_ready = create_cmd(CMD_READY, status_bytes.as_slice());
        let payload = if crc_passed {
            if frame.has_crc {
                dewhitened.truncate(l - 2);
            }
            Some(dewhitened)
        } else {
            None
        };
        Decoded { crc_check, kiss_data, kiss_ready, payload }
    }
}

impl Default for Decoder {
    fn default() -> (decoder: Self)
        ensures
            decoder == Decoder,
    {
        Decoder::new()
    }
}

/// The first `len` bytes of `bytes`.
fn slice_to(bytes: &Vec<u8>, len: usize) -> (part: &[u8])
    requires
        len <= bytes@.len(),
    ensures
        part@ == bytes@.take(len as int),
{
    vstd::slice::slice_subrange(bytes.as_slice(), 0, len)
}

} // verus!
