//! Host framing protocol: escaping, unescaping and command frames.
//!
//! A command frame is a delimiter, a command code, the payload and a
//! closing delimiter. Payload bytes that collide with the delimiter or with
//! the escape byte are replaced by two-byte escape sequences.

use vstd::prelude::*;

pub mod kiss;

use crate::kiss_driver::kiss::{FEND, FESC, TFEND, TFESC};

verus! {

/// Status flag: the frame header failed its check.
pub const RADIOLIB_SX126X_IRQ_HEADER_ERR: u8 = 0b00100000;

/// Status flag: a valid frame header was received.
pub const RADIOLIB_SX126X_IRQ_HEADER_VALID: u8 = 0b00010000;

/// Status flag: the payload failed its CRC.
pub const RADIOLIB_SX126X_IRQ_CRC_ERR: u8 = 0b01000000;

/// The bytes that stand for one payload byte on the wire.
pub open spec fn escape_byte(b: u8) -> Seq<u8> {
    if b == FEND {
        seq![FESC, TFEND]
    } else if b == FESC {
        seq![FESC, TFESC]
    } else {
        seq![b]
    }
}

/// The byte that an escape sequence ending in `b` stands for.
pub open spec fn unescape_byte(b: u8) -> u8 {
    if b == TFEND {
        FEND
    } else if b == TFESC {
        FESC
    } else {
        b
    }
}

/// The escaped form of `data`: each byte replaced by `escape_byte` of it.
pub open spec fn escaped(data: Seq<u8>) -> Seq<u8>
    decreases data.len(),
{
    if data.len() == 0 {
        Seq::empty()
    } else {
        escape_byte(data[0]) + escaped(data.skip(1))
    }
}

/// The payload that escaped bytes stand for. An escape byte with nothing
/// behind it is dropped.
pub open spec fn descaped(data: Seq<u8>) -> Seq<u8>
    decreases data.len(),
{
    if data.len() == 0 {
        Seq::empty()
    } else if data[0] != FESC {
        seq![data[0]] + descaped(data.skip(1))
    } else if data.len() == 1 {
        Seq::empty()
    } else {
        seq![unescape_byte(data[1])] + descaped(data.skip(2))
    }
}

/// The command frame for `cmd` with payload `data`.
pub open spec fn command_frame(cmd: u8, data: Seq<u8>) -> Seq<u8> {
    seq![FEND, cmd] + data + seq![FEND]
}

/// Unescaping undoes escaping: `descaped(escaped(x)) == x` for every byte
/// sequence `x`, whether or not it holds delimiter or escape bytes.
pub proof fn lemma_descape_escape(data: Seq<u8>)
    ensures
        descaped(escaped(data)) == data,
    decreases data.len(),
{
    if data.len() > 0 {
        let rest = escaped(data.skip(1));
        let wire = escaped(data);
        lemma_descape_escape(data.skip(1));
        if data[0] == FEND || data[0] == FESC {
            assert(wire.skip(2) == rest);
        } else {
            assert(wire.skip(1) == rest);
        }
    }
}

/// Escaped bytes hold no delimiter, so a frame built from them ends only
/// where its closing delimiter stands.
pub proof fn lemma_escaped_has_no_delimiter(data: Seq<u8>, i: int)
    requires
        0 <= i < escaped(data).len(),
    ensures
        escaped(data)[i] != FEND,
    decreases data.len(),
{
    if data.len() > 0 {
        let head = escape_byte(data[0]);
        if i >= head.len() {
            lemma_escaped_has_no_delimiter(data.skip(1), i - head.len());
        }
    }
}

/// Escaping keeps every byte and at most doubles the length.
pub proof fn lemma_escaped_len(data: Seq<u8>)
    ensures
        data.len() <= escaped(data).len() <= 2 * data.len(),
    decreases data.len(),
{
    if data.len() > 0 {
        lemma_escaped_len(data.skip(1));
    }
}

/// Escapes `data` for the wire.
pub fn escape(data: &[u8]) -> (result: Vec<u8>)
    ensures
        result@ == escaped(data@),
{
    let mut result: Vec<u8> = Vec::new();
    let mut i: usize = 0;
    proof {
        assert(data@.skip(0) == data@);
    }
    while i < data.len()
        invariant
            i <= data.len(),
            escaped(data@) == result@ + escaped(data@.skip(i as int)),
        decreases data.len() - i,
    {
        let b = data[i];
        proof {
            assert(data@.skip(i as int).skip(1) == data@.skip(i + 1));
        }
        if b == FEND {
            result.push(FESC);
            result.push(TFEND);
        } else if b == FESC {
            result.push(FESC);
            result.push(TFESC);
        } else {
            result.push(b);
        }
        i += 1;
    }
    result
}

/// Recovers the payload from escaped bytes.
pub fn descape(data: &[u8]) -> (result: Vec<u8>)
    ensures
        result@ == descaped(data@),
{
    let mut result: Vec<u8> = Vec::new();
    let mut i: usize = 0;
    proof {
        assert(data@.skip(0) == data@);
    }
    while i < data.len()
        invariant
            i <= data.len(),
            descaped(data@) == result@ + descaped(data@.skip(i as int)),
        decreases data.len() - i,
    {
        let b = data[i];
        if b == FESC {
            if i + 1 >= data.len() {
                i += 1;
            } else {
                let next_b = data[i + 1];
                proof {
                    assert(data@.skip(i as int).skip(2) == data@.skip(i + 2));
                }
                if next_b == TFEND {
                    result.push(FEND);
                } else if next_b == TFESC {
                    result.push(FESC);
                } else {
                    result.push(next_b);
                }
                i += 2;
            }
        } else {
            proof {
                assert(data@.skip(i as int).skip(1) == data@.skip(i + 1));
            }
            result.push(b);
            i += 1;
        }
    }
    result
}

/// Builds the command frame for `cmd`. The payload is copied as it is:
/// the caller escapes it where it may hold a delimiter.
pub fn create_cmd(cmd: u8, data: &[u8]) -> (result: Vec<u8>)
    ensures
        result@ == command_frame(cmd, data@),
{
    let mut result: Vec<u8> = Vec::new();
    result.push(FEND);
    result.push(cmd);
    let mut i: usize = 0;
    while i < data.len()
        invariant
            i <= data.len(),
            result@ == seq![FEND, cmd] + data@.take(i as int),
        decreases data.len() - i,
    {
        result.push(data[i]);
        i += 1;
    }
    result.push(FEND);
    result
}

} // verus!
