use lora_link::decoder::message::{Annotation, Message, Reply};
use lora_link::decoder::whitening::{whitening_byte, WHITENING_LEN, WHITENING_SEQ};
use lora_link::decoder::{Decoder, Frame};

/// Nibbles for `bytes`, masked with the whitening bytes from `first` on.
fn whiten(bytes: &[u8], first: usize) -> Vec<u8> {
    let mut nibbles = Vec::new();
    for (i, b) in bytes.iter().enumerate() {
        let w = WHITENING_SEQ[first + i];
        nibbles.push((b & 0x0F) ^ (w & 0x0F));
        nibbles.push((b >> 4) ^ (w >> 4));
    }
    nibbles
}

/// The two CRC bytes that belong behind `payload`.
fn crc_bytes(payload: &[u8]) -> [u8; 2] {
    let l = payload.len();
    let last_two = ((payload[l - 2] as u16) << 8) | payload[l - 1] as u16;
    let crc = Decoder::crc16(payload) ^ last_two;
    [(crc & 0xFF) as u8, (crc >> 8) as u8]
}

fn frame(nibbles: Vec<u8>, implicit_header: bool, has_crc: bool) -> Frame<u32> {
    Frame { nibbles, implicit_header, has_crc, code_rate: 1, annotations: Vec::new() }
}

/// An explicit-header frame that carries `payload` and its CRC.
fn frame_with_crc(payload: &[u8]) -> Frame<u32> {
    let mut nibbles = vec![1, 2, 3, 4, 5];
    nibbles.extend(whiten(payload, 0));
    nibbles.extend(whiten(&crc_bytes(payload), payload.len()));
    frame(nibbles, false, true)
}

#[test]
fn whitening_sequence_starts_and_ends_as_the_register_gives_it() {
    assert_eq!(WHITENING_LEN, 255);
    assert_eq!(WHITENING_SEQ.len(), 255);
    assert_eq!(&WHITENING_SEQ[..8], &[0xFF, 0xFE, 0xFC, 0xF8, 0xF0, 0xE1, 0xC2, 0x85]);
    assert_eq!(WHITENING_SEQ[254], 0x7F);
    assert_eq!(whitening_byte(5), 0xE1);
}

#[test]
fn whitening_sequence_follows_its_register() {
    for i in 0..254 {
        let x = WHITENING_SEQ[i];
        let feedback = ((x >> 7) ^ (x >> 5) ^ (x >> 4) ^ (x >> 3)) & 1;
        assert_eq!(WHITENING_SEQ[i + 1], (x << 1) | feedback);
    }
}

#[test]
fn decode_takes_the_whitening_off_each_pair() {
    let out = Decoder::decode(&frame(vec![0xF, 0xF, 0xE, 0xF], true, false));
    assert_eq!(out.payload, Some(vec![0x00, 0x00]));
    let out = Decoder::decode(&frame(vec![0x0, 0x0, 0x0, 0x0], true, false));
    assert_eq!(out.payload, Some(vec![0xFF, 0xFE]));
    let out = Decoder::decode(&frame(vec![0x3, 0xB, 0x1, 0x9], true, false));
    assert_eq!(out.payload, Some(vec![0x4C, 0x6F]));
}

#[test]
fn decode_without_crc_accepts_the_frame() {
    let mut nibbles = vec![9, 9, 9, 9, 9];
    nibbles.extend(whiten(b"hello", 0));
    let out = Decoder::decode(&frame(nibbles, false, false));
    assert_eq!(out.crc_check, None);
    assert_eq!(out.payload, Some(b"hello".to_vec()));
    assert_eq!(out.kiss_data, vec![0xC0, 0x00, b'h', b'e', b'l', b'l', b'o', 0xC0]);
    assert_eq!(out.kiss_ready, vec![0xC0, 0x0F, 0x00, 0xC0]);
}

#[test]
fn decode_skips_five_nibbles_only_with_an_explicit_header() {
    let nibbles = whiten(b"abc", 0);
    let out = Decoder::decode(&frame(nibbles.clone(), true, false));
    assert_eq!(out.payload, Some(b"abc".to_vec()));
    let mut with_header = vec![0, 0, 0, 0, 0];
    with_header.extend(nibbles);
    let out = Decoder::decode(&frame(with_header, false, false));
    assert_eq!(out.payload, Some(b"abc".to_vec()));
}

#[test]
fn decode_leaves_out_a_nibble_without_partner() {
    let mut nibbles = whiten(b"ab", 0);
    nibbles.push(0x7);
    let out = Decoder::decode(&frame(nibbles, true, false));
    assert_eq!(out.payload, Some(b"ab".to_vec()));
}

#[test]
fn decode_known_frame_with_crc() {
    let nibbles = vec![1, 2, 3, 4, 5, 3, 11, 1, 9, 14, 10, 9, 9, 1, 13, 9, 4, 8, 8];
    let out = Decoder::decode(&frame(nibbles, false, true));
    assert_eq!(out.crc_check, Some(true));
    assert_eq!(out.payload, Some(b"LoRa!".to_vec()));
    assert_eq!(out.kiss_data, vec![0xC0, 0x00, 0x4C, 0x6F, 0x52, 0x61, 0x21, 0xA8, 0x4A, 0xC0]);
    assert_eq!(out.kiss_ready, vec![0xC0, 0x0F, 0x00, 0xC0]);
}

#[test]
fn decode_accepts_a_matching_crc_and_strips_it() {
    let payload = b"The quick brown fox";
    let out = Decoder::decode(&frame_with_crc(payload));
    assert_eq!(out.crc_check, Some(true));
    assert_eq!(out.payload, Some(payload.to_vec()));
    let mut all = payload.to_vec();
    all.extend(crc_bytes(payload));
    let mut data_cmd = vec![0xC0, 0x00];
    data_cmd.extend(&all);
    data_cmd.push(0xC0);
    assert_eq!(out.kiss_data, data_cmd);
    assert_eq!(out.kiss_ready, vec![0xC0, 0x0F, 0x00, 0xC0]);
}

#[test]
fn decode_rejects_a_corrupted_final_crc_byte() {
    let payload = b"The quick brown fox";
    let mut f = frame_with_crc(payload);
    let last = f.nibbles.len() - 1;
    f.nibbles[last] ^= 0x1;
    let out = Decoder::decode(&f);
    assert_eq!(out.crc_check, Some(false));
    assert_eq!(out.payload, None);
    assert_eq!(out.kiss_ready, vec![0xC0, 0x0F, 0x40, 0xC0]);
    assert_eq!(out.kiss_data.len(), payload.len() + 2 + 3);
    assert_eq!(&out.kiss_data[2..2 + payload.len()], payload);
}

#[test]
fn decode_rejects_a_corrupted_payload() {
    let mut f = frame_with_crc(b"payload");
    f.nibbles[7] ^= 0x4;
    let out = Decoder::decode(&f);
    assert_eq!(out.crc_check, Some(false));
    assert_eq!(out.payload, None);
    assert_eq!(out.kiss_ready, vec![0xC0, 0x0F, 0x40, 0xC0]);
}

#[test]
fn decode_with_two_payload_bytes_has_just_enough_for_the_crc() {
    let out = Decoder::decode(&frame_with_crc(&[0x12, 0x34]));
    assert_eq!(out.crc_check, Some(true));
    assert_eq!(out.payload, Some(vec![0x12, 0x34]));
}

#[test]
fn decode_too_short_for_a_crc_fails_without_comparison() {
    // one payload byte and two CRC bytes: three recovered bytes
    let mut nibbles = vec![0, 0, 0, 0, 0];
    nibbles.extend(whiten(&[0xAB, 0x01, 0x02], 0));
    let out = Decoder::decode(&frame(nibbles, false, true));
    assert_eq!(out.crc_check, None);
    assert_eq!(out.payload, None);
    assert_eq!(out.kiss_data, vec![0xC0, 0x00, 0xAB, 0x01, 0x02, 0xC0]);
    assert_eq!(out.kiss_ready, vec![0xC0, 0x0F, 0x40, 0xC0]);
}

#[test]
fn decode_of_fewer_nibbles_than_a_crc_takes_recovers_nothing() {
    let out = Decoder::decode(&frame(vec![1, 2, 3], true, true));
    assert_eq!(out.crc_check, None);
    assert_eq!(out.payload, None);
    assert_eq!(out.kiss_data, vec![0xC0, 0x00, 0xC0]);
    assert_eq!(out.kiss_ready, vec![0xC0, 0x0F, 0x40, 0xC0]);
}

#[test]
fn decode_of_a_frame_shorter_than_its_header_recovers_nothing() {
    let out = Decoder::decode(&frame(vec![1, 2, 3], false, false));
    assert_eq!(out.crc_check, None);
    assert_eq!(out.payload, Some(vec![]));
    assert_eq!(out.kiss_data, vec![0xC0, 0x00, 0xC0]);
    assert_eq!(out.kiss_ready, vec![0xC0, 0x0F, 0x00, 0xC0]);
}

#[test]
fn is_decodable_tells_where_the_whitening_sequence_ends() {
    assert!(frame(vec![0; 510], true, false).is_decodable());
    assert!(frame(vec![0; 511], true, false).is_decodable());
    assert!(!frame(vec![0; 512], true, false).is_decodable());
    assert!(frame(vec![0; 5 + 510], false, false).is_decodable());
    assert!(!frame(vec![0; 5 + 512], false, false).is_decodable());
    assert!(frame(vec![0; 5 + 506 + 4], false, true).is_decodable());
    assert!(!frame(vec![0; 5 + 508 + 4], false, true).is_decodable());
    assert!(frame(vec![], false, true).is_decodable());
}

#[test]
fn decode_reaches_the_last_whitening_byte() {
    let payload: Vec<u8> = (0..255u32).map(|i| (i * 7 + 3) as u8).collect();
    let out = Decoder::decode(&frame(whiten(&payload, 0), true, false));
    assert_eq!(out.payload, Some(payload));
}

#[test]
fn handle_notes_the_end_of_the_input() {
    let out = Decoder::new().handle(Message::<u32>::Finished);
    assert_eq!(out.reply, Reply::Accepted);
    assert!(out.finished);
    assert!(out.decoded.is_none());
    assert!(out.annotated.is_none());
}

#[test]
fn handle_refuses_other_messages() {
    let out = Decoder::default().handle(Message::<u32>::Other);
    assert_eq!(out.reply, Reply::InvalidValue);
    assert!(!out.finished);
    assert!(out.decoded.is_none());
    assert!(out.annotated.is_none());
}

#[test]
fn handle_refuses_a_frame_beyond_the_whitening_sequence() {
    let out = Decoder::new().handle(Message::Frame(frame(vec![0; 600], true, false)));
    assert_eq!(out.reply, Reply::InvalidValue);
    assert!(!out.finished);
    assert!(out.decoded.is_none());
    assert!(out.annotated.is_none());
}

#[test]
fn handle_annotates_an_accepted_frame() {
    let mut f = frame_with_crc(b"data");
    f.code_rate = 3;
    f.annotations = vec![("snr".to_string(), 17u32), ("code_rate".to_string(), 99u32)];
    let out = Decoder::new().handle(Message::Frame(f));
    assert_eq!(out.reply, Reply::Accepted);
    assert!(!out.finished);
    let decoded = out.decoded.unwrap();
    assert_eq!(decoded.crc_check, Some(true));
    assert_eq!(decoded.payload, Some(b"data".to_vec()));
    let entries = out.annotated.unwrap();
    let keys: Vec<&str> = entries.iter().map(|e| e.0.as_str()).collect();
    assert_eq!(keys, vec!["payload", "snr", "code_rate", "code_rate", "has_crc", "implicit_header"]);
    assert!(matches!(&entries[0].1, Annotation::Blob(b) if b == b"data"));
    assert!(matches!(entries[1].1, Annotation::Carried(17)));
    assert!(matches!(entries[2].1, Annotation::Carried(99)));
    assert!(matches!(entries[3].1, Annotation::Usize(3)));
    assert!(matches!(entries[4].1, Annotation::Bool(true)));
    assert!(matches!(entries[5].1, Annotation::Bool(false)));
}

#[test]
fn handle_gives_no_annotated_payload_for_a_rejected_frame() {
    let mut f = frame_with_crc(b"data");
    let last = f.nibbles.len() - 1;
    f.nibbles[last] ^= 0x8;
    let out = Decoder::new().handle(Message::Frame(f));
    assert_eq!(out.reply, Reply::Accepted);
    let decoded = out.decoded.unwrap();
    assert_eq!(decoded.crc_check, Some(false));
    assert_eq!(decoded.payload, None);
    assert_eq!(decoded.kiss_ready, vec![0xC0, 0x0F, 0x40, 0xC0]);
    assert!(out.annotated.is_none());
}
