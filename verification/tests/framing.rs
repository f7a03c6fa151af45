use lora_link::kiss_driver::kiss::{
    CMD_DATA, CMD_DETECT, CMD_READY, CMD_RSSI, CMD_SNR, FEND, FESC, TFEND, TFESC,
};
use lora_link::kiss_driver::{
    create_cmd, descape, escape, RADIOLIB_SX126X_IRQ_CRC_ERR, RADIOLIB_SX126X_IRQ_HEADER_ERR,
    RADIOLIB_SX126X_IRQ_HEADER_VALID,
};

#[test]
fn protocol_bytes_have_their_wire_values() {
    assert_eq!(FEND, 0xC0);
    assert_eq!(FESC, 0xDB);
    assert_eq!(TFEND, 0xDC);
    assert_eq!(TFESC, 0xDD);
    assert_eq!(CMD_DETECT, 0x08);
    assert_eq!(CMD_DATA, 0x00);
    assert_eq!(CMD_RSSI, 0x23);
    assert_eq!(CMD_SNR, 0x24);
    assert_eq!(CMD_READY, 0x0F);
    assert_eq!(RADIOLIB_SX126X_IRQ_CRC_ERR, 0x40);
    assert_eq!(RADIOLIB_SX126X_IRQ_HEADER_ERR, 0x20);
    assert_eq!(RADIOLIB_SX126X_IRQ_HEADER_VALID, 0x10);
}

#[test]
fn escape_replaces_delimiter_and_escape_bytes() {
    let data = [0x01, 0xC0, 0x02, 0xDB, 0x03];
    assert_eq!(escape(&data), vec![0x01, 0xDB, 0xDC, 0x02, 0xDB, 0xDD, 0x03]);
}

#[test]
fn escape_passes_other_bytes_through() {
    assert_eq!(escape(&[0x00, 0xDC, 0xDD, 0xFF]), vec![0x00, 0xDC, 0xDD, 0xFF]);
    assert_eq!(escape(&[]), Vec::<u8>::new());
}

#[test]
fn escaped_bytes_hold_no_delimiter() {
    let data: Vec<u8> = (0..=255u8).collect();
    let wire = escape(&data);
    assert!(wire.iter().all(|&b| b != FEND));
    assert_eq!(wire.len(), 258);
}

#[test]
fn descape_maps_substitutes_back() {
    assert_eq!(descape(&[0x01, 0xDB, 0xDC, 0x02, 0xDB, 0xDD, 0x03]), vec![0x01, 0xC0, 0x02, 0xDB, 0x03]);
}

#[test]
fn descape_takes_any_other_byte_after_an_escape_as_it_is() {
    assert_eq!(descape(&[0xDB, 0x41, 0x42]), vec![0x41, 0x42]);
    assert_eq!(descape(&[0xDB, 0xDB, 0xDC]), vec![0xDB, 0xDC]);
}

#[test]
fn descape_drops_a_truncated_escape() {
    assert_eq!(descape(&[0x01, 0x02, 0xDB]), vec![0x01, 0x02]);
    assert_eq!(descape(&[0xDB]), Vec::<u8>::new());
}

#[test]
fn descape_inverts_escape_on_every_byte_value() {
    let data: Vec<u8> = (0..=255u8).chain((0..=255u8).rev()).collect();
    assert_eq!(descape(&escape(&data)), data);
}

#[test]
fn descape_inverts_escape_on_reserved_bytes() {
    let data = [FEND, FESC, FEND, 0x00, 0xFF, TFEND, TFESC, FESC, FESC, FEND];
    assert_eq!(descape(&escape(&data)), data.to_vec());
}

#[test]
fn create_cmd_wraps_payload_between_delimiters() {
    assert_eq!(create_cmd(CMD_DATA, &[0x11, 0x22]), vec![0xC0, 0x00, 0x11, 0x22, 0xC0]);
    assert_eq!(create_cmd(CMD_READY, &[0x00]), vec![0xC0, 0x0F, 0x00, 0xC0]);
    assert_eq!(create_cmd(CMD_SNR, &[]), vec![0xC0, 0x24, 0xC0]);
}

#[test]
fn create_cmd_leaves_the_payload_unescaped() {
    assert_eq!(create_cmd(CMD_RSSI, &[0xC0, 0xDB]), vec![0xC0, 0x23, 0xC0, 0xDB, 0xC0]);
    assert_eq!(
        create_cmd(CMD_DETECT, &escape(&[0xC0, 0xDB])),
        vec![0xC0, 0x08, 0xDB, 0xDC, 0xDB, 0xDD, 0xC0]
    );
}
