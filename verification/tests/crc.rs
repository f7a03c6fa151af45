use lora_link::decoder::Decoder;

#[test]
fn crc16_of_the_check_string() {
    assert_eq!(Decoder::crc16(b"123456789"), 0x31C3);
}

#[test]
fn crc16_of_nothing_is_the_initial_value() {
    assert_eq!(Decoder::crc16(&[]), 0x0000);
}

#[test]
fn crc16_of_short_inputs() {
    assert_eq!(Decoder::crc16(b"A"), 0x58E5);
    assert_eq!(Decoder::crc16(&[0x00, 0x00]), 0x0000);
    assert_eq!(Decoder::crc16(b"LoRa!"), 0x2B89);
}

#[test]
fn crc16_of_data_followed_by_its_crc_is_zero() {
    let mut data = b"any payload at all".to_vec();
    let crc = Decoder::crc16(&data);
    data.push((crc >> 8) as u8);
    data.push((crc & 0xFF) as u8);
    assert_eq!(Decoder::crc16(&data), 0);
}
