use fitparser::crc::{calculate_crc, update_crc};

#[test]
fn crc_of_nothing_is_zero() {
    assert_eq!(calculate_crc(&[]), 0);
}

#[test]
fn crc_matches_the_reference_check_value() {
    // The table is that of CRC-16/ARC, whose check value for "123456789" is 0xBB3D.
    assert_eq!(calculate_crc(b"123456789"), 0xBB3D);
}

#[test]
fn crc_can_be_fed_byte_by_byte() {
    let data = [0x0Eu8, 0x10, 0x43, 0x08, 0x78, 0x06, 0x09, 0x00, 0x2E, 0x46, 0x49, 0x54];
    let mut crc = 0u16;
    for byte in data.iter() {
        crc = update_crc(crc, *byte);
    }
    assert_eq!(crc, calculate_crc(&data));
}
