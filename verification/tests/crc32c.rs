use tartine::crc32c::checksum;

#[test]
fn matches_standard_check_value() {
    assert_eq!(checksum(b"123456789"), 0xe306_9283);
}

#[test]
fn empty_input_is_zero() {
    assert_eq!(checksum(b""), 0);
}

#[test]
fn checksums_of_long_runs() {
    assert_eq!(checksum(&[0u8; 32]), 0x8a91_36aa);
    assert_eq!(checksum(&[0xffu8; 32]), 0x62a8_ab43);
    assert_eq!(checksum(b"hello world"), 0xc994_65aa);
}
