// Byte builders shared by nothing else; kept in this file's own tests.
fn le32(v: u32) -> [u8; 4] {
    v.to_le_bytes()
}

#[test]
fn little_endian_builder_matches_reader() {
    let b = [1u8, 2, 3, 4, 5, 6, 7, 8];
    assert_eq!(pd2tools::read_helpers::read_u32_le(&b, 0), u32::from_le_bytes([1, 2, 3, 4]));
    assert_eq!(pd2tools::read_helpers::read_u64_le(&b, 0), u64::from_le_bytes(b));
    assert_eq!(le32(0x04030201), [1, 2, 3, 4]);
    assert_eq!(pd2tools::read_helpers::try_u32_le(&b, 5), None);
    assert_eq!(pd2tools::read_helpers::try_u32_le(&b, 4), Some(0x08070605));
}
