use leaderboard_index::varint::read_u32_varint;

#[test]
fn reads_single_byte_values() {
    assert_eq!(read_u32_varint(&[0], 0), Some((0, 1)));
    assert_eq!(read_u32_varint(&[127], 0), Some((127, 1)));
}

#[test]
fn reads_multi_byte_values() {
    assert_eq!(read_u32_varint(&[0x80, 0x01], 0), Some((128, 2)));
    assert_eq!(read_u32_varint(&[0xac, 0x02], 0), Some((300, 2)));
    assert_eq!(read_u32_varint(&[0xff, 0xff, 0xff, 0xff, 0x0f], 0), Some((u32::MAX, 5)));
}

#[test]
fn rejects_what_is_no_encoding() {
    assert_eq!(read_u32_varint(&[], 0), None);
    assert_eq!(read_u32_varint(&[0x80], 0), None);
    assert_eq!(read_u32_varint(&[0x80, 0x00], 0), None);
    assert_eq!(read_u32_varint(&[0xff, 0xff, 0xff, 0xff, 0x10], 0), None);
    assert_eq!(read_u32_varint(&[0xff, 0xff, 0xff, 0xff, 0xff, 0x01], 0), None);
    assert_eq!(read_u32_varint(&[1], 1), None);
}
