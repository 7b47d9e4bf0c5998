use save_format::byte::{ByteReader, ByteWriter, MAGIC_VALUE, VERSION};

#[test]
fn header_is_marker_and_version() {
    let bytes = ByteWriter::new().finish();
    assert_eq!(bytes.len(), 20);
    assert_eq!(&bytes[..15], b"FANCYSAVEFORMAT");
    assert_eq!(bytes[15], 0);
    assert_eq!(&bytes[..16], &MAGIC_VALUE[..]);
    assert_eq!(&bytes[16..], &[1, 0, 0, 0]);
    assert_eq!(VERSION, 1);
}

#[test]
fn u32_then_string_round_trip() {
    let mut writer = ByteWriter::new();
    writer.write_u32(42);
    writer.write_str("ok");
    let bytes = writer.finish();
    let mut reader = ByteReader::new(&bytes).unwrap();
    assert_eq!(reader.read_u32(), Some(42));
    assert_eq!(reader.read_str(), Some("ok"));
    assert_eq!(reader.read_u8(), None);
}

#[test]
fn corrupted_marker_fails_at_construction() {
    let mut bytes = ByteWriter::new().finish();
    bytes[3] ^= 0xFF;
    assert!(ByteReader::new(&bytes).is_none());
    let mut bytes = ByteWriter::new().finish();
    bytes[15] = 1;
    assert!(ByteReader::new(&bytes).is_none());
}

#[test]
fn other_version_fails_at_construction() {
    let mut bytes = ByteWriter::new().finish();
    bytes[16] = 2;
    assert!(ByteReader::new(&bytes).is_none());
    let mut bytes = ByteWriter::new().finish();
    bytes[19] = 1;
    assert!(ByteReader::new(&bytes).is_none());
}

#[test]
fn short_buffer_fails_at_construction() {
    let bytes = ByteWriter::new().finish();
    assert!(ByteReader::new(&bytes[..19]).is_none());
    assert!(ByteReader::new(&bytes[..16]).is_none());
    assert!(ByteReader::new(&bytes[..7]).is_none());
    assert!(ByteReader::new(&[]).is_none());
    assert!(ByteReader::new(&bytes).is_some());
}

#[test]
fn fields_are_little_endian() {
    let mut writer = ByteWriter::new();
    writer.write_u8(0xAB);
    writer.write_i8(-1);
    writer.write_u32(0x0102_0304);
    writer.write_i32(-2);
    writer.write_u64(0x0102_0304_0506_0708);
    writer.write_i64(-3);
    writer.write_bool(true);
    writer.write_bool(false);
    writer.write_bytes(&[9, 8, 7]);
    writer.write_str("é");
    let bytes = writer.finish();
    assert_eq!(
        &bytes[20..],
        &[
            0xAB, 0xFF, 4, 3, 2, 1, 0xFE, 0xFF, 0xFF, 0xFF, 8, 7, 6, 5, 4, 3, 2, 1, 0xFD, 0xFF,
            0xFF, 0xFF, 0xFF, 0xFF, 0xFF, 0xFF, 1, 0, 3, 0, 0, 0, 9, 8, 7, 2, 0, 0, 0, 0xC3, 0xA9,
        ][..]
    );
}

#[test]
fn every_field_reads_back() {
    let mut writer = ByteWriter::new();
    writer.write_u8(200);
    writer.write_i8(-128);
    writer.write_u32(u32::MAX);
    writer.write_i32(i32::MIN);
    writer.write_u64(u64::MAX - 1);
    writer.write_i64(i64::MIN + 1);
    writer.write_f32(1.5f32.to_bits());
    writer.write_f64((-0.25f64).to_bits());
    writer.write_bool(true);
    writer.write_bool(false);
    writer.write_bytes(&[0, 255, 1]);
    writer.write_bytes(&[]);
    writer.write_str("héllo");
    let bytes = writer.finish();
    let mut reader = ByteReader::new(&bytes).unwrap();
    assert_eq!(reader.read_u8(), Some(200));
    assert_eq!(reader.read_i8(), Some(-128));
    assert_eq!(reader.read_u32(), Some(u32::MAX));
    assert_eq!(reader.read_i32(), Some(i32::MIN));
    assert_eq!(reader.read_u64(), Some(u64::MAX - 1));
    assert_eq!(reader.read_i64(), Some(i64::MIN + 1));
    assert_eq!(reader.read_f32().map(f32::from_bits), Some(1.5));
    assert_eq!(reader.read_f64().map(f64::from_bits), Some(-0.25));
    assert_eq!(reader.read_bool(), Some(true));
    assert_eq!(reader.read_bool(), Some(false));
    assert_eq!(reader.read_bytes(), Some(&[0u8, 255, 1][..]));
    assert_eq!(reader.read_bytes(), Some(&[][..]));
    assert_eq!(reader.read_str(), Some("héllo"));
    assert_eq!(reader.read_bool(), None);
}

#[test]
fn float_bits_are_written_as_the_float_is() {
    let mut writer = ByteWriter::new();
    writer.write_f32(1.5f32.to_bits());
    writer.write_f64(1.5f64.to_bits());
    let bytes = writer.finish();
    assert_eq!(&bytes[20..24], &1.5f32.to_le_bytes());
    assert_eq!(&bytes[24..], &1.5f64.to_le_bytes());
}

#[test]
fn any_byte_but_one_reads_as_false() {
    let mut writer = ByteWriter::new();
    writer.write_u8(2);
    writer.write_u8(0);
    writer.write_u8(255);
    writer.write_u8(1);
    let bytes = writer.finish();
    let mut reader = ByteReader::new(&bytes).unwrap();
    assert_eq!(reader.read_bool(), Some(false));
    assert_eq!(reader.read_bool(), Some(false));
    assert_eq!(reader.read_bool(), Some(false));
    assert_eq!(reader.read_bool(), Some(true));
}

#[test]
fn short_fields_read_as_absent_and_consume_nothing() {
    let mut writer = ByteWriter::new();
    writer.write_u8(7);
    writer.write_u8(8);
    writer.write_u8(9);
    let bytes = writer.finish();
    let mut reader = ByteReader::new(&bytes).unwrap();
    assert_eq!(reader.read_u32(), None);
    assert_eq!(reader.read_i32(), None);
    assert_eq!(reader.read_u64(), None);
    assert_eq!(reader.read_i64(), None);
    assert_eq!(reader.read_f32(), None);
    assert_eq!(reader.read_f64(), None);
    assert_eq!(reader.read_bytes(), None);
    assert_eq!(reader.read_str(), None);
    assert_eq!(reader.read_u8(), Some(7));
    assert_eq!(reader.read_i8(), Some(8));
    assert_eq!(reader.read_u8(), Some(9));
    assert_eq!(reader.read_u8(), None);
    assert_eq!(reader.read_i8(), None);
    assert_eq!(reader.read_bool(), None);
}

#[test]
fn short_payload_leaves_the_length_consumed() {
    let mut writer = ByteWriter::new();
    writer.write_u32(5);
    writer.write_u8(1);
    writer.write_u8(2);
    let bytes = writer.finish();
    let mut reader = ByteReader::new(&bytes).unwrap();
    assert_eq!(reader.read_bytes(), None);
    assert_eq!(reader.read_u8(), Some(1));
    assert_eq!(reader.read_u8(), Some(2));
    assert_eq!(reader.read_u8(), None);
}

#[test]
fn text_that_is_not_utf8_reads_as_absent() {
    let mut writer = ByteWriter::new();
    writer.write_bytes(&[0xFF, 0xFE]);
    writer.write_u8(5);
    let bytes = writer.finish();
    let mut reader = ByteReader::new(&bytes).unwrap();
    assert_eq!(reader.read_str(), None);
    assert_eq!(reader.read_u8(), Some(5));
}
