use rw_core::value_reader::{
    decimal_from_parts, DecimalValue, DecimalValueReader, I16ValueReader, I32ValueReader,
    I64ValueReader, PrimitiveValueReader, Utf8ValueReader, ValueCursor, ValueReadError,
    VarSizedValueReader,
};

#[test]
fn read_i16_big_endian_negative() {
    let buf = [0xffu8, 0xfe];
    let mut cur = ValueCursor::new(&buf);
    assert_eq!(I16ValueReader::read(&mut cur), Ok(-2));
    assert_eq!(cur.position(), 2);
}

#[test]
fn read_i16_then_eof_keeps_position() {
    let buf = [0x01u8, 0x02, 0x03];
    let mut cur = ValueCursor::new(&buf);
    assert_eq!(I16ValueReader::read(&mut cur), Ok(258));
    assert_eq!(I16ValueReader::read(&mut cur), Err(ValueReadError::UnexpectedEof));
    assert_eq!(cur.position(), 2);
}

#[test]
fn read_i32_min_and_i64_values() {
    let buf = [0x80u8, 0, 0, 0, 0, 0, 0, 0, 0, 0, 1, 0];
    let mut cur = ValueCursor::new(&buf);
    assert_eq!(I32ValueReader::read(&mut cur), Ok(i32::MIN));
    assert_eq!(I64ValueReader::read(&mut cur), Ok(256));
    assert_eq!(cur.position(), 12);
}

#[test]
fn read_i64_negative_one() {
    let buf = [0xffu8; 8];
    let mut cur = ValueCursor::new(&buf);
    assert_eq!(I64ValueReader::read(&mut cur), Ok(-1));
}

#[test]
fn read_i32_short_buffer() {
    let buf = [0x00u8, 0x01, 0x02];
    let mut cur = ValueCursor::new(&buf);
    assert_eq!(I32ValueReader::read(&mut cur), Err(ValueReadError::UnexpectedEof));
    assert_eq!(cur.position(), 0);
}

#[test]
fn read_exact_past_end() {
    let buf = [1u8, 2, 3];
    let mut cur = ValueCursor::new(&buf);
    cur.set_position(10);
    assert_eq!(cur.read_exact(0), Ok(&[][..]));
    assert_eq!(cur.read_exact(1), Err(ValueReadError::UnexpectedEof));
    cur.set_position(1);
    assert_eq!(cur.read_exact(2), Ok(&[2u8, 3][..]));
    assert_eq!(cur.position(), 3);
    assert_eq!(cur.get_ref(), &buf[..]);
}

#[test]
fn read_utf8_ok() {
    let text = "héllo";
    assert_eq!(Utf8ValueReader::read(text.as_bytes()), Ok("héllo"));
    assert_eq!(Utf8ValueReader::read(&[]), Ok(""));
}

#[test]
fn read_utf8_invalid_reports_valid_prefix() {
    let buf = [0x61u8, 0x62, 0xff, 0x63];
    assert_eq!(
        Utf8ValueReader::read(&buf),
        Err(ValueReadError::InvalidUtf8 { valid_up_to: 2 })
    );
}

#[test]
fn read_decimal_values() {
    assert_eq!(
        DecimalValueReader::read(b"1.23"),
        Ok(DecimalValue { mantissa: 123, scale: 2 })
    );
    assert_eq!(
        DecimalValueReader::read(b"-0.5"),
        Ok(DecimalValue { mantissa: -5, scale: 1 })
    );
    assert_eq!(
        DecimalValueReader::read(b"42"),
        Ok(DecimalValue { mantissa: 42, scale: 0 })
    );
}

#[test]
fn read_decimal_errors() {
    assert_eq!(DecimalValueReader::read(b"abc"), Err(ValueReadError::InvalidDecimal));
    assert_eq!(
        DecimalValueReader::read(&[0x31u8, 0xff]),
        Err(ValueReadError::InvalidUtf8 { valid_up_to: 1 })
    );
}

#[test]
fn decimal_from_parts_maps_outcomes() {
    assert_eq!(
        decimal_from_parts(Some((7, 3))),
        Ok(DecimalValue { mantissa: 7, scale: 3 })
    );
    assert_eq!(decimal_from_parts(None), Err(ValueReadError::InvalidDecimal));
}
