use bitmice::bytearray::ByteArray;

#[test]
fn clear_and_is_empty() {
    let mut bytearray = ByteArray::default().write_i8(-1);
    assert_eq!(bytearray.is_empty(), false);

    bytearray.clear();
    assert_eq!(bytearray.is_empty(), true);
}

#[test]
fn write_and_read_i8() {
    let mut bytearray = ByteArray::default().write_i8(-1);
    assert_eq!(bytearray.len(), 1);

    assert_eq!(bytearray.read_i8(), -1);
    assert_eq!(bytearray.len(), 0);
}

#[test]
fn write_and_read_u8() {
    let mut bytearray = ByteArray::default().write_u8(1);
    assert_eq!(bytearray.len(), 1);

    assert_eq!(bytearray.read_u8(), 1);
    assert_eq!(bytearray.len(), 0);
}

#[test]
fn write_and_read_i16() {
    let mut bytearray = ByteArray::default().write_i16(-1);
    assert_eq!(bytearray.len(), 2);

    assert_eq!(bytearray.read_i16(), -1);
    assert_eq!(bytearray.len(), 0);
}

#[test]
fn write_and_read_u16() {
    let mut bytearray = ByteArray::default().write_u16(1);
    assert_eq!(bytearray.len(), 2);

    assert_eq!(bytearray.read_u16(), 1);
    assert_eq!(bytearray.len(), 0);
}

#[test]
fn write_and_read_i32() {
    let mut bytearray = ByteArray::default().write_i32(-1);
    assert_eq!(bytearray.len(), 4);

    assert_eq!(bytearray.read_i32(), -1);
    assert_eq!(bytearray.len(), 0);
}

#[test]
fn write_and_read_u32() {
    let mut bytearray = ByteArray::default().write_u32(1);
    assert_eq!(bytearray.len(), 4);

    assert_eq!(bytearray.read_u32(), 1);
    assert_eq!(bytearray.len(), 0);
}

#[test]
fn write_and_read_i64() {
    let mut bytearray = ByteArray::default().write_i64(-1);
    assert_eq!(bytearray.len(), 8);

    assert_eq!(bytearray.read_i64(), -1);
    assert_eq!(bytearray.len(), 0);
}

#[test]
fn write_and_read_u64() {
    let mut bytearray = ByteArray::default().write_u64(1);
    assert_eq!(bytearray.len(), 8);

    assert_eq!(bytearray.read_u64(), 1);
    assert_eq!(bytearray.len(), 0);
}

#[test]
fn write_and_read_bool() {
    let mut bytearray = ByteArray::default().write_bool(true);
    assert_eq!(bytearray.len(), 1);

    assert_eq!(bytearray.read_bool(), true);
    assert_eq!(bytearray.len(), 0);
}

#[test]
fn write_and_read_utf() {
    let mut bytearray = ByteArray::default().write_utf("BitMice");
    assert_eq!(bytearray.len(), 9); // String::len() + 2

    assert_eq!(bytearray.read_utf(), "BitMice");
    assert_eq!(bytearray.len(), 0);
}

#[test]
fn round_trip_boundary_values() {
    let mut b = ByteArray::new()
        .write_i8(i8::MIN)
        .write_i8(i8::MAX)
        .write_u8(0)
        .write_u8(u8::MAX)
        .write_i16(i16::MIN)
        .write_i16(i16::MAX)
        .write_u16(0)
        .write_u16(u16::MAX)
        .write_i32(i32::MIN)
        .write_i32(i32::MAX)
        .write_u32(0)
        .write_u32(u32::MAX)
        .write_i64(i64::MIN)
        .write_i64(i64::MAX)
        .write_u64(0)
        .write_u64(u64::MAX)
        .write_bool(false);
    assert_eq!(b.read_i8(), i8::MIN);
    assert_eq!(b.read_i8(), i8::MAX);
    assert_eq!(b.read_u8(), 0);
    assert_eq!(b.read_u8(), u8::MAX);
    assert_eq!(b.read_i16(), i16::MIN);
    assert_eq!(b.read_i16(), i16::MAX);
    assert_eq!(b.read_u16(), 0);
    assert_eq!(b.read_u16(), u16::MAX);
    assert_eq!(b.read_i32(), i32::MIN);
    assert_eq!(b.read_i32(), i32::MAX);
    assert_eq!(b.read_u32(), 0);
    assert_eq!(b.read_u32(), u32::MAX);
    assert_eq!(b.read_i64(), i64::MIN);
    assert_eq!(b.read_i64(), i64::MAX);
    assert_eq!(b.read_u64(), 0);
    assert_eq!(b.read_u64(), u64::MAX);
    assert_eq!(b.read_bool(), false);
    assert_eq!(b.len(), 0);
}

#[test]
fn round_trip_strings() {
    let mut b = ByteArray::new().write_utf("");
    assert_eq!(b.len(), 2);
    assert_eq!(b.read_utf(), "");

    let long = "a".repeat(65535);
    let mut b = ByteArray::new().write_utf(&long);
    assert_eq!(b.len(), 65537);
    assert_eq!(b.read_utf(), long);

    let mut b = ByteArray::new().write_utf("héllo wörld");
    assert_eq!(b.read_utf(), "héllo wörld");
}

#[test]
fn try_read_utf_rejects_bad_input() {
    // announced length overruns the buffer
    let mut b = ByteArray::with(vec![0, 5, b'a', b'b']);
    assert!(b.try_read_utf().is_none());
    assert_eq!(b.len(), 4);

    // invalid UTF-8 bytes
    let mut b = ByteArray::with(vec![0, 2, 0xff, 0xfe]);
    assert!(b.try_read_utf().is_none());

    let mut b = ByteArray::with(vec![0, 2, b'o', b'k', 9]);
    assert_eq!(b.try_read_utf().unwrap(), "ok");
    assert_eq!(b.len(), 1);
}

#[test]
fn read_big_integers() {
    let mut b = ByteArray::with(vec![
        0, 0, 0, 0, 0, 0, 0, 0, 0, 0, 0, 0, 0, 0, 1, 2,
    ]);
    assert_eq!(b.read_u128(), 258);
    let mut b = ByteArray::with(vec![0xff; 16]);
    assert_eq!(b.read_i128(), -1);
}

#[test]
fn offset_and_read_leave_buffer() {
    let mut b = ByteArray::with(vec![1, 2, 3, 4, 5]);
    let mid = b.offset(1, 4);
    assert_eq!(mid.as_bytes(), &[2, 3, 4]);
    let head = b.read(2);
    assert_eq!(head.to_vec(), vec![1, 2]);
    assert_eq!(b.len(), 5);
    let t = ByteArray::with(vec![104, 105]);
    assert_eq!(t.as_str(), "hi");
}
