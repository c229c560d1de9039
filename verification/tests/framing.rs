use bitmice::bytearray::ByteArray;
use bitmice::framer::{build_frame, parse_frame, read_varint, write_varint, contains_bytes};

#[test]
fn varint_encodes_minimally_and_round_trips() {
    for n in [0u64, 1, 127, 128, 129, 16383, 16384, 2097151, 2097152, 268435455] {
        let encoded = write_varint(ByteArray::new(), n);
        let expected_len = match n {
            0..=127 => 1,
            128..=16383 => 2,
            16384..=2097151 => 3,
            _ => 4,
        };
        assert_eq!(encoded.len(), expected_len);
        let mut buf = encoded;
        assert_eq!(read_varint(&mut buf), Some(n));
        assert_eq!(buf.len(), 0);
    }
}

#[test]
fn varint_rejects_overlong_prefix() {
    let mut b = ByteArray::with(vec![0x80, 0x80, 0x80, 0x80, 0x80, 0x01]);
    assert_eq!(read_varint(&mut b), None);
    assert_eq!(b.len(), 6);

    let mut b = ByteArray::with(vec![0x80, 0x80]);
    assert_eq!(read_varint(&mut b), None);
}

#[test]
fn frame_round_trip() {
    let payload = ByteArray::new().write_u32(7).write_utf("hi");
    let framed = build_frame(5, 21, &payload);
    let mut chunk = ByteArray::with(framed.to_vec());
    let mut frame = parse_frame(&mut chunk).unwrap();
    assert_eq!(frame.len(), 2 + payload.len());
    assert_eq!(frame.read_u8(), 5);
    assert_eq!(frame.read_u8(), 21);
    assert_eq!(frame.read_u32(), 7);
    assert_eq!(frame.read_utf(), "hi");
}

#[test]
fn truncated_frame_is_clamped() {
    // announce 100 bytes but provide only 3 after the varint
    let mut chunk = ByteArray::with(vec![99, 1, 2, 3]);
    let frame = parse_frame(&mut chunk).unwrap();
    assert_eq!(frame.len(), 3);
}

#[test]
fn policy_probe_is_detected() {
    let chunk = b"xx<policy-file-request/>yy";
    assert!(contains_bytes(chunk, b"<policy-file-request/>"));
    assert!(!contains_bytes(b"<policy-file-req", b"<policy-file-request/>"));
}
