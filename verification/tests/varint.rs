use nom_varint::{encode_varint, take_varint, DecodeError};

#[test]
fn parse_varint_simple() {
    assert_eq!(
        take_varint(&[0x0b, 0x01, 0x02, 0x03]),
        Ok((b"\x01\x02\x03" as &[u8], 11))
    );
}

#[test]
fn parse_varint_twobyte() {
    assert_eq!(
        take_varint(&[0x84, 0x02, 0x04, 0x05, 0x06]),
        Ok((b"\x04\x05\x06" as &[u8], 260))
    );
}

#[test]
fn single_byte_boundary() {
    // values up to 127 occupy exactly one byte, with no continuation bit
    assert_eq!(take_varint(&[0x0b]), Ok((&[] as &[u8], 11)));
    assert_eq!(take_varint(&[0x00]), Ok((&[] as &[u8], 0)));
    assert_eq!(take_varint(&[0x7f]), Ok((&[] as &[u8], 127)));
}

#[test]
fn multi_byte_composition() {
    // 300 = 0x2c | (0x02 << 7), encoded as [0xac, 0x02]
    assert_eq!(take_varint(&[0xac, 0x02]), Ok((&[] as &[u8], 300)));
    assert_eq!(300, 0x2c | (0x02 << 7));
    // the payload of 0x8c is 0x0c, so [0x8c, 0x02] denotes 0x0c | (0x02 << 7)
    assert_eq!(take_varint(&[0x8c, 0x02]), Ok((&[] as &[u8], 0x0c | (0x02 << 7))));
}

#[test]
fn trailing_data_preserved() {
    // only the varint's own bytes are consumed
    assert_eq!(
        take_varint(&[0x0b, 0x01, 0x02, 0x03]),
        Ok((&[0x01u8, 0x02, 0x03] as &[u8], 11))
    );
}

#[test]
fn two_byte_with_trailer() {
    assert_eq!(
        take_varint(&[0x84, 0x02, 0x04, 0x05, 0x06]),
        Ok((&[0x04u8, 0x05, 0x06] as &[u8], 260))
    );
}

#[test]
fn truncated_input() {
    // continuation bit set, no following byte
    assert_eq!(take_varint(&[0x84]), Err(DecodeError::InsufficientData));
    // still truncated after several continuation bytes
    assert_eq!(
        take_varint(&[0x80, 0x80, 0x80]),
        Err(DecodeError::InsufficientData)
    );
}

#[test]
fn empty_input() {
    assert_eq!(take_varint(&[]), Err(DecodeError::InsufficientData));
}

#[test]
fn overflow_rejected() {
    // ten bytes of maximal payload: the tenth byte's shifted payload no
    // longer fits in a 64-bit accumulator
    assert_eq!(take_varint(&[0xff; 10]), Err(DecodeError::MalformedVarint));
    // eleven continuation bytes push the shift past the accumulator's width
    // even though every payload is zero
    assert_eq!(
        take_varint(&[0x80, 0x80, 0x80, 0x80, 0x80, 0x80, 0x80, 0x80, 0x80, 0x80, 0x01]),
        Err(DecodeError::MalformedVarint)
    );
}

#[test]
fn encode_exact() {
    assert_eq!(encode_varint(0), vec![0x00]);
    assert_eq!(encode_varint(11), vec![0x0b]);
    assert_eq!(encode_varint(127), vec![0x7f]);
    assert_eq!(encode_varint(128), vec![0x80, 0x01]);
    assert_eq!(encode_varint(260), vec![0x84, 0x02]);
    assert_eq!(encode_varint(300), vec![0xac, 0x02]);
}

#[test]
fn round_trip() {
    let values: Vec<usize> = vec![
        0,
        1,
        11,
        127,
        128,
        260,
        300,
        16383,
        16384,
        u32::MAX as usize,
        usize::MAX / 2,
        usize::MAX - 1,
        usize::MAX,
    ];
    for v in values {
        let encoded = encode_varint(v);
        assert_eq!(take_varint(&encoded), Ok((&[] as &[u8], v)));
    }
}

#[test]
fn round_trip_with_trailer() {
    let mut bytes = encode_varint(300);
    bytes.push(0xaa);
    bytes.push(0xbb);
    assert_eq!(take_varint(&bytes), Ok((&[0xaau8, 0xbb] as &[u8], 300)));
}
