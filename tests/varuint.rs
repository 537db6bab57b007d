use serde_dokechi::varuint::{decode_u128, decode_u64, encode_u128, encode_u64};

fn run_encode_u64(v: u64) -> Vec<u8> {
    let mut buf = Vec::new();
    encode_u64(&mut buf, v);
    buf
}

#[test]
fn test_encode_u64() {
    assert_eq!(&run_encode_u64(0), &[0b0000_0000]);
    assert_eq!(&run_encode_u64(1), &[0b0000_0001]);
    assert_eq!(&run_encode_u64(127), &[0b0111_1111]);
    assert_eq!(&run_encode_u64(128), &[0b1000_0000, 0b1000_0000]);
    assert_eq!(&run_encode_u64(16383), &[0b1011_1111, 0b1111_1111]);
    assert_eq!(
        &run_encode_u64(16384),
        &[0b1100_0000, 0b0100_0000, 0b0000_0000]
    );

    assert_eq!(
        &run_encode_u64(72057594037927935),
        &[
            0b1111_1110,
            0b1111_1111,
            0b1111_1111,
            0b1111_1111,
            0b1111_1111,
            0b1111_1111,
            0b1111_1111,
            0b1111_1111
        ]
    );
    assert_eq!(
        &run_encode_u64(72057594037927936),
        &[
            0b1111_1111,
            0b0000_0001,
            0b0000_0000,
            0b0000_0000,
            0b0000_0000,
            0b0000_0000,
            0b0000_0000,
            0b0000_0000,
            0b0000_0000
        ]
    );
}

fn decode_test_for_u64(to_be: u64) {
    let mut buf = Vec::new();
    encode_u64(&mut buf, to_be);
    let (actual, used) = decode_u64(buf.as_slice()).expect("decode error");
    assert_eq!(actual, to_be);
    assert_eq!(used, buf.len());
}

#[test]
fn test_decode_u64() {
    decode_test_for_u64(0);
    decode_test_for_u64(1);
    decode_test_for_u64(127);
    decode_test_for_u64(128);
    decode_test_for_u64(16383);
    decode_test_for_u64(16384);
    decode_test_for_u64(2097151);
    decode_test_for_u64(2097152);
    decode_test_for_u64(268435455);
    decode_test_for_u64(268435456);
    decode_test_for_u64(34359738367);
    decode_test_for_u64(34359738368);
    decode_test_for_u64(4398046511103);
    decode_test_for_u64(4398046511104);
    decode_test_for_u64(562949953421311);
    decode_test_for_u64(562949953421312);
    decode_test_for_u64(72057594037927935);
    decode_test_for_u64(72057594037927936);
    decode_test_for_u64(18446744073709551615);
}

fn decode_test_for_u128(to_be: u128) {
    let mut buf = Vec::new();
    encode_u128(&mut buf, to_be);
    let (actual, used) = decode_u128(buf.as_slice()).expect("decode error");
    assert_eq!(actual, to_be);
    assert_eq!(used, buf.len());
}

#[test]
fn test_decode_u128() {
    decode_test_for_u128(0);
    decode_test_for_u128(1);
    decode_test_for_u128(127);
    decode_test_for_u128(128);
    decode_test_for_u128(16383);
    decode_test_for_u128(16384);
    decode_test_for_u128(2097151);
    decode_test_for_u128(2097152);
    decode_test_for_u128(268435455);
    decode_test_for_u128(268435456);
    decode_test_for_u128(34359738367);
    decode_test_for_u128(34359738368);
    decode_test_for_u128(4398046511103);
    decode_test_for_u128(4398046511104);
    decode_test_for_u128(562949953421311);
    decode_test_for_u128(562949953421312);
    decode_test_for_u128(72057594037927935);
    decode_test_for_u128(72057594037927936);
    decode_test_for_u128(18446744073709551615);
    decode_test_for_u128((u64::max_value() as u128) + 1);
    decode_test_for_u128(u128::max_value());
}

#[test]
fn varint_lengths_follow_the_buckets() {
    let cases: [(u64, usize); 8] = [
        (0, 1),
        (127, 1),
        (128, 2),
        (16383, 2),
        (16384, 3),
        ((1u64 << 56) - 1, 8),
        (1u64 << 56, 9),
        (u64::MAX, 9),
    ];
    for (v, len) in cases.iter() {
        assert_eq!(run_encode_u64(*v).len(), *len, "length of {}", v);
    }
}

#[test]
fn varint_of_1024_uses_two_bytes() {
    assert_eq!(run_encode_u64(1024), vec![0x84, 0x00]);
}

#[test]
fn u128_full_form_has_seventeen_bytes() {
    let mut buf = Vec::new();
    encode_u128(&mut buf, u128::MAX);
    assert_eq!(buf.len(), 17);
    assert_eq!(buf[0], 0xff);
    let mut small = Vec::new();
    encode_u128(&mut small, 300);
    assert_eq!(small, vec![0x81, 0x2c]);
}

#[test]
fn truncated_varint_is_not_decoded() {
    assert_eq!(decode_u64(&[]), None);
    assert_eq!(decode_u64(&[0x81]), None);
    assert_eq!(decode_u64(&[0xff, 1, 2, 3, 4, 5, 6, 7]), None);
    assert_eq!(decode_u128(&[0xff, 1, 2, 3, 4, 5, 6, 7, 8]), None);
}

#[test]
fn decoding_stops_at_the_end_of_the_integer() {
    assert_eq!(decode_u64(&[0x81, 0x2c, 0x99]), Some((300, 2)));
    assert_eq!(decode_u64(&[0x05, 0xff]), Some((5, 1)));
}
