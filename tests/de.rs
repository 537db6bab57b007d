use std::collections::{HashMap, HashSet};

use serde_dokechi::de::{Deserializer, Error};
use serde_dokechi::varuint::encode_u64;

fn reader(bs: &[u8]) -> Deserializer {
    Deserializer::new(bs.to_vec())
}

/// Checks that the whole input was used, as a top-level decode does.
fn finish<T>(mut d: Deserializer, v: T) -> T {
    d.end().unwrap();
    v
}

#[test]
fn deserialize_bool_false() {
    let bs = [0u8];
    let mut d = reader(&bs[..]);
    let v = d.deserialize_bool().unwrap();
    let v = finish(d, v);
    assert!(!v);
}

#[test]
fn deserialize_bool_true() {
    let bs = [1u8];
    let mut d = reader(&bs[..]);
    let v = d.deserialize_bool().unwrap();
    let v = finish(d, v);
    assert!(v);
}

#[test]
fn deserialize_bool_fails_with_2() {
    let bs = [2u8];
    let mut d = reader(&bs[..]);
    let e = d.deserialize_bool().unwrap_err();
    assert!(matches!(e, Error::InvalidValue(2, _)));
}

#[test]
fn deserialize_i8() {
    let to_be = -1i8;
    let bs = to_be.to_le_bytes();
    let mut d = reader(&bs[..]);
    let v = d.deserialize_i8().unwrap();
    let v = finish(d, v);
    assert_eq!(v, to_be);
}

#[test]
fn deserialize_i16() {
    let to_be = -1i16;
    // zigzag maps -1 to 1, a one-byte variable-length integer
    let bs = [0x01u8];
    let mut d = reader(&bs[..]);
    let v = d.deserialize_i16().unwrap();
    let v = finish(d, v);
    assert_eq!(v, to_be);
}

#[test]
fn deserialize_i32() {
    let to_be = -1i32;
    // zigzag maps -1 to 1, a one-byte variable-length integer
    let bs = [0x01u8];
    let mut d = reader(&bs[..]);
    let v = d.deserialize_i32().unwrap();
    let v = finish(d, v);
    assert_eq!(v, to_be);
}

#[test]
fn deserialize_i64() {
    let to_be = -1i64;
    // zigzag maps -1 to 1, a one-byte variable-length integer
    let bs = [0x01u8];
    let mut d = reader(&bs[..]);
    let v = d.deserialize_i64().unwrap();
    let v = finish(d, v);
    assert_eq!(v, to_be);
}

#[test]
fn deserialize_i128() {
    let to_be = -1i128;
    // zigzag maps -1 to 1; its low and high 64 bits follow as two
    // variable-length integers
    let bs = [0x01u8, 0x00];
    let mut d = reader(&bs[..]);
    let v = d.deserialize_i128().unwrap();
    let v = finish(d, v);
    assert_eq!(v, to_be);
}

#[test]
fn deserialize_u8() {
    let to_be = 0x12u8;
    let bs = to_be.to_le_bytes();
    let mut d = reader(&bs[..]);
    let v = d.deserialize_u8().unwrap();
    let v = finish(d, v);
    assert_eq!(v, to_be);
}

#[test]
fn deserialize_u16() {
    let to_be = u16::max_value();
    let mut bs = Vec::new();
    encode_u64(&mut bs, to_be as u64);

    let mut d = reader(&bs[..]);
    let v = d.deserialize_u16().unwrap();
    let v = finish(d, v);
    assert_eq!(v, to_be);
}

#[test]
fn deserialize_u32() {
    let to_be = u32::max_value();
    let mut bs = Vec::new();
    encode_u64(&mut bs, to_be as u64);

    let mut d = reader(&bs[..]);
    let v = d.deserialize_u32().unwrap();
    let v = finish(d, v);
    assert_eq!(v, to_be);
}

#[test]
fn deserialize_u64() {
    let to_be = u64::max_value();
    let mut bs = Vec::new();
    encode_u64(&mut bs, to_be as u64);

    let mut d = reader(&bs[..]);
    let v = d.deserialize_u64().unwrap();
    let v = finish(d, v);
    assert_eq!(v, to_be);
}

#[test]
fn deserialize_u128() {
    let to_be = 0x123456789abcdef0123456789abcdefu128;

    let upper = 0xff_ff_ff_ff_ff_ff_ff_ff & (to_be >> 64);
    let lower = 0xff_ff_ff_ff_ff_ff_ff_ff & to_be;

    let mut bs = Vec::new();
    encode_u64(&mut bs, lower as u64);
    encode_u64(&mut bs, upper as u64);

    let mut d = reader(&bs[..]);
    let v = d.deserialize_u128().unwrap();
    let v = finish(d, v);
    assert_eq!(v, to_be);
}

#[test]
fn deserialize_f32() {
    let to_be = 123.45678f32;
    let bs = to_be.to_le_bytes();
    let mut d = reader(&bs[..]);
    let v = f32::from_bits(d.deserialize_f32_bits().unwrap());
    let v = finish(d, v);
    assert_eq!(v, to_be);
}

#[test]
fn deserialize_f64() {
    let to_be = 123.45678f64;
    let bs = to_be.to_le_bytes();
    let mut d = reader(&bs[..]);
    let v = f64::from_bits(d.deserialize_f64_bits().unwrap());
    let v = finish(d, v);
    assert_eq!(v, to_be);
}

#[test]
fn deserialize_char_a() {
    let bs = [0x41, 0x00, 0x00]; // A
    let mut d = reader(&bs[..]);
    let v = d.deserialize_char().unwrap();
    let v = finish(d, v);
    assert_eq!(v, 'A');
}

#[test]
fn deserialize_char_2byte() {
    let bs = [0x9e, 0x8a, 0x00]; // 語
    let mut d = reader(&bs[..]);
    let v = d.deserialize_char().unwrap();
    let v = finish(d, v);
    assert_eq!(v, '語');
}

#[test]
fn deserialize_char_3byte() {
    let bs = [0x3c, 0x12, 0x02]; // 𡈼
    let mut d = reader(&bs[..]);
    let v = d.deserialize_char().unwrap();
    let v = finish(d, v);
    assert_eq!(v, '𡈼');
}

#[test]
fn deserialize_str() {
    let to_be = "sample例";
    let mut bs = Vec::new();
    encode_u64(&mut bs, to_be.len() as u64);
    bs.extend(to_be.as_bytes().iter());

    let mut d = reader(bs.as_slice());
    let v = d.deserialize_string().unwrap();
    let v = finish(d, v);
    assert_eq!(&v, to_be);
}

#[test]
fn deserialize_long_str() {
    let mut to_be = String::new();
    for _ in 0..0x100000 {
        to_be.push_str("sample text");
    }

    let mut bs = Vec::new();
    encode_u64(&mut bs, to_be.len() as u64);
    bs.extend(to_be.as_bytes().iter());

    let mut d = reader(bs.as_slice());
    let v = d.deserialize_string().unwrap();
    let v = finish(d, v);
    assert_eq!(v, to_be);
}

fn decode_option_u8(d: &mut Deserializer) -> Option<u8> {
    if d.deserialize_option().unwrap() {
        Some(d.deserialize_u8().unwrap())
    } else {
        None
    }
}

#[test]
fn deserialize_option_none_u8() {
    let bs = [0u8];
    let mut d = reader(&bs[..]);
    let v = decode_option_u8(&mut d);
    let v = finish(d, v);
    assert_eq!(v, None);
}

#[test]
fn deserialize_option_some_u8() {
    let bs = [1u8, 123];
    let mut d = reader(&bs[..]);
    let v = decode_option_u8(&mut d);
    let v = finish(d, v);
    assert_eq!(v, Some(123));
}

#[test]
fn deserialize_unit() {
    let bs: [u8; 0] = [];
    let d = reader(&bs[..]);
    let v = finish(d, ());
    assert_eq!(v, ());
}

#[derive(Debug, PartialEq)]
struct UnitStruct;

#[test]
fn deserialize_unit_struct() {
    let bs: [u8; 0] = [];
    let d = reader(&bs[..]);
    let v = finish(d, UnitStruct);
    assert_eq!(v, UnitStruct);
}

#[derive(Debug, PartialEq)]
struct NewtypeStruct(u8);

#[test]
fn deserialize_newtype_struct() {
    let bs = [123u8];
    let mut d = reader(&bs[..]);
    let v = NewtypeStruct(d.deserialize_u8().unwrap());
    let v = finish(d, v);
    assert_eq!(v, NewtypeStruct(123));
}

#[test]
fn deserialize_vec() {
    let bs = [3u8, 1, 2, 3];
    let mut d = reader(&bs[..]);
    let mut access = d.deserialize_seq().unwrap();
    let mut v = Vec::new();
    while access.next_element() {
        v.push(d.deserialize_u8().unwrap());
    }
    let v = finish(d, v);
    assert_eq!(v, vec![1, 2, 3]);
}

#[test]
fn deserialize_hashset() {
    let bs = [3u8, 1, 2, 3];
    let mut d = reader(&bs[..]);
    let mut access = d.deserialize_seq().unwrap();
    let mut v = HashSet::<u8>::new();
    while access.next_element() {
        v.insert(d.deserialize_u8().unwrap());
    }
    let v = finish(d, v);

    let mut to_be = HashSet::<u8>::new();
    to_be.insert(1);
    to_be.insert(2);
    to_be.insert(3);

    assert_eq!(v, to_be);
}

fn decode_u8_u16_u8(d: &mut Deserializer) -> (u8, u16, u8) {
    let mut access = d.deserialize_tuple(3);
    assert!(access.next_element());
    let a = d.deserialize_u8().unwrap();
    assert!(access.next_element());
    let b = d.deserialize_u16().unwrap();
    assert!(access.next_element());
    let c = d.deserialize_u8().unwrap();
    assert!(!access.next_element());
    (a, b, c)
}

#[test]
fn deserialize_tuple() {
    let bs = [1u8, 2, 3];
    let mut d = reader(&bs[..]);
    let v = decode_u8_u16_u8(&mut d);
    let v = finish(d, v);
    assert_eq!(v, (1u8, 2u16, 3u8));
}

#[derive(Debug, PartialEq)]
struct TupleStruct(u8, u16, u8);

#[test]
fn deserialize_tuple_struct() {
    let bs = [1u8, 2, 3];
    let mut d = reader(&bs[..]);
    let (a, b, c) = decode_u8_u16_u8(&mut d);
    let v = finish(d, TupleStruct(a, b, c));
    assert_eq!(v, TupleStruct(1u8, 2u16, 3u8));
}

#[test]
fn deserialize_hashmap() {
    let mut bs = vec![3u8];
    bs.push(1);
    encode_u64(&mut bs, 1024);
    bs.push(2);
    encode_u64(&mut bs, 1025);
    bs.push(3);
    encode_u64(&mut bs, 1026);

    let mut d = reader(&bs[..]);
    let mut access = d.deserialize_map().unwrap();
    let mut v = HashMap::<u8, u16>::new();
    while access.next_element() {
        let key = d.deserialize_u8().unwrap();
        let value = d.deserialize_u16().unwrap();
        v.insert(key, value);
    }
    let v = finish(d, v);

    let mut to_be = HashMap::<u8, u16>::new();
    to_be.insert(1, 1024);
    to_be.insert(2, 1025);
    to_be.insert(3, 1026);

    assert_eq!(v, to_be);
}

#[derive(Debug, PartialEq)]
struct BasicStruct {
    id: u64,
    name: String,
    score: f32,
}

#[test]
fn deserialize_struct() {
    let actual_name = "岸田　宏";

    let mut bs = Vec::<u8>::new();

    encode_u64(&mut bs, 123);
    encode_u64(&mut bs, actual_name.len() as u64);
    bs.extend(actual_name.as_bytes());
    bs.extend(&97.3f32.to_le_bytes()[..]);

    let mut d = reader(&bs[..]);
    let mut access = d.deserialize_tuple(3);
    assert_eq!(access.size_hint(), 3);
    let id = d.deserialize_u64().unwrap();
    let name = d.deserialize_string().unwrap();
    let score = f32::from_bits(d.deserialize_f32_bits().unwrap());
    while access.next_element() {}
    let v = finish(d, BasicStruct { id, name, score });
    assert_eq!(v.id, 123);
    assert_eq!(&v.name, actual_name);
    assert_eq!(v.score, 97.3f32);
}

#[derive(Debug, PartialEq)]
enum BasicEnum {
    UnitA,
    UnitB,
    Newtype(String),
    Tuple(u16, String),
    Struct { x: u8, y: u8 },
}

fn decode_basic_enum(d: &mut Deserializer) -> BasicEnum {
    match d.deserialize_enum().unwrap() {
        0 => BasicEnum::UnitA,
        1 => BasicEnum::UnitB,
        2 => BasicEnum::Newtype(d.deserialize_string().unwrap()),
        3 => {
            let _ = d.deserialize_tuple(2);
            let a = d.deserialize_u16().unwrap();
            let b = d.deserialize_string().unwrap();
            BasicEnum::Tuple(a, b)
        }
        4 => {
            let _ = d.deserialize_tuple(2);
            let x = d.deserialize_u8().unwrap();
            let y = d.deserialize_u8().unwrap();
            BasicEnum::Struct { x, y }
        }
        i => panic!("no variant {}", i),
    }
}

#[test]
fn deserialize_enum_unit_variant_a() {
    let bs = [0u8];
    let mut d = reader(&bs[..]);
    let v = decode_basic_enum(&mut d);
    let v = finish(d, v);
    assert_eq!(v, BasicEnum::UnitA);
}

#[test]
fn deserialize_enum_unit_variant_b() {
    let bs = [1u8];
    let mut d = reader(&bs[..]);
    let v = decode_basic_enum(&mut d);
    let v = finish(d, v);
    assert_eq!(v, BasicEnum::UnitB);
}

#[test]
fn deserialize_enum_newtype_variant() {
    let bs = [2u8, 4, b'b', b'i', b'i', b'm'];
    let mut d = reader(&bs[..]);
    let v = decode_basic_enum(&mut d);
    let v = finish(d, v);
    assert_eq!(v, BasicEnum::Newtype("biim".to_owned()));
}

#[test]
fn deserialize_enum_tuple_variant() {
    let mut bs = vec![3u8];
    encode_u64(&mut bs, 0x1234);
    encode_u64(&mut bs, 3);
    bs.extend(b"Abe");

    let mut d = reader(&bs[..]);
    let v = decode_basic_enum(&mut d);
    let v = finish(d, v);
    assert_eq!(v, BasicEnum::Tuple(0x1234, "Abe".to_owned()));
}

#[test]
fn deserialize_enum_struct_variant() {
    let bs = [4u8, 7, 255];
    let mut d = reader(&bs[..]);
    let v = decode_basic_enum(&mut d);
    let v = finish(d, v);
    assert_eq!(v, BasicEnum::Struct { x: 7, y: 255 });
}
