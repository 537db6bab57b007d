//! A model of whole values, primitive and compound, and of the shapes a
//! reader asks for; the round trip holds for every value of a shape.
//!
//! A value is written as the calls of [`crate::ser::Serializer`] that
//! encode it append, and read back as the calls of
//! [`crate::de::Deserializer`] that its shape makes: [`encode`] and
//! [`decode`] put together the very byte layouts and parse results that
//! those methods are specified with.

use crate::de::{
    Error, Parsed, parse_blob, parse_bool, parse_byte, parse_char, parse_f32_bits, parse_f64_bits,
    parse_i128, parse_i16, parse_i32, parse_i64, parse_i8, parse_option, parse_str, parse_u128,
    parse_u16, parse_u32, parse_u64, parse_variant,
};
use crate::layout::le_bytes;
use crate::roundtrip::{
    lemma_round_trip_blob, lemma_round_trip_bool, lemma_round_trip_char, lemma_round_trip_f32_bits,
    lemma_round_trip_f64_bits, lemma_round_trip_i128, lemma_round_trip_i16, lemma_round_trip_i32,
    lemma_round_trip_i64, lemma_round_trip_i8, lemma_round_trip_option, lemma_round_trip_str,
    lemma_round_trip_u128, lemma_round_trip_u16, lemma_round_trip_u32, lemma_round_trip_u64,
    lemma_round_trip_u8, lemma_round_trip_variant, lemma_skip_prefix, reads_back,
};
use crate::ser::{blob_bytes, bool_bytes, char_bytes, signed_bytes, str_bytes, u128_bytes};
use crate::varuint::{lemma_pow256_values, pow256, varint};
use crate::zigzag::zigzag;
use vstd::prelude::*;
use vstd::utf8::encode_utf8;

verus! {

/// What a reader asks for: the type of a value.
pub enum Shape {
    Bool,
    I8,
    I16,
    I32,
    I64,
    I128,
    U8,
    U16,
    U32,
    U64,
    U128,
    F32,
    F64,
    Char,
    Str,
    Bytes,
    /// Unit, unit structs: no bytes.
    Unit,
    Option(Box<Shape>),
    /// Sequences and sets; a map is a sequence of key-value tuples.
    Sequence(Box<Shape>),
    /// Tuples and structs, field by field.
    Tuple(Seq<Shape>),
    /// The fields of each variant of an enum, by variant index.
    Enum(Seq<Seq<Shape>>),
}

/// A value as the writer sees it; floats by their bit patterns.
pub enum Value {
    Bool(bool),
    I8(i8),
    I16(i16),
    I32(i32),
    I64(i64),
    I128(i128),
    U8(u8),
    U16(u16),
    U32(u32),
    U64(u64),
    U128(u128),
    F32(u32),
    F64(u64),
    Char(char),
    Str(Seq<char>),
    Bytes(Seq<u8>),
    Unit,
    Absent,
    Present(Box<Value>),
    Sequence(Seq<Value>),
    Tuple(Seq<Value>),
    Variant(u32, Seq<Value>),
}

/// `v` is a value of shape `t` that can be written: every length fits in
/// 64 bits.
pub open spec fn has_shape(v: Value, t: Shape) -> bool
    decreases v, 0nat,
{
    match (v, t) {
        (Value::Bool(_), Shape::Bool) => true,
        (Value::I8(_), Shape::I8) => true,
        (Value::I16(_), Shape::I16) => true,
        (Value::I32(_), Shape::I32) => true,
        (Value::I64(_), Shape::I64) => true,
        (Value::I128(_), Shape::I128) => true,
        (Value::U8(_), Shape::U8) => true,
        (Value::U16(_), Shape::U16) => true,
        (Value::U32(_), Shape::U32) => true,
        (Value::U64(_), Shape::U64) => true,
        (Value::U128(_), Shape::U128) => true,
        (Value::F32(_), Shape::F32) => true,
        (Value::F64(_), Shape::F64) => true,
        (Value::Char(_), Shape::Char) => true,
        (Value::Str(s), Shape::Str) => encode_utf8(s).len() < pow256(8),
        (Value::Bytes(b), Shape::Bytes) => b.len() < pow256(8),
        (Value::Unit, Shape::Unit) => true,
        (Value::Absent, Shape::Option(_)) => true,
        (Value::Present(x), Shape::Option(u)) => has_shape(*x, *u),
        (Value::Sequence(vs), Shape::Sequence(u)) => vs.len() < pow256(8) && all_have_shape(vs, *u, 0),
        (Value::Tuple(vs), Shape::Tuple(ts)) => vs.len() == ts.len() && each_has_shape(vs, ts, 0),
        (Value::Variant(i, vs), Shape::Enum(vts)) => i < vts.len() && vs.len() == vts[i as int].len()
            && each_has_shape(vs, vts[i as int], 0),
        _ => false,
    }
}

/// Every element of `vs` from `i` on has shape `t`.
pub open spec fn all_have_shape(vs: Seq<Value>, t: Shape, i: nat) -> bool
    decreases vs, vs.len() - i,
{
    if i >= vs.len() {
        true
    } else {
        has_shape(vs[i as int], t) && all_have_shape(vs, t, i + 1)
    }
}

/// Every element of `vs` from `i` on has the shape at the same place in
/// `ts`.
pub open spec fn each_has_shape(vs: Seq<Value>, ts: Seq<Shape>, i: nat) -> bool
    decreases vs, vs.len() - i,
{
    if i >= vs.len() || i >= ts.len() {
        true
    } else {
        has_shape(vs[i as int], ts[i as int]) && each_has_shape(vs, ts, i + 1)
    }
}

/// The bytes that writing `v` appends.
pub open spec fn encode(v: Value) -> Seq<u8>
    decreases v, 0nat,
{
    match v {
        Value::Bool(b) => bool_bytes(b),
        Value::I8(x) => seq![x as u8],
        Value::I16(x) => signed_bytes(x as int),
        Value::I32(x) => signed_bytes(x as int),
        Value::I64(x) => signed_bytes(x as int),
        Value::I128(x) => u128_bytes(zigzag(x as int)),
        Value::U8(x) => seq![x],
        Value::U16(x) => varint(x as nat, 8),
        Value::U32(x) => varint(x as nat, 8),
        Value::U64(x) => varint(x as nat, 8),
        Value::U128(x) => u128_bytes(x as nat),
        Value::F32(bits) => le_bytes(bits as nat, 4),
        Value::F64(bits) => le_bytes(bits as nat, 8),
        Value::Char(c) => char_bytes(c),
        Value::Str(s) => str_bytes(s),
        Value::Bytes(b) => blob_bytes(b),
        Value::Unit => Seq::empty(),
        Value::Absent => seq![0u8],
        Value::Present(x) => seq![1u8] + encode(*x),
        Value::Sequence(vs) => varint(vs.len(), 8) + encode_from(vs, 0),
        Value::Tuple(vs) => encode_from(vs, 0),
        Value::Variant(i, vs) => varint(i as nat, 8) + encode_from(vs, 0),
    }
}

/// The elements of `vs` from `i` on, one after the other.
pub open spec fn encode_from(vs: Seq<Value>, i: nat) -> Seq<u8>
    decreases vs, vs.len() - i,
{
    if i >= vs.len() {
        Seq::empty()
    } else {
        encode(vs[i as int]) + encode_from(vs, i + 1)
    }
}

/// Wraps a primitive parse result as a value.
pub open spec fn lift<T>(r: Parsed<T>, f: spec_fn(T) -> Value) -> Parsed<Value> {
    match r {
        Ok((x, n)) => Ok((f(x), n)),
        Err(e) => Err(e),
    }
}

/// Reads a value of shape `t` from the front of `s`: the value and the
/// number of bytes it took, or the error and the bytes read before it.
pub open spec fn decode(t: Shape, s: Seq<u8>) -> Parsed<Value>
    decreases t, 0nat,
{
    match t {
        Shape::Bool => lift(parse_bool(s), |x: bool| Value::Bool(x)),
        Shape::I8 => lift(parse_i8(s), |x: i8| Value::I8(x)),
        Shape::I16 => lift(parse_i16(s), |x: i16| Value::I16(x)),
        Shape::I32 => lift(parse_i32(s), |x: i32| Value::I32(x)),
        Shape::I64 => lift(parse_i64(s), |x: i64| Value::I64(x)),
        Shape::I128 => lift(parse_i128(s), |x: i128| Value::I128(x)),
        Shape::U8 => lift(parse_byte(s), |x: u8| Value::U8(x)),
        Shape::U16 => lift(parse_u16(s), |x: u16| Value::U16(x)),
        Shape::U32 => lift(parse_u32(s), |x: u32| Value::U32(x)),
        Shape::U64 => lift(parse_u64(s), |x: u64| Value::U64(x)),
        Shape::U128 => lift(parse_u128(s), |x: u128| Value::U128(x)),
        Shape::F32 => lift(parse_f32_bits(s), |x: u32| Value::F32(x)),
        Shape::F64 => lift(parse_f64_bits(s), |x: u64| Value::F64(x)),
        Shape::Char => lift(parse_char(s), |x: char| Value::Char(x)),
        Shape::Str => lift(parse_str(s), |x: Seq<char>| Value::Str(x)),
        Shape::Bytes => lift(parse_blob(s), |x: Seq<u8>| Value::Bytes(x)),
        Shape::Unit => Ok((Value::Unit, 0)),
        Shape::Option(u) => match parse_option(s) {
            Ok((false, n)) => Ok((Value::Absent, n)),
            Ok((true, n)) => match decode(*u, s.skip(n as int)) {
                Ok((x, m)) => Ok((Value::Present(Box::new(x)), n + m)),
                Err((e, m)) => Err((e, n + m)),
            },
            Err(e) => Err(e),
        },
        Shape::Sequence(u) => match parse_u64(s) {
            Ok((len, n)) => match decode_count(*u, len as nat, s.skip(n as int)) {
                Ok((vs, m)) => Ok((Value::Sequence(vs), n + m)),
                Err((e, m)) => Err((e, n + m)),
            },
            Err(e) => Err(e),
        },
        Shape::Tuple(ts) => match decode_each(ts, 0, s) {
            Ok((vs, m)) => Ok((Value::Tuple(vs), m)),
            Err(e) => Err(e),
        },
        Shape::Enum(vts) => match parse_variant(s) {
            Ok((i, n)) => if i < vts.len() {
                match decode_each(vts[i as int], 0, s.skip(n as int)) {
                    Ok((vs, m)) => Ok((Value::Variant(i, vs), n + m)),
                    Err((e, m)) => Err((e, n + m)),
                }
            } else {
                Err((Error::InvalidValue(i as u64, "variant index"), n))
            },
            Err(e) => Err(e),
        },
    }
}

/// Reads `count` values of shape `t`, one after the other.
pub open spec fn decode_count(t: Shape, count: nat, s: Seq<u8>) -> Parsed<Seq<Value>>
    decreases t, count + 1,
{
    if count == 0 {
        Ok((Seq::empty(), 0))
    } else {
        match decode(t, s) {
            Ok((v, n)) => match decode_count(t, (count - 1) as nat, s.skip(n as int)) {
                Ok((vs, m)) => Ok((seq![v] + vs, n + m)),
                Err((e, m)) => Err((e, n + m)),
            },
            Err(e) => Err(e),
        }
    }
}

/// Reads one value of each shape of `ts` from `i` on, one after the other.
pub open spec fn decode_each(ts: Seq<Shape>, i: nat, s: Seq<u8>) -> Parsed<Seq<Value>>
    decreases ts, ts.len() - i,
{
    if i >= ts.len() {
        Ok((Seq::empty(), 0))
    } else {
        match decode(ts[i as int], s) {
            Ok((v, n)) => match decode_each(ts, i + 1, s.skip(n as int)) {
                Ok((vs, m)) => Ok((seq![v] + vs, n + m)),
                Err((e, m)) => Err((e, n + m)),
            },
            Err(e) => Err(e),
        }
    }
}


/// Every value of a shape reads back from its encoding as a value of that
/// shape, whatever bytes follow it, and leaves those bytes unread.
pub proof fn lemma_round_trip_value(v: Value, t: Shape, rest: Seq<u8>)
    requires
        has_shape(v, t),
    ensures
        reads_back(decode(t, encode(v) + rest), v, encode(v), rest),
    decreases v, 0nat,
{
    lemma_skip_prefix(encode(v), rest);
    match (v, t) {
        (Value::Bool(x), Shape::Bool) => lemma_round_trip_bool(x, rest),
        (Value::I8(x), Shape::I8) => lemma_round_trip_i8(x, rest),
        (Value::I16(x), Shape::I16) => lemma_round_trip_i16(x, rest),
        (Value::I32(x), Shape::I32) => lemma_round_trip_i32(x, rest),
        (Value::I64(x), Shape::I64) => lemma_round_trip_i64(x, rest),
        (Value::I128(x), Shape::I128) => lemma_round_trip_i128(x, rest),
        (Value::U8(x), Shape::U8) => lemma_round_trip_u8(x, rest),
        (Value::U16(x), Shape::U16) => lemma_round_trip_u16(x, rest),
        (Value::U32(x), Shape::U32) => lemma_round_trip_u32(x, rest),
        (Value::U64(x), Shape::U64) => lemma_round_trip_u64(x, rest),
        (Value::U128(x), Shape::U128) => lemma_round_trip_u128(x, rest),
        (Value::F32(x), Shape::F32) => lemma_round_trip_f32_bits(x, rest),
        (Value::F64(x), Shape::F64) => lemma_round_trip_f64_bits(x, rest),
        (Value::Char(x), Shape::Char) => lemma_round_trip_char(x, rest),
        (Value::Str(x), Shape::Str) => lemma_round_trip_str(x, rest),
        (Value::Bytes(x), Shape::Bytes) => lemma_round_trip_blob(x, rest),
        (Value::Unit, Shape::Unit) => {
            assert(encode(v) + rest == rest);
        },
        (Value::Absent, Shape::Option(_)) => lemma_round_trip_option(false, rest),
        (Value::Present(x), Shape::Option(u)) => {
            let inner = encode(*x) + rest;
            assert(encode(v) + rest == seq![1u8] + inner);
            lemma_round_trip_option(true, inner);
            lemma_round_trip_value(*x, *u, rest);
        },
        (Value::Sequence(vs), Shape::Sequence(u)) => {
            let body = encode_from(vs, 0) + rest;
            let head = varint(vs.len(), 8);
            assert(encode(v) + rest == head + body);
            lemma_pow256_values();
            lemma_round_trip_u64(vs.len() as u64, body);
            lemma_decode_count(vs, *u, 0, rest);
            assert(vs.subrange(0, vs.len() as int) == vs);
        },
        (Value::Tuple(vs), Shape::Tuple(ts)) => {
            lemma_decode_each(vs, ts, 0, rest);
            assert(vs.subrange(0, vs.len() as int) == vs);
        },
        (Value::Variant(i, vs), Shape::Enum(vts)) => {
            let body = encode_from(vs, 0) + rest;
            let head = varint(i as nat, 8);
            assert(encode(v) + rest == head + body);
            lemma_round_trip_variant(i, body);
            lemma_decode_each(vs, vts[i as int], 0, rest);
            assert(vs.subrange(0, vs.len() as int) == vs);
        },
        _ => {},
    }
}

proof fn lemma_decode_count(vs: Seq<Value>, t: Shape, i: nat, rest: Seq<u8>)
    requires
        i <= vs.len(),
        all_have_shape(vs, t, i),
    ensures
        decode_count(t, (vs.len() - i) as nat, encode_from(vs, i) + rest) == Ok::<
            (Seq<Value>, nat),
            (Error, nat),
        >((vs.subrange(i as int, vs.len() as int), encode_from(vs, i).len())),
    decreases vs, vs.len() - i,
{
    if i < vs.len() {
        let tail = encode_from(vs, i + 1) + rest;
        assert(encode_from(vs, i) + rest == encode(vs[i as int]) + tail);
        lemma_round_trip_value(vs[i as int], t, tail);
        lemma_decode_count(vs, t, i + 1, rest);
        assert(seq![vs[i as int]] + vs.subrange(i + 1 as int, vs.len() as int) == vs.subrange(
            i as int,
            vs.len() as int,
        ));
    } else {
        assert(vs.subrange(i as int, vs.len() as int) == Seq::<Value>::empty());
    }
}

proof fn lemma_decode_each(vs: Seq<Value>, ts: Seq<Shape>, i: nat, rest: Seq<u8>)
    requires
        i <= vs.len(),
        vs.len() == ts.len(),
        each_has_shape(vs, ts, i),
    ensures
        decode_each(ts, i, encode_from(vs, i) + rest) == Ok::<(Seq<Value>, nat), (Error, nat)>(
            (vs.subrange(i as int, vs.len() as int), encode_from(vs, i).len()),
        ),
    decreases vs, vs.len() - i,
{
    if i < vs.len() {
        let tail = encode_from(vs, i + 1) + rest;
        assert(encode_from(vs, i) + rest == encode(vs[i as int]) + tail);
        lemma_round_trip_value(vs[i as int], ts[i as int], tail);
        lemma_decode_each(vs, ts, i + 1, rest);
        assert(seq![vs[i as int]] + vs.subrange(i + 1 as int, vs.len() as int) == vs.subrange(
            i as int,
            vs.len() as int,
        ));
    } else {
        assert(vs.subrange(i as int, vs.len() as int) == Seq::<Value>::empty());
    }
}

} // verus!
