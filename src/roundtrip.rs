//! Decoding what was encoded gives the value back.
//!
//! Each law below holds whatever bytes follow the encoding, and leaves
//! exactly those bytes unread; so the laws compose along the fields of a
//! tuple or struct, the elements of a sequence and the entries of a map,
//! each of which is the plain concatenation of its parts after an optional
//! length or variant index.

use crate::de::{
    Error, Parsed, parse_bool, parse_byte, parse_char, parse_f32_bits, parse_f64_bits, parse_i128,
    parse_i16, parse_i32, parse_i64, parse_i8, parse_option, parse_blob, parse_str, parse_u128,
    parse_u16, parse_u32, parse_u64, parse_variant,
};
use crate::layout::{le_bytes, lemma_from_le_bytes, lemma_le_bytes_len};
use crate::ser::{blob_bytes, bool_bytes, char_bytes, signed_bytes, str_bytes, u128_bytes};
use crate::varuint::{
    extra_len, lemma_pow256_pos, lemma_pow256_values, lemma_varint_round_trip, pow256, varint,
};
use crate::zigzag::{lemma_unzigzag_zigzag, unzigzag, zigzag};
use vstd::arithmetic::div_mod::{lemma_fundamental_div_mod, lemma_small_mod};
use vstd::arithmetic::power2::{lemma2_to64, lemma2_to64_rest, pow2};
use vstd::prelude::*;
use vstd::utf8::{char_is_scalar, char_u32_cast, encode_utf8, encode_utf8_decode_utf8, encode_utf8_valid_utf8};

verus! {

/// Reading `parsed` from `enc + rest` gave `v`, took exactly the bytes of
/// `enc`, and leaves `rest` unread.
pub open spec fn reads_back<T>(parsed: Parsed<T>, v: T, enc: Seq<u8>, rest: Seq<u8>) -> bool {
    &&& parsed == Ok::<(T, nat), (Error, nat)>((v, enc.len()))
    &&& (enc + rest).skip(enc.len() as int) == rest
}

pub(crate) proof fn lemma_skip_prefix(enc: Seq<u8>, rest: Seq<u8>)
    ensures
        (enc + rest).skip(enc.len() as int) == rest,
{
    assert((enc + rest).skip(enc.len() as int) =~= rest);
}

/// A variable-length integer of up to 64 bits reads back.
pub proof fn lemma_round_trip_u64(v: u64, rest: Seq<u8>)
    ensures
        reads_back(parse_u64(varint(v as nat, 8) + rest), v, varint(v as nat, 8), rest),
{
    lemma_pow256_values();
    lemma_varint_round_trip(v as nat, 8, rest);
    lemma_skip_prefix(varint(v as nat, 8), rest);
}

pub proof fn lemma_round_trip_u16(v: u16, rest: Seq<u8>)
    ensures
        reads_back(parse_u16(varint(v as nat, 8) + rest), v, varint(v as nat, 8), rest),
{
    lemma_round_trip_u64(v as u64, rest);
}

pub proof fn lemma_round_trip_u32(v: u32, rest: Seq<u8>)
    ensures
        reads_back(parse_u32(varint(v as nat, 8) + rest), v, varint(v as nat, 8), rest),
{
    lemma_round_trip_u64(v as u64, rest);
}

pub proof fn lemma_round_trip_u128(v: u128, rest: Seq<u8>)
    ensures
        reads_back(parse_u128(u128_bytes(v as nat) + rest), v, u128_bytes(v as nat), rest),
{
    lemma_pow256_values();
    let lo = v as nat % pow256(8);
    let hi = v as nat / pow256(8);
    let e1 = varint(lo, 8);
    let e2 = varint(hi, 8);
    assert(u128_bytes(v as nat) + rest == e1 + (e2 + rest));
    lemma_round_trip_u64(lo as u64, e2 + rest);
    lemma_round_trip_u64(hi as u64, rest);
    lemma_fundamental_div_mod(v as int, pow256(8) as int);
    lemma_skip_prefix(u128_bytes(v as nat), rest);
}

pub proof fn lemma_round_trip_bool(v: bool, rest: Seq<u8>)
    ensures
        reads_back(parse_bool(bool_bytes(v) + rest), v, bool_bytes(v), rest),
{
    lemma_skip_prefix(bool_bytes(v), rest);
}

pub proof fn lemma_round_trip_u8(v: u8, rest: Seq<u8>)
    ensures
        reads_back(parse_byte(seq![v] + rest), v, seq![v], rest),
{
    lemma_skip_prefix(seq![v], rest);
}

pub proof fn lemma_round_trip_i8(v: i8, rest: Seq<u8>)
    ensures
        reads_back(parse_i8(seq![v as u8] + rest), v, seq![v as u8], rest),
{
    assert((v as u8) as i8 == v) by (bit_vector);
    lemma_skip_prefix(seq![v as u8], rest);
}

pub proof fn lemma_round_trip_i16(v: i16, rest: Seq<u8>)
    ensures
        reads_back(parse_i16(signed_bytes(v as int) + rest), v, signed_bytes(v as int), rest),
{
    let u = zigzag(v as int);
    lemma_round_trip_u16(u as u16, rest);
    lemma_unzigzag_zigzag(v as int);
}

pub proof fn lemma_round_trip_i32(v: i32, rest: Seq<u8>)
    ensures
        reads_back(parse_i32(signed_bytes(v as int) + rest), v, signed_bytes(v as int), rest),
{
    let u = zigzag(v as int);
    lemma_round_trip_u32(u as u32, rest);
    lemma_unzigzag_zigzag(v as int);
}

pub proof fn lemma_round_trip_i64(v: i64, rest: Seq<u8>)
    ensures
        reads_back(parse_i64(signed_bytes(v as int) + rest), v, signed_bytes(v as int), rest),
{
    let u = zigzag(v as int);
    lemma_round_trip_u64(u as u64, rest);
    lemma_unzigzag_zigzag(v as int);
}

pub proof fn lemma_round_trip_i128(v: i128, rest: Seq<u8>)
    ensures
        reads_back(
            parse_i128(u128_bytes(zigzag(v as int)) + rest),
            v,
            u128_bytes(zigzag(v as int)),
            rest,
        ),
{
    let u = zigzag(v as int);
    lemma_round_trip_u128(u as u128, rest);
    lemma_unzigzag_zigzag(v as int);
}

/// `k` bytes least significant first, read back.
proof fn lemma_fixed_round_trip(v: nat, k: nat, rest: Seq<u8>)
    requires
        v < pow256(k),
    ensures
        (le_bytes(v, k) + rest).take(k as int) == le_bytes(v, k),
        crate::layout::from_le(le_bytes(v, k)) == v,
        le_bytes(v, k).len() == k,
{
    lemma_le_bytes_len(v, k);
    lemma_from_le_bytes(v, k);
    lemma_pow256_pos(k);
    lemma_small_mod(v, pow256(k));
    assert((le_bytes(v, k) + rest).take(k as int) =~= le_bytes(v, k));
}

pub proof fn lemma_round_trip_f32_bits(bits: u32, rest: Seq<u8>)
    ensures
        reads_back(parse_f32_bits(le_bytes(bits as nat, 4) + rest), bits, le_bytes(bits as nat, 4), rest),
{
    lemma_pow256_values();
    lemma_fixed_round_trip(bits as nat, 4, rest);
    lemma_skip_prefix(le_bytes(bits as nat, 4), rest);
}

pub proof fn lemma_round_trip_f64_bits(bits: u64, rest: Seq<u8>)
    ensures
        reads_back(parse_f64_bits(le_bytes(bits as nat, 8) + rest), bits, le_bytes(bits as nat, 8), rest),
{
    lemma_pow256_values();
    lemma_fixed_round_trip(bits as nat, 8, rest);
    lemma_skip_prefix(le_bytes(bits as nat, 8), rest);
}

/// Every character reads back from its three bytes: code points stop at
/// 0x10FFFF, below the 2^24 that three bytes hold.
pub proof fn lemma_round_trip_char(c: char, rest: Seq<u8>)
    ensures
        reads_back(parse_char(char_bytes(c) + rest), c, char_bytes(c), rest),
{
    lemma_pow256_values();
    char_is_scalar(c);
    assert(c as nat <= 0x10ffff);
    lemma_fixed_round_trip(c as nat, 3, rest);
    char_u32_cast(c, c as u32);
    lemma_skip_prefix(char_bytes(c), rest);
}

/// A blob reads back as the same bytes.
pub proof fn lemma_round_trip_blob(b: Seq<u8>, rest: Seq<u8>)
    requires
        b.len() < pow256(8),
    ensures
        reads_back(parse_blob(blob_bytes(b) + rest), b, blob_bytes(b), rest),
{
    lemma_pow256_values();
    let e = varint(b.len(), 8);
    assert(blob_bytes(b) + rest == e + (b + rest));
    lemma_round_trip_u64(b.len() as u64, b + rest);
    assert((blob_bytes(b) + rest).subrange(e.len() as int, (e.len() + b.len()) as int) =~= b);
    lemma_skip_prefix(blob_bytes(b), rest);
}

/// A string reads back as the same characters.
pub proof fn lemma_round_trip_str(s: Seq<char>, rest: Seq<u8>)
    requires
        encode_utf8(s).len() < pow256(8),
    ensures
        reads_back(parse_str(str_bytes(s) + rest), s, str_bytes(s), rest),
{
    lemma_round_trip_blob(encode_utf8(s), rest);
    encode_utf8_valid_utf8(s);
    encode_utf8_decode_utf8(s);
}

/// The tag of an absent option reads back as absent, that of a present
/// one as present.
pub proof fn lemma_round_trip_option(present: bool, rest: Seq<u8>)
    ensures
        reads_back(
            parse_option(seq![if present { 1u8 } else { 0u8 }] + rest),
            present,
            seq![if present { 1u8 } else { 0u8 }],
            rest,
        ),
{
    lemma_skip_prefix(seq![if present { 1u8 } else { 0u8 }], rest);
}

/// A variant index reads back.
pub proof fn lemma_round_trip_variant(index: u32, rest: Seq<u8>)
    ensures
        reads_back(parse_variant(varint(index as nat, 8) + rest), index, varint(index as nat, 8), rest),
{
    lemma_round_trip_u64(index as u64, rest);
}

/// Encodings are canonical: a 64-bit value takes the smallest of the
/// buckets of 7, 14, ..., 56 bits that holds it, one byte per 7 bits, and
/// nine bytes only when it needs more than 56 bits.
pub proof fn lemma_varint_canonical(v: u64)
    ensures
        varint(v as nat, 8).len() == 1 + extra_len(v as nat),
        extra_len(v as nat) < 8 ==> v < pow2(7 * (extra_len(v as nat) + 1)),
        extra_len(v as nat) > 0 ==> v >= pow2(7 * extra_len(v as nat)),
{
    lemma_pow256_values();
    lemma_varint_round_trip(v as nat, 8, Seq::empty());
    lemma2_to64();
    lemma2_to64_rest();
}

/// The zigzag mapping is a bijection that sends 0, -1 and 1 to 0, 1 and 2.
pub proof fn lemma_zigzag_bijection(v: int, u: nat)
    ensures
        unzigzag(zigzag(v)) == v,
        zigzag(unzigzag(u)) == u,
        zigzag(0) == 0 && zigzag(-1) == 1 && zigzag(1) == 2,
{
    lemma_unzigzag_zigzag(v);
    crate::zigzag::lemma_zigzag_unzigzag(u);
}

/// Bytes that are not UTF-8 fail as a string, once the whole blob has been
/// read, and the same bytes read back as a byte buffer.
pub proof fn lemma_utf8_checked(b: Seq<u8>, rest: Seq<u8>)
    requires
        b.len() < pow256(8),
        !vstd::utf8::valid_utf8(b),
    ensures
        parse_str(blob_bytes(b) + rest) == Err::<(Seq<char>, nat), (Error, nat)>(
            (Error::InvalidUtf8, blob_bytes(b).len()),
        ),
        reads_back(parse_blob(blob_bytes(b) + rest), b, blob_bytes(b), rest),
{
    lemma_round_trip_blob(b, rest);
}

} // verus!
