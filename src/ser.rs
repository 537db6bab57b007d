//! The writer: turns a traversal of a value into bytes.

use crate::layout::{le_bytes, push_le};
use crate::varuint::{encode_u64, lemma_pow256_values, pow256, varint};
use crate::zigzag::{zigzag, zigzag_i128, zigzag_i16, zigzag_i32, zigzag_i64};
use vstd::prelude::*;
use vstd::utf8::encode_utf8;

verus! {

/// The bytes of a boolean: 1 for true, 0 for false.
pub open spec fn bool_bytes(v: bool) -> Seq<u8> {
    seq![if v { 1u8 } else { 0u8 }]
}

/// The bytes of a 128-bit unsigned value: its low and then its high 64 bits,
/// each as a variable-length integer.
pub open spec fn u128_bytes(v: nat) -> Seq<u8> {
    varint(v % pow256(8), 8) + varint(v / pow256(8), 8)
}

/// The bytes of a signed value wider than 8 bits, up to 64 bits.
pub open spec fn signed_bytes(v: int) -> Seq<u8> {
    varint(zigzag(v), 8)
}

/// The bytes of a character: the low three bytes of its code point,
/// least significant first.
pub open spec fn char_bytes(c: char) -> Seq<u8> {
    le_bytes(c as nat, 3)
}

/// A length-prefixed blob: the byte count, then the bytes.
pub open spec fn blob_bytes(b: Seq<u8>) -> Seq<u8> {
    varint(b.len(), 8) + b
}

/// A string: the blob of its UTF-8 encoding.
pub open spec fn str_bytes(s: Seq<char>) -> Seq<u8> {
    blob_bytes(encode_utf8(s))
}

/// Why an encoding could not go on.
#[derive(Debug)]
pub enum Error {
    /// A sequence or a map was begun without its number of elements.
    NoSequenceSize,
    /// An error raised by the code that walks the value.
    Other(String),
}

/// Encodes a value, one shape at a time, onto the end of a byte buffer.
///
/// Tuples, structs and the payload of a variant take no bytes of their own:
/// their fields follow one another. Sequences and maps begin with their
/// element count ([`Serializer::serialize_seq`]), then their elements, keys
/// and values alternating in a map.
#[derive(Debug)]
pub struct Serializer {
    out: Vec<u8>,
}

impl View for Serializer {
    type V = Seq<u8>;

    /// The bytes written and not yet handed over by [`Serializer::end`].
    closed spec fn view(&self) -> Seq<u8> {
        self.out@
    }
}

/// Appends `bytes` to `out`.
fn push_all(out: &mut Vec<u8>, bytes: &[u8])
    ensures
        final(out)@ == old(out)@ + bytes@,
{
    let mut i: usize = 0;
    while i < bytes.len()
        invariant
            i <= bytes@.len(),
            out@ == old(out)@ + bytes@.subrange(0, i as int),
        decreases bytes@.len() - i,
    {
        out.push(bytes[i]);
        i = i + 1;
        proof {
            assert(out@ =~= old(out)@ + bytes@.subrange(0, i as int));
        }
    }
    proof {
        assert(bytes@.subrange(0, bytes@.len() as int) == bytes@);
    }
}

impl Serializer {
    /// A serializer that writes after the bytes already in `out`.
    pub fn new(out: Vec<u8>) -> (s: Serializer)
        ensures
            s@ == out@,
    {
        Serializer { out }
    }

    /// Hands over everything written so far; call it once a value has been
    /// serialized.
    pub fn end(&mut self) -> (bytes: Vec<u8>)
        ensures
            bytes@ == old(self)@,
            final(self)@ == Seq::<u8>::empty(),
    {
        self.out.split_off(0)
    }

    pub fn serialize_bool(&mut self, v: bool)
        ensures
            final(self)@ == old(self)@ + bool_bytes(v),
    {
        self.out.push(if v { 1 } else { 0 });
        proof {
            assert(self.out@ =~= old(self)@ + bool_bytes(v));
        }
    }

    /// An 8-bit signed value is its two's complement byte.
    pub fn serialize_i8(&mut self, v: i8)
        ensures
            final(self)@ == old(self)@ + seq![v as u8],
    {
        self.out.push(v as u8);
        proof {
            assert(self.out@ =~= old(self)@ + seq![v as u8]);
        }
    }

    pub fn serialize_i16(&mut self, v: i16)
        ensures
            final(self)@ == old(self)@ + signed_bytes(v as int),
    {
        let u = zigzag_i16(v);
        encode_u64(&mut self.out, u as u64);
    }

    pub fn serialize_i32(&mut self, v: i32)
        ensures
            final(self)@ == old(self)@ + signed_bytes(v as int),
    {
        let u = zigzag_i32(v);
        encode_u64(&mut self.out, u as u64);
    }

    pub fn serialize_i64(&mut self, v: i64)
        ensures
            final(self)@ == old(self)@ + signed_bytes(v as int),
    {
        let u = zigzag_i64(v);
        encode_u64(&mut self.out, u);
    }

    pub fn serialize_i128(&mut self, v: i128)
        ensures
            final(self)@ == old(self)@ + u128_bytes(zigzag(v as int)),
    {
        let u = zigzag_i128(v);
        self.serialize_u128(u);
    }

    pub fn serialize_u8(&mut self, v: u8)
        ensures
            final(self)@ == old(self)@ + seq![v],
    {
        self.out.push(v);
        proof {
            assert(self.out@ =~= old(self)@ + seq![v]);
        }
    }

    pub fn serialize_u16(&mut self, v: u16)
        ensures
            final(self)@ == old(self)@ + varint(v as nat, 8),
    {
        encode_u64(&mut self.out, v as u64);
    }

    pub fn serialize_u32(&mut self, v: u32)
        ensures
            final(self)@ == old(self)@ + varint(v as nat, 8),
    {
        encode_u64(&mut self.out, v as u64);
    }

    pub fn serialize_u64(&mut self, v: u64)
        ensures
            final(self)@ == old(self)@ + varint(v as nat, 8),
    {
        encode_u64(&mut self.out, v);
    }

    pub fn serialize_u128(&mut self, v: u128)
        ensures
            final(self)@ == old(self)@ + u128_bytes(v as nat),
    {
        let lower = (v % 0x1_0000_0000_0000_0000) as u64;
        let upper = (v / 0x1_0000_0000_0000_0000) as u64;
        proof {
            lemma_pow256_values();
        }
        encode_u64(&mut self.out, lower);
        encode_u64(&mut self.out, upper);
        proof {
            assert(self.out@ =~= old(self)@ + u128_bytes(v as nat));
        }
    }

    /// A 32-bit float, given by its bit pattern: four bytes, least
    /// significant first.
    pub fn serialize_f32_bits(&mut self, bits: u32)
        ensures
            final(self)@ == old(self)@ + le_bytes(bits as nat, 4),
    {
        push_le(&mut self.out, bits as u128, 4);
    }

    /// A 64-bit float, given by its bit pattern: eight bytes, least
    /// significant first.
    pub fn serialize_f64_bits(&mut self, bits: u64)
        ensures
            final(self)@ == old(self)@ + le_bytes(bits as nat, 8),
    {
        push_le(&mut self.out, bits as u128, 8);
    }

    /// Only the low three bytes of the code point are written; every
    /// character fits in them.
    pub fn serialize_char(&mut self, v: char)
        ensures
            final(self)@ == old(self)@ + char_bytes(v),
    {
        push_le(&mut self.out, v as u32 as u128, 3);
    }

    pub fn serialize_str(&mut self, v: &str)
        ensures
            final(self)@ == old(self)@ + str_bytes(v@),
    {
        let bytes = v.as_bytes();
        encode_u64(&mut self.out, bytes.len() as u64);
        push_all(&mut self.out, bytes);
        proof {
            assert(self.out@ =~= old(self)@ + str_bytes(v@));
        }
    }

    pub fn serialize_bytes(&mut self, v: &[u8])
        ensures
            final(self)@ == old(self)@ + blob_bytes(v@),
    {
        encode_u64(&mut self.out, v.len() as u64);
        push_all(&mut self.out, v);
        proof {
            assert(self.out@ =~= old(self)@ + blob_bytes(v@));
        }
    }

    /// An absent option: the tag 0.
    pub fn serialize_none(&mut self)
        ensures
            final(self)@ == old(self)@ + seq![0u8],
    {
        self.out.push(0);
        proof {
            assert(self.out@ =~= old(self)@ + seq![0u8]);
        }
    }

    /// A present option: the tag 1, which the inner value follows.
    pub fn serialize_some(&mut self)
        ensures
            final(self)@ == old(self)@ + seq![1u8],
    {
        self.out.push(1);
        proof {
            assert(self.out@ =~= old(self)@ + seq![1u8]);
        }
    }

    /// The index of an enum variant, which its fields, if any, follow.
    pub fn serialize_variant(&mut self, variant_index: u32)
        ensures
            final(self)@ == old(self)@ + varint(variant_index as nat, 8),
    {
        encode_u64(&mut self.out, variant_index as u64);
    }

    /// Begins a sequence of `len` elements by writing its length. The format
    /// has no terminator, so a sequence of unknown length cannot be written.
    pub fn serialize_seq(&mut self, len: Option<usize>) -> (r: Result<(), Error>)
        ensures
            match len {
                Some(n) => r is Ok && final(self)@ == old(self)@ + varint(n as nat, 8),
                None => r == Err::<(), Error>(Error::NoSequenceSize) && final(self)@ == old(self)@,
            },
    {
        match len {
            Some(n) => {
                encode_u64(&mut self.out, n as u64);
                Ok(())
            },
            None => Err(Error::NoSequenceSize),
        }
    }

    /// Begins a map of `len` entries by writing its length; as with
    /// sequences, the length must be known.
    pub fn serialize_map(&mut self, len: Option<usize>) -> (r: Result<(), Error>)
        ensures
            match len {
                Some(n) => r is Ok && final(self)@ == old(self)@ + varint(n as nat, 8),
                None => r == Err::<(), Error>(Error::NoSequenceSize) && final(self)@ == old(self)@,
            },
    {
        self.serialize_seq(len)
    }
}

} // verus!
