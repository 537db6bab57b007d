//! The reader: hands back, one requested shape at a time, the values that
//! the bytes hold.

use crate::layout::{from_le, read_le, lemma_from_le_bound};
use crate::varuint::{lemma_parse_varint_bound, lemma_pow256_values, parse_varint, pow256, take_varint};
use crate::zigzag::{unzigzag, unzigzag_u128, unzigzag_u16, unzigzag_u32, unzigzag_u64};
use vstd::prelude::*;
use vstd::utf8::{char_u32_cast, decode_utf8, is_scalar, valid_utf8};

verus! {

/// Why a decoding failed.
#[derive(Debug)]
pub enum Error {
    /// A whole value was decoded and input was left after it.
    IncompleteRead,
    /// The input ended before the value did.
    UnexpectedEof,
    /// A decoded number lies outside the domain of the requested type; the
    /// text says what was expected.
    InvalidValue(u64, &'static str),
    /// The bytes of a string are not UTF-8.
    InvalidUtf8,
    /// A request that needs the input to describe itself, which this format
    /// cannot do; the text names the request.
    Unsupported(&'static str),
    /// An error raised by the code that rebuilds the value.
    Other(String),
}

/// What reading a shape from the front of some input gives: the value and
/// the number of bytes it took, or the error and the number of bytes read
/// before it was found. Input that ends too soon is left unread; a value
/// that is read whole and then refused has its bytes consumed.
pub type Parsed<T> = Result<(T, nat), (Error, nat)>;

/// The first byte of `s`, taking one byte.
pub open spec fn parse_byte(s: Seq<u8>) -> Parsed<u8> {
    if s.len() == 0 {
        Err((Error::UnexpectedEof, 0))
    } else {
        Ok((s[0], 1))
    }
}

pub open spec fn parse_bool(s: Seq<u8>) -> Parsed<bool> {
    match parse_byte(s) {
        Ok((b, n)) => if b == 0 {
            Ok((false, n))
        } else if b == 1 {
            Ok((true, n))
        } else {
            Err((Error::InvalidValue(b as u64, "0 or 1"), n))
        },
        Err(e) => Err(e),
    }
}

pub open spec fn parse_i8(s: Seq<u8>) -> Parsed<i8> {
    match parse_byte(s) {
        Ok((b, n)) => Ok((b as i8, n)),
        Err(e) => Err(e),
    }
}

/// A variable-length integer of up to 64 bits.
pub open spec fn parse_u64(s: Seq<u8>) -> Parsed<u64> {
    match parse_varint(s, 8) {
        Some((v, n)) => Ok((v as u64, n)),
        None => Err((Error::UnexpectedEof, 0)),
    }
}

pub open spec fn parse_u16(s: Seq<u8>) -> Parsed<u16> {
    match parse_u64(s) {
        Ok((v, n)) => if v <= 0xffff {
            Ok((v as u16, n))
        } else {
            Err((Error::InvalidValue(v, "u16"), n))
        },
        Err(e) => Err(e),
    }
}

pub open spec fn parse_u32(s: Seq<u8>) -> Parsed<u32> {
    match parse_u64(s) {
        Ok((v, n)) => if v <= 0xffff_ffff {
            Ok((v as u32, n))
        } else {
            Err((Error::InvalidValue(v, "u32"), n))
        },
        Err(e) => Err(e),
    }
}

/// The low and then the high 64 bits, each a variable-length integer.
pub open spec fn parse_u128(s: Seq<u8>) -> Parsed<u128> {
    match parse_u64(s) {
        Ok((lo, n)) => match parse_u64(s.skip(n as int)) {
            Ok((hi, m)) => Ok(((hi * pow256(8) + lo) as u128, n + m)),
            Err(e) => Err(e),
        },
        Err(e) => Err(e),
    }
}

pub open spec fn parse_i16(s: Seq<u8>) -> Parsed<i16> {
    match parse_u16(s) {
        Ok((u, n)) => Ok((unzigzag(u as nat) as i16, n)),
        Err(e) => Err(e),
    }
}

pub open spec fn parse_i32(s: Seq<u8>) -> Parsed<i32> {
    match parse_u32(s) {
        Ok((u, n)) => Ok((unzigzag(u as nat) as i32, n)),
        Err(e) => Err(e),
    }
}

pub open spec fn parse_i64(s: Seq<u8>) -> Parsed<i64> {
    match parse_u64(s) {
        Ok((u, n)) => Ok((unzigzag(u as nat) as i64, n)),
        Err(e) => Err(e),
    }
}

pub open spec fn parse_i128(s: Seq<u8>) -> Parsed<i128> {
    match parse_u128(s) {
        Ok((u, n)) => Ok((unzigzag(u as nat) as i128, n)),
        Err(e) => Err(e),
    }
}

/// `k` bytes, least significant first.
pub open spec fn parse_fixed(s: Seq<u8>, k: nat) -> Parsed<nat> {
    if s.len() < k {
        Err((Error::UnexpectedEof, 0))
    } else {
        Ok((from_le(s.take(k as int)), k))
    }
}

pub open spec fn parse_f32_bits(s: Seq<u8>) -> Parsed<u32> {
    match parse_fixed(s, 4) {
        Ok((v, n)) => Ok((v as u32, n)),
        Err(e) => Err(e),
    }
}

pub open spec fn parse_f64_bits(s: Seq<u8>) -> Parsed<u64> {
    match parse_fixed(s, 8) {
        Ok((v, n)) => Ok((v as u64, n)),
        Err(e) => Err(e),
    }
}

/// Three bytes, least significant first, that must spell a Unicode scalar
/// value.
pub open spec fn parse_char(s: Seq<u8>) -> Parsed<char> {
    match parse_fixed(s, 3) {
        Ok((v, n)) => if is_scalar(v as u32) {
            Ok(((v as u32) as char, n))
        } else {
            Err((Error::InvalidValue(v as u64, "Unicode codepoint"), n))
        },
        Err(e) => Err(e),
    }
}

/// A byte count, then that many bytes.
pub open spec fn parse_blob(s: Seq<u8>) -> Parsed<Seq<u8>> {
    match parse_u64(s) {
        Ok((len, n)) => if s.len() < n + len {
            Err((Error::UnexpectedEof, 0))
        } else {
            Ok((s.subrange(n as int, n + len), (n + len) as nat))
        },
        Err(e) => Err(e),
    }
}

/// A blob that must be UTF-8, and the characters it encodes.
pub open spec fn parse_str(s: Seq<u8>) -> Parsed<Seq<char>> {
    match parse_blob(s) {
        Ok((b, n)) => if valid_utf8(b) {
            Ok((decode_utf8(b), n))
        } else {
            Err((Error::InvalidUtf8, n))
        },
        Err(e) => Err(e),
    }
}

/// The tag of an option: 0 for absent, 1 for present.
pub open spec fn parse_option(s: Seq<u8>) -> Parsed<bool> {
    match parse_byte(s) {
        Ok((b, n)) => if b == 0 {
            Ok((false, n))
        } else if b == 1 {
            Ok((true, n))
        } else {
            Err((Error::InvalidValue(b as u64, "None (0) or Some (1)"), n))
        },
        Err(e) => Err(e),
    }
}

/// The index of an enum variant, kept to its low 32 bits.
pub open spec fn parse_variant(s: Seq<u8>) -> Parsed<u32> {
    match parse_u64(s) {
        Ok((v, n)) => Ok((v as u32, n)),
        Err(e) => Err(e),
    }
}

/// `r` and the unread input `after` are what reading `parsed` from the
/// unread input `before` gives: the value or the error, with the bytes that
/// were read consumed.
pub open spec fn decoded<T>(
    before: Seq<u8>,
    after: Seq<u8>,
    r: Result<T, Error>,
    parsed: Parsed<T>,
) -> bool {
    match parsed {
        Ok((v, n)) => r == Ok::<T, Error>(v) && after == before.skip(n as int),
        Err((e, n)) => r == Err::<T, Error>(e) && after == before.skip(n as int),
    }
}

/// Relies on `char::from_u32`: a character exactly for the Unicode scalar
/// values, and then the one with that code point.
#[verifier::external_body]
fn char_from_u32(v: u32) -> (r: Option<char>)
    ensures
        r is Some <==> is_scalar(v),
        r matches Some(c) ==> c as u32 == v,
{
    char::from_u32(v)
}

/// Relies on `String::from_utf8`: it succeeds exactly on valid UTF-8, and
/// then holds the characters that the bytes encode.
#[verifier::external_body]
fn string_from_utf8(bytes: Vec<u8>) -> (r: Option<String>)
    ensures
        r is Some <==> valid_utf8(bytes@),
        r matches Some(s) ==> s@ == decode_utf8(bytes@),
{
    String::from_utf8(bytes).ok()
}

/// The bytes of `input` from `from` to `to`.
fn copy_range(input: &[u8], from: usize, to: usize) -> (r: Vec<u8>)
    requires
        from <= to <= input@.len(),
    ensures
        r@ == input@.subrange(from as int, to as int),
{
    let mut r: Vec<u8> = Vec::new();
    let mut i = from;
    while i < to
        invariant
            from <= i <= to <= input@.len(),
            r@ == input@.subrange(from as int, i as int),
        decreases to - i,
    {
        r.push(input[i]);
        i = i + 1;
        proof {
            assert(r@ =~= input@.subrange(from as int, i as int));
        }
    }
    r
}

/// Counts down the elements of a sequence, map, tuple or struct that are
/// still to be read; the entries of a map count once each.
#[derive(Debug)]
pub struct Access {
    len: u64,
}

impl View for Access {
    type V = nat;

    /// The number of elements still to come.
    closed spec fn view(&self) -> nat {
        self.len as nat
    }
}

impl Access {
    pub fn new(len: u64) -> (a: Access)
        ensures
            a@ == len,
    {
        Access { len }
    }

    /// Whether another element is due; if so, it is counted as read.
    pub fn next_element(&mut self) -> (more: bool)
        ensures
            more == (old(self)@ > 0),
            final(self)@ == if more {
                (old(self)@ - 1) as nat
            } else {
                old(self)@
            },
    {
        if self.len > 0 {
            self.len = self.len - 1;
            true
        } else {
            false
        }
    }

    pub fn size_hint(&self) -> (n: u64)
        ensures
            n == self@,
    {
        self.len
    }
}

/// Reads values from a byte buffer, front to back, each in the shape that
/// the caller asks for.
#[derive(Debug)]
pub struct Deserializer {
    input: Vec<u8>,
    pos: usize,
}

impl View for Deserializer {
    type V = Seq<u8>;

    /// The input not read yet.
    closed spec fn view(&self) -> Seq<u8> {
        self.input@.subrange(self.pos as int, self.input@.len() as int)
    }
}

impl Deserializer {
    #[verifier::type_invariant]
    spec fn inv(&self) -> bool {
        self.pos <= self.input@.len()
    }

    /// A deserializer that reads `input` from its first byte.
    pub fn new(input: Vec<u8>) -> (d: Deserializer)
        ensures
            d@ == input@,
    {
        proof {
            assert(input@.subrange(0, input@.len() as int) == input@);
        }
        Deserializer { input, pos: 0 }
    }

    /// Confirms that the input is used up by trying to read one more byte;
    /// call it once a value has been deserialized. A byte that is found is
    /// consumed.
    pub fn end(&mut self) -> (r: Result<(), Error>)
        ensures
            old(self)@.len() == 0 ==> r is Ok && final(self)@ == old(self)@,
            old(self)@.len() > 0 ==> r == Err::<(), Error>(Error::IncompleteRead) && final(self)@
                == old(self)@.skip(1),
    {
        proof {
            use_type_invariant(&*self);
        }
        if self.pos < self.input.len() {
            self.advance(1);
            Err(Error::IncompleteRead)
        } else {
            Ok(())
        }
    }

    /// Consumes `n` bytes.
    fn advance(&mut self, n: usize)
        requires
            n <= old(self)@.len(),
        ensures
            final(self)@ == old(self)@.skip(n as int),
    {
        proof {
            use_type_invariant(&*self);
        }
        let len = self.input.len();
        assert(n <= len - self.pos);
        self.pos = self.pos + n;
        proof {
            assert(self@ =~= old(self)@.skip(n as int));
        }
    }

    /// The variable-length integer that starts `skip` bytes into the unread
    /// input, and its length; nothing is consumed.
    fn peek_varint(&self, skip: usize) -> (r: Result<(u64, usize), Error>)
        requires
            skip <= self@.len(),
        ensures
            match r {
                Ok((v, n)) => parse_u64(self@.skip(skip as int)) == Ok::<(u64, nat), (Error, nat)>(
                    (v, n as nat),
                ) && skip + n <= self@.len(),
                Err(e) => parse_u64(self@.skip(skip as int)) == Err::<(u64, nat), (Error, nat)>((e, 0)),
            },
    {
        proof {
            use_type_invariant(self);
        }
        let ghost s = self@.skip(skip as int);
        let len = self.input.len();
        assert(skip <= len - self.pos);
        let r = take_varint(self.input.as_slice(), self.pos + skip, 8);
        proof {
            assert(self.input@.subrange((self.pos + skip) as int, self.input@.len() as int) == s);
        }
        match r {
            Some((v, n)) => {
                proof {
                    lemma_parse_varint_bound(s, 8);
                    lemma_pow256_values();
                }
                Ok((v as u64, n))
            },
            None => Err(Error::UnexpectedEof),
        }
    }

    /// The `k` bytes at the front of the unread input, least significant
    /// first; nothing is consumed.
    fn peek_fixed(&self, k: usize) -> (r: Result<u128, Error>)
        requires
            k <= 16,
        ensures
            match r {
                Ok(v) => parse_fixed(self@, k as nat) == Ok::<(nat, nat), (Error, nat)>((v as nat, k as nat)),
                Err(e) => parse_fixed(self@, k as nat) == Err::<(nat, nat), (Error, nat)>((e, 0)),
            },
    {
        proof {
            use_type_invariant(self);
        }
        if self.input.len() - self.pos < k {
            return Err(Error::UnexpectedEof);
        }
        let v = read_le(self.input.as_slice(), self.pos, k);
        proof {
            assert(self.input@.subrange(self.pos as int, self.pos + k) == self@.take(k as int));
        }
        Ok(v)
    }

    /// The next byte, consumed.
    fn next_byte(&mut self) -> (r: Result<u8, Error>)
        ensures
            decoded(old(self)@, final(self)@, r, parse_byte(old(self)@)),
    {
        proof {
            assert(old(self)@.skip(0) =~= old(self)@);
        }
        proof {
            use_type_invariant(&*self);
        }
        if self.pos == self.input.len() {
            return Err(Error::UnexpectedEof);
        }
        let b = self.input[self.pos];
        self.advance(1);
        Ok(b)
    }

    pub fn deserialize_bool(&mut self) -> (r: Result<bool, Error>)
        ensures
            decoded(old(self)@, final(self)@, r, parse_bool(old(self)@)),
    {
        let b = match self.next_byte() {
            Ok(b) => b,
            Err(e) => return Err(e),
        };
        if b == 0 {
            Ok(false)
        } else if b == 1 {
            Ok(true)
        } else {
            Err(Error::InvalidValue(b as u64, "0 or 1"))
        }
    }

    /// An 8-bit signed value: one byte, two's complement.
    pub fn deserialize_i8(&mut self) -> (r: Result<i8, Error>)
        ensures
            decoded(old(self)@, final(self)@, r, parse_i8(old(self)@)),
    {
        match self.next_byte() {
            Ok(b) => Ok(b as i8),
            Err(e) => Err(e),
        }
    }

    pub fn deserialize_i16(&mut self) -> (r: Result<i16, Error>)
        ensures
            decoded(old(self)@, final(self)@, r, parse_i16(old(self)@)),
    {
        match self.deserialize_u16() {
            Ok(u) => Ok(unzigzag_u16(u)),
            Err(e) => Err(e),
        }
    }

    pub fn deserialize_i32(&mut self) -> (r: Result<i32, Error>)
        ensures
            decoded(old(self)@, final(self)@, r, parse_i32(old(self)@)),
    {
        match self.deserialize_u32() {
            Ok(u) => Ok(unzigzag_u32(u)),
            Err(e) => Err(e),
        }
    }

    pub fn deserialize_i64(&mut self) -> (r: Result<i64, Error>)
        ensures
            decoded(old(self)@, final(self)@, r, parse_i64(old(self)@)),
    {
        match self.deserialize_u64() {
            Ok(u) => Ok(unzigzag_u64(u)),
            Err(e) => Err(e),
        }
    }

    pub fn deserialize_i128(&mut self) -> (r: Result<i128, Error>)
        ensures
            decoded(old(self)@, final(self)@, r, parse_i128(old(self)@)),
    {
        match self.deserialize_u128() {
            Ok(u) => Ok(unzigzag_u128(u)),
            Err(e) => Err(e),
        }
    }

    pub fn deserialize_u8(&mut self) -> (r: Result<u8, Error>)
        ensures
            decoded(old(self)@, final(self)@, r, parse_byte(old(self)@)),
    {
        self.next_byte()
    }

    /// A variable-length integer that must fit in 16 bits.
    pub fn deserialize_u16(&mut self) -> (r: Result<u16, Error>)
        ensures
            decoded(old(self)@, final(self)@, r, parse_u16(old(self)@)),
    {
        proof {
            assert(old(self)@.skip(0) == old(self)@);
        }
        let (v, n) = match self.peek_varint(0) {
            Ok(p) => p,
            Err(e) => return Err(e),
        };
        self.advance(n);
        if v > 0xffff {
            return Err(Error::InvalidValue(v, "u16"));
        }
        Ok(v as u16)
    }

    /// A variable-length integer that must fit in 32 bits.
    pub fn deserialize_u32(&mut self) -> (r: Result<u32, Error>)
        ensures
            decoded(old(self)@, final(self)@, r, parse_u32(old(self)@)),
    {
        proof {
            assert(old(self)@.skip(0) == old(self)@);
        }
        let (v, n) = match self.peek_varint(0) {
            Ok(p) => p,
            Err(e) => return Err(e),
        };
        self.advance(n);
        if v > 0xffff_ffff {
            return Err(Error::InvalidValue(v, "u32"));
        }
        Ok(v as u32)
    }

    pub fn deserialize_u64(&mut self) -> (r: Result<u64, Error>)
        ensures
            decoded(old(self)@, final(self)@, r, parse_u64(old(self)@)),
    {
        proof {
            assert(old(self)@.skip(0) == old(self)@);
        }
        let (v, n) = match self.peek_varint(0) {
            Ok(p) => p,
            Err(e) => return Err(e),
        };
        self.advance(n);
        Ok(v)
    }

    /// Two variable-length integers: the low 64 bits, then the high ones.
    pub fn deserialize_u128(&mut self) -> (r: Result<u128, Error>)
        ensures
            decoded(old(self)@, final(self)@, r, parse_u128(old(self)@)),
    {
        proof {
            assert(old(self)@.skip(0) == old(self)@);
        }
        let (lo, n) = match self.peek_varint(0) {
            Ok(p) => p,
            Err(e) => return Err(e),
        };
        let (hi, m) = match self.peek_varint(n) {
            Ok(p) => p,
            Err(e) => return Err(e),
        };
        proof {
            lemma_pow256_values();
            assert(old(self)@.skip(n as int).skip(m as int) == old(self)@.skip(n + m));
        }
        self.advance(n + m);
        Ok(hi as u128 * 0x1_0000_0000_0000_0000 + lo as u128)
    }

    /// A 32-bit float's bit pattern: four bytes, least significant first.
    pub fn deserialize_f32_bits(&mut self) -> (r: Result<u32, Error>)
        ensures
            decoded(old(self)@, final(self)@, r, parse_f32_bits(old(self)@)),
    {
        proof {
            assert(old(self)@.skip(0) =~= old(self)@);
        }
        let v = match self.peek_fixed(4) {
            Ok(v) => v,
            Err(e) => return Err(e),
        };
        proof {
            lemma_from_le_bound(old(self)@.take(4));
            lemma_pow256_values();
        }
        self.advance(4);
        Ok(v as u32)
    }

    /// A 64-bit float's bit pattern: eight bytes, least significant first.
    pub fn deserialize_f64_bits(&mut self) -> (r: Result<u64, Error>)
        ensures
            decoded(old(self)@, final(self)@, r, parse_f64_bits(old(self)@)),
    {
        proof {
            assert(old(self)@.skip(0) =~= old(self)@);
        }
        let v = match self.peek_fixed(8) {
            Ok(v) => v,
            Err(e) => return Err(e),
        };
        proof {
            lemma_from_le_bound(old(self)@.take(8));
            lemma_pow256_values();
        }
        self.advance(8);
        Ok(v as u64)
    }

    /// Three bytes, least significant first, that must spell a Unicode
    /// scalar value.
    pub fn deserialize_char(&mut self) -> (r: Result<char, Error>)
        ensures
            decoded(old(self)@, final(self)@, r, parse_char(old(self)@)),
    {
        proof {
            assert(old(self)@.skip(0) =~= old(self)@);
        }
        let v = match self.peek_fixed(3) {
            Ok(v) => v,
            Err(e) => return Err(e),
        };
        proof {
            lemma_from_le_bound(old(self)@.take(3));
            lemma_pow256_values();
        }
        self.advance(3);
        match char_from_u32(v as u32) {
            Some(c) => {
                proof {
                    char_u32_cast(c, v as u32);
                }
                Ok(c)
            },
            None => Err(Error::InvalidValue(v as u64, "Unicode codepoint")),
        }
    }

    /// The blob at the front of the unread input, and the number of bytes
    /// it takes; nothing is consumed.
    fn peek_blob(&self) -> (r: Result<(Vec<u8>, usize), Error>)
        ensures
            match r {
                Ok((v, n)) => parse_blob(self@) == Ok::<(Seq<u8>, nat), (Error, nat)>((v@, n as nat)),
                Err(e) => parse_blob(self@) == Err::<(Seq<u8>, nat), (Error, nat)>((e, 0)),
            },
    {
        proof {
            use_type_invariant(self);
            assert(self@.skip(0) == self@);
        }
        let (len, n) = match self.peek_varint(0) {
            Ok(p) => p,
            Err(e) => return Err(e),
        };
        let rest = self.input.len() - self.pos - n;
        if len > rest as u64 {
            return Err(Error::UnexpectedEof);
        }
        let start = self.pos + n;
        let bytes = copy_range(self.input.as_slice(), start, start + len as usize);
        proof {
            assert(bytes@ == self@.subrange(n as int, n + len));
        }
        Ok((bytes, n + len as usize))
    }

    /// A byte count and that many raw bytes.
    pub fn deserialize_byte_buf(&mut self) -> (r: Result<Vec<u8>, Error>)
        ensures
            match parse_blob(old(self)@) {
                Ok((b, n)) => r matches Ok(v) && v@ == b && final(self)@ == old(self)@.skip(n as int),
                Err((e, n)) => r == Err::<Vec<u8>, Error>(e) && final(self)@ == old(self)@.skip(n as int),
            },
    {
        match self.peek_blob() {
            Ok((bytes, n)) => {
                self.advance(n);
                Ok(bytes)
            },
            Err(e) => Err(e),
        }
    }

    /// A byte count and that many bytes, which must be UTF-8.
    pub fn deserialize_string(&mut self) -> (r: Result<String, Error>)
        ensures
            match parse_str(old(self)@) {
                Ok((cs, n)) => r matches Ok(v) && v@ == cs && final(self)@ == old(self)@.skip(n as int),
                Err((e, n)) => r == Err::<String, Error>(e) && final(self)@ == old(self)@.skip(n as int),
            },
    {
        let (bytes, n) = match self.peek_blob() {
            Ok(p) => p,
            Err(e) => return Err(e),
        };
        self.advance(n);
        match string_from_utf8(bytes) {
            Some(s) => Ok(s),
            None => Err(Error::InvalidUtf8),
        }
    }

    /// The tag of an option: whether a value follows.
    pub fn deserialize_option(&mut self) -> (r: Result<bool, Error>)
        ensures
            decoded(old(self)@, final(self)@, r, parse_option(old(self)@)),
    {
        let b = match self.next_byte() {
            Ok(b) => b,
            Err(e) => return Err(e),
        };
        if b == 0 {
            Ok(false)
        } else if b == 1 {
            Ok(true)
        } else {
            Err(Error::InvalidValue(b as u64, "None (0) or Some (1)"))
        }
    }

    /// The element count of a sequence, as the counter of its elements.
    pub fn deserialize_seq(&mut self) -> (r: Result<Access, Error>)
        ensures
            match parse_u64(old(self)@) {
                Ok((len, n)) => r matches Ok(a) && a@ == len && final(self)@ == old(self)@.skip(n as int),
                Err((e, n)) => r is Err && r->Err_0 == e && final(self)@ == old(self)@.skip(n as int),
            },
    {
        match self.deserialize_u64() {
            Ok(len) => Ok(Access::new(len)),
            Err(e) => Err(e),
        }
    }

    /// The entry count of a map, as the counter of its entries.
    pub fn deserialize_map(&mut self) -> (r: Result<Access, Error>)
        ensures
            match parse_u64(old(self)@) {
                Ok((len, n)) => r matches Ok(a) && a@ == len && final(self)@ == old(self)@.skip(n as int),
                Err((e, n)) => r is Err && r->Err_0 == e && final(self)@ == old(self)@.skip(n as int),
            },
    {
        self.deserialize_seq()
    }

    /// A tuple or struct of `len` fields: no bytes of its own, only the
    /// counter of its fields.
    pub fn deserialize_tuple(&mut self, len: usize) -> (a: Access)
        ensures
            a@ == len,
            final(self)@ == old(self)@,
    {
        Access::new(len as u64)
    }

    /// The index of an enum variant, which its fields follow as those of a
    /// tuple.
    pub fn deserialize_enum(&mut self) -> (r: Result<u32, Error>)
        ensures
            decoded(old(self)@, final(self)@, r, parse_variant(old(self)@)),
    {
        match self.deserialize_u64() {
            Ok(v) => Ok(#[verifier::truncate] (v as u32)),
            Err(e) => Err(e),
        }
    }

    /// Fails: the format carries no type information to go by.
    pub fn deserialize_any(&self) -> (r: Result<(), Error>)
        ensures
            r == Err::<(), Error>(Error::Unsupported("deserialize_any")),
    {
        Err(Error::Unsupported("deserialize_any"))
    }

    /// Fails: field names are not written, so there is none to read.
    pub fn deserialize_identifier(&self) -> (r: Result<(), Error>)
        ensures
            r == Err::<(), Error>(Error::Unsupported("deserialize_identifier")),
    {
        Err(Error::Unsupported("deserialize_identifier"))
    }

    /// Fails: a value of unknown shape cannot be skipped.
    pub fn deserialize_ignored_any(&self) -> (r: Result<(), Error>)
        ensures
            r == Err::<(), Error>(Error::Unsupported("deserialize_ignored_any")),
    {
        Err(Error::Unsupported("deserialize_ignored_any"))
    }
}

} // verus!
