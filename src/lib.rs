//! A compact binary encoding that favours small output over readability.
//!
//! Unsigned integers wider than a byte, lengths and variant indices are
//! stored as self-delimiting variable-length integers ([`varuint`]); signed
//! integers wider than a byte go through the zigzag mapping first
//! ([`zigzag`]); fixed-width fields are little-endian ([`layout`]).
//! [`ser::Serializer`] turns a traversal of a value into bytes and
//! [`de::Deserializer`] reads them back, one requested shape at a time.
//! [`roundtrip`] and [`value`] prove that what is written reads back.

pub mod de;
pub mod layout;
pub mod roundtrip;
pub mod ser;
pub mod value;
pub mod varuint;
pub mod zigzag;
