//! Writing values in the tagged line format.
//!
//! Each value is a tag byte followed by its text and a line feed: `D42\n` is
//! the `u64` 42. A string without a line feed is `$` and its bytes; one that
//! holds a line feed is `&`, its length in bytes, a line feed, the bytes and a
//! line feed.
use vstd::prelude::*;
use vstd::string::*;
use vstd::utf8::*;

use crate::decimal::{decimal, push_decimal, push_signed_decimal, signed_decimal};

verus! {

/// The line feed that ends each line.
pub const LF: u8 = 10;

/// Tag of a `u8`: `B`.
pub const TAG_U8: u8 = 66;

/// Tag of a `u16`: `W`.
pub const TAG_U16: u8 = 87;

/// Tag of a `u32`: `I`.
pub const TAG_U32: u8 = 73;

/// Tag of a `u64`: `D`.
pub const TAG_U64: u8 = 68;

/// Tag of a `u128`: `Q`.
pub const TAG_U128: u8 = 81;

/// Tag of an `i8`: `b`.
pub const TAG_I8: u8 = 98;

/// Tag of an `i16`: `w`.
pub const TAG_I16: u8 = 119;

/// Tag of an `i32`: `i`.
pub const TAG_I32: u8 = 105;

/// Tag of an `i64`: `d`.
pub const TAG_I64: u8 = 100;

/// Tag of an `i128`: `q`.
pub const TAG_I128: u8 = 113;

/// Tag of an `f32`: `f`.
pub const TAG_F32: u8 = 102;

/// Tag of an `f64`: `F`.
pub const TAG_F64: u8 = 70;

/// Tag of a `char`: `c`.
pub const TAG_CHAR: u8 = 99;

/// Tag of a string without a line feed: `$`.
pub const TAG_STR: u8 = 36;

/// Tag of a string given by its length: `&`.
pub const TAG_STR_LEN: u8 = 38;

/// Tag of a byte string: `%`.
pub const TAG_BYTES: u8 = 37;

/// Tag of a struct: `}`.
pub const TAG_STRUCT: u8 = 125;

/// Tag of an absent optional value: `!`.
pub const TAG_NONE: u8 = 33;

/// Whether `s` holds a line feed.
pub open spec fn has_lf(s: Seq<u8>) -> bool {
    exists|i: int| 0 <= i < s.len() && s[i] == LF
}

/// One line: a tag, a text and a line feed.
pub open spec fn tagged(tag: u8, text: Seq<u8>) -> Seq<u8> {
    seq![tag] + text + seq![LF]
}

/// A run of bytes given by its length: the tag, the length, a line feed, the
/// bytes and a line feed.
pub open spec fn length_given(tag: u8, b: Seq<u8>) -> Seq<u8> {
    tagged(tag, decimal(b.len())) + b + seq![LF]
}

/// The encoding of a boolean: `1` or `0` and a line feed.
pub open spec fn bool_bytes(v: bool) -> Seq<u8> {
    seq![if v { 49u8 } else { 48u8 }, LF]
}

/// The encoding of a string from its UTF-8 bytes.
pub open spec fn str_bytes(b: Seq<u8>) -> Seq<u8> {
    if has_lf(b) {
        length_given(TAG_STR_LEN, b)
    } else {
        tagged(TAG_STR, b)
    }
}

/// The encoding of a string.
pub open spec fn string_bytes(s: Seq<char>) -> Seq<u8> {
    str_bytes(encode_utf8(s))
}

/// The encoding of an absent optional value.
pub open spec fn none_bytes() -> Seq<u8> {
    seq![TAG_NONE, LF]
}

/// The header of a struct with `len` fields and the given name.
pub open spec fn struct_header(len: nat, name: Seq<u8>) -> Seq<u8> {
    tagged(TAG_STRUCT, decimal(len)) + name + seq![LF]
}

/// Writes values into a growing buffer of bytes.
pub struct Serializer {
    output: Vec<u8>,
}

impl View for Serializer {
    type V = Seq<u8>;

    closed spec fn view(&self) -> Seq<u8> {
        self.output@
    }
}

impl Serializer {
    /// A serializer with nothing written yet.
    pub fn new() -> (s: Self)
        ensures
            s@ == Seq::<u8>::empty(),
    {
        Serializer { output: Vec::new() }
    }

    /// The bytes written so far.
    pub fn into_bytes(self) -> (r: Vec<u8>)
        ensures
            r@ == self@,
    {
        self.output
    }

    /// Writes bytes as they are.
    fn write_all(&mut self, b: &[u8])
        ensures
            final(self)@ == old(self)@ + b@,
    {
        self.output.extend_from_slice(b);
    }

    fn write_unsigned(&mut self, tag: u8, v: u128)
        ensures
            final(self)@ == old(self)@ + tagged(tag, decimal(v as nat)),
    {
        self.output.push(tag);
        push_decimal(&mut self.output, v);
        self.output.push(LF);
        assert(final(self)@ == old(self)@ + tagged(tag, decimal(v as nat)));
    }

    fn write_signed(&mut self, tag: u8, v: i128)
        ensures
            final(self)@ == old(self)@ + tagged(tag, signed_decimal(v as int)),
    {
        self.output.push(tag);
        push_signed_decimal(&mut self.output, v);
        self.output.push(LF);
        assert(final(self)@ == old(self)@ + tagged(tag, signed_decimal(v as int)));
    }

    /// Writes a boolean.
    pub fn serialize_bool(&mut self, v: bool)
        ensures
            final(self)@ == old(self)@ + bool_bytes(v),
    {
        self.output.push(if v { 49u8 } else { 48u8 });
        self.output.push(LF);
        assert(final(self)@ == old(self)@ + bool_bytes(v));
    }

    /// Writes a `u8`.
    pub fn serialize_u8(&mut self, v: u8)
        ensures
            final(self)@ == old(self)@ + tagged(TAG_U8, decimal(v as nat)),
    {
        self.write_unsigned(TAG_U8, v as u128);
    }

    /// Writes a `u16`.
    pub fn serialize_u16(&mut self, v: u16)
        ensures
            final(self)@ == old(self)@ + tagged(TAG_U16, decimal(v as nat)),
    {
        self.write_unsigned(TAG_U16, v as u128);
    }

    /// Writes a `u32`.
    pub fn serialize_u32(&mut self, v: u32)
        ensures
            final(self)@ == old(self)@ + tagged(TAG_U32, decimal(v as nat)),
    {
        self.write_unsigned(TAG_U32, v as u128);
    }

    /// Writes a `u64`.
    pub fn serialize_u64(&mut self, v: u64)
        ensures
            final(self)@ == old(self)@ + tagged(TAG_U64, decimal(v as nat)),
    {
        self.write_unsigned(TAG_U64, v as u128);
    }

    /// Writes a `u128`.
    pub fn serialize_u128(&mut self, v: u128)
        ensures
            final(self)@ == old(self)@ + tagged(TAG_U128, decimal(v as nat)),
    {
        self.write_unsigned(TAG_U128, v);
    }

    /// Writes an `i8`.
    pub fn serialize_i8(&mut self, v: i8)
        ensures
            final(self)@ == old(self)@ + tagged(TAG_I8, signed_decimal(v as int)),
    {
        self.write_signed(TAG_I8, v as i128);
    }

    /// Writes an `i16`.
    pub fn serialize_i16(&mut self, v: i16)
        ensures
            final(self)@ == old(self)@ + tagged(TAG_I16, signed_decimal(v as int)),
    {
        self.write_signed(TAG_I16, v as i128);
    }

    /// Writes an `i32`.
    pub fn serialize_i32(&mut self, v: i32)
        ensures
            final(self)@ == old(self)@ + tagged(TAG_I32, signed_decimal(v as int)),
    {
        self.write_signed(TAG_I32, v as i128);
    }

    /// Writes an `i64`.
    pub fn serialize_i64(&mut self, v: i64)
        ensures
            final(self)@ == old(self)@ + tagged(TAG_I64, signed_decimal(v as int)),
    {
        self.write_signed(TAG_I64, v as i128);
    }

    /// Writes an `i128`.
    pub fn serialize_i128(&mut self, v: i128)
        ensures
            final(self)@ == old(self)@ + tagged(TAG_I128, signed_decimal(v as int)),
    {
        self.write_signed(TAG_I128, v);
    }

    /// Writes an `f32` from its decimal text, as `Display` gives it.
    pub fn serialize_f32_text(&mut self, text: &str)
        ensures
            final(self)@ == old(self)@ + tagged(TAG_F32, encode_utf8(text@)),
    {
        self.output.push(TAG_F32);
        self.write_all(text.as_bytes());
        self.output.push(LF);
        assert(final(self)@ == old(self)@ + tagged(TAG_F32, encode_utf8(text@)));
    }

    /// Writes an `f64` from its decimal text, as `Display` gives it.
    pub fn serialize_f64_text(&mut self, text: &str)
        ensures
            final(self)@ == old(self)@ + tagged(TAG_F64, encode_utf8(text@)),
    {
        self.output.push(TAG_F64);
        self.write_all(text.as_bytes());
        self.output.push(LF);
        assert(final(self)@ == old(self)@ + tagged(TAG_F64, encode_utf8(text@)));
    }

    /// Writes a run of bytes given by its length.
    fn write_length_given(&mut self, tag: u8, b: &[u8])
        ensures
            final(self)@ == old(self)@ + length_given(tag, b@),
    {
        self.write_unsigned(tag, b.len() as u128);
        self.write_all(b);
        self.output.push(LF);
        assert(final(self)@ == old(self)@ + length_given(tag, b@));
    }

    /// Writes a string: with `$` where it holds no line feed, else by its length.
    pub fn serialize_str(&mut self, s: &str)
        ensures
            final(self)@ == old(self)@ + string_bytes(s@),
    {
        let b = s.as_bytes();
        let mut i: usize = 0;
        let mut found = false;
        while i < b.len()
            invariant
                0 <= i <= b@.len(),
                found ==> has_lf(b@),
                !found ==> forall|j: int| 0 <= j < i ==> b@[j] != LF,
            decreases b@.len() - i,
        {
            if b[i] == LF {
                found = true;
            }
            i = i + 1;
        }
        if found {
            self.write_length_given(TAG_STR_LEN, b);
        } else {
            self.output.push(TAG_STR);
            self.write_all(b);
            self.output.push(LF);
            assert(final(self)@ == old(self)@ + tagged(TAG_STR, b@));
        }
    }

    /// Writes a byte string, given by its length.
    pub fn serialize_bytes(&mut self, b: &[u8])
        ensures
            final(self)@ == old(self)@ + length_given(TAG_BYTES, b@),
    {
        self.write_length_given(TAG_BYTES, b);
    }

    /// Writes an absent optional value.
    pub fn serialize_none(&mut self)
        ensures
            final(self)@ == old(self)@ + none_bytes(),
    {
        self.output.push(TAG_NONE);
        self.output.push(LF);
        assert(final(self)@ == old(self)@ + none_bytes());
    }

    /// Writes a name, such as a field's, with `$`; its bytes are written as
    /// they are.
    pub fn serialize_identifier(&mut self, name: &[u8])
        ensures
            final(self)@ == old(self)@ + tagged(TAG_STR, name@),
    {
        self.output.push(TAG_STR);
        self.write_all(name);
        self.output.push(LF);
        assert(final(self)@ == old(self)@ + tagged(TAG_STR, name@));
    }

    /// Writes the header of a struct with `len` fields; `name` is written as it is.
    pub fn serialize_struct(&mut self, name: &[u8], len: usize)
        ensures
            final(self)@ == old(self)@ + struct_header(len as nat, name@),
    {
        self.write_unsigned(TAG_STRUCT, len as u128);
        self.write_all(name);
        self.output.push(LF);
        assert(final(self)@ == old(self)@ + struct_header(len as nat, name@));
    }
}

} // verus!
