//! Reading values in the tagged line format.
//!
//! Each reader states its result through a spec function over the unread
//! bytes: what it yields and which bytes it leaves, or which error it meets.
use vstd::prelude::*;
use vstd::slice::*;
use vstd::string::*;
use vstd::utf8::*;

use crate::decimal::{
    all_digits, decimal, lemma_decimal_digits, lemma_unsigned_round_trip, lemma_signed_round_trip,
    parse_signed, parse_unsigned, signed_decimal, signed_value, unsigned_value,
};
use crate::ser::{
    bool_bytes, has_lf, length_given, none_bytes, str_bytes, string_bytes, tagged, LF, TAG_BYTES,
    TAG_CHAR, TAG_F32, TAG_F64, TAG_I128, TAG_I16, TAG_I32, TAG_I64, TAG_I8, TAG_NONE, TAG_STR,
    TAG_STR_LEN, TAG_U128, TAG_U16, TAG_U32, TAG_U64, TAG_U8,
};

verus! {

/// What went wrong while reading.
#[derive(Clone, Copy, Debug, PartialEq, Eq, Structural)]
pub enum DecodeError {
    /// The bytes do not have the expected shape: a wrong tag, a missing line
    /// feed, a length that does not match.
    DataError,
    /// A number's text is no number of the expected type.
    ParseIntError,
    /// A string's bytes are not UTF-8.
    FromUtf8Error,
}

/// The index of the first line feed in `s`.
pub open spec fn lf_index(s: Seq<u8>) -> Option<nat>
    decreases s.len(),
{
    if s.len() == 0 {
        None
    } else if s[0] == LF {
        Some(0)
    } else {
        match lf_index(s.drop_first()) {
            Some(k) => Some(k + 1),
            None => None,
        }
    }
}

/// The bytes of `s` before its first line feed, and those after it.
pub open spec fn line_outcome(s: Seq<u8>) -> Result<(Seq<u8>, Seq<u8>), DecodeError> {
    match lf_index(s) {
        Some(k) => Ok((s.take(k as int), s.skip(k as int + 1))),
        None => Err(DecodeError::DataError),
    }
}

/// Whether `s` begins with `p`.
pub open spec fn starts_with(s: Seq<u8>, p: Seq<u8>) -> bool {
    p.len() <= s.len() && s.take(p.len() as int) == p
}

/// Reading a tagged unsigned number of at most `max`.
pub open spec fn unsigned_outcome(s: Seq<u8>, tag: u8, max: nat) -> Result<
    (nat, Seq<u8>),
    DecodeError,
> {
    if s.len() == 0 || s[0] != tag {
        Err(DecodeError::DataError)
    } else {
        match line_outcome(s.drop_first()) {
            Ok((t, more)) => match unsigned_value(t) {
                Some(v) => if v <= max {
                    Ok((v, more))
                } else {
                    Err(DecodeError::ParseIntError)
                },
                None => Err(DecodeError::ParseIntError),
            },
            Err(e) => Err(e),
        }
    }
}

/// Reading a tagged signed number between `min` and `max`.
pub open spec fn signed_outcome(s: Seq<u8>, tag: u8, min: int, max: int) -> Result<
    (int, Seq<u8>),
    DecodeError,
> {
    if s.len() == 0 || s[0] != tag {
        Err(DecodeError::DataError)
    } else {
        match line_outcome(s.drop_first()) {
            Ok((t, more)) => match signed_value(t) {
                Some(v) => if min <= v <= max {
                    Ok((v, more))
                } else {
                    Err(DecodeError::ParseIntError)
                },
                None => Err(DecodeError::ParseIntError),
            },
            Err(e) => Err(e),
        }
    }
}

/// Reading a run of bytes given by its length, after its tag: the length, a
/// line feed, the bytes and a line feed.
pub open spec fn length_given_outcome(s: Seq<u8>) -> Result<(Seq<u8>, Seq<u8>), DecodeError> {
    match line_outcome(s) {
        Ok((t, more)) => match unsigned_value(t) {
            Some(n) => if n > usize::MAX {
                Err(DecodeError::ParseIntError)
            } else if n < more.len() && more[n as int] == LF {
                Ok((more.take(n as int), more.skip(n as int + 1)))
            } else {
                Err(DecodeError::DataError)
            },
            None => Err(DecodeError::ParseIntError),
        },
        Err(e) => Err(e),
    }
}

/// Reading the bytes of a string, before they are checked to be UTF-8.
pub open spec fn str_outcome(s: Seq<u8>) -> Result<(Seq<u8>, Seq<u8>), DecodeError> {
    if s.len() > 0 && s[0] == TAG_STR {
        line_outcome(s.drop_first())
    } else if s.len() > 0 && s[0] == TAG_STR_LEN {
        length_given_outcome(s.drop_first())
    } else {
        Err(DecodeError::DataError)
    }
}

/// Reading a byte string.
pub open spec fn bytes_outcome(s: Seq<u8>) -> Result<(Seq<u8>, Seq<u8>), DecodeError> {
    if s.len() > 0 && s[0] == TAG_BYTES {
        length_given_outcome(s.drop_first())
    } else {
        Err(DecodeError::DataError)
    }
}

/// What a string's bytes give: their characters, or an error where they are
/// not UTF-8.
pub open spec fn utf8_outcome(b: Seq<u8>) -> Result<Seq<char>, DecodeError> {
    if valid_utf8(b) {
        Ok(decode_utf8(b))
    } else {
        Err(DecodeError::FromUtf8Error)
    }
}

/// Reading a `char`: its tag, then a line that holds one character.
pub open spec fn char_outcome(s: Seq<u8>) -> Result<(char, Seq<u8>), DecodeError> {
    match tagged_line_outcome(s, TAG_CHAR) {
        Ok((c, more)) => if c.len() == 1 {
            Ok((c[0], more))
        } else {
            Err(DecodeError::DataError)
        },
        Err(e) => Err(e),
    }
}

/// Reading a tag, then a line of text.
pub open spec fn tagged_line_outcome(s: Seq<u8>, tag: u8) -> Result<(Seq<char>, Seq<u8>), DecodeError> {
    if s.len() == 0 || s[0] != tag {
        Err(DecodeError::DataError)
    } else {
        match line_outcome(s.drop_first()) {
            Ok((t, more)) => match utf8_outcome(t) {
                Ok(c) => Ok((c, more)),
                Err(e) => Err(e),
            },
            Err(e) => Err(e),
        }
    }
}

/// The first line feed of `s` is the one at `k`.
proof fn lemma_lf_index_at(s: Seq<u8>, k: nat)
    requires
        k < s.len(),
        s[k as int] == LF,
        forall|i: int| 0 <= i < k ==> s[i] != LF,
    ensures
        lf_index(s) == Some(k),
    decreases k,
{
    if k > 0 {
        let t = s.drop_first();
        assert forall|i: int| 0 <= i < k - 1 implies t[i] != LF by {
            assert(t[i] == s[i + 1]);
        }
        lemma_lf_index_at(t, (k - 1) as nat);
    }
}

/// A string with no line feed has no first one.
proof fn lemma_lf_index_none(s: Seq<u8>)
    requires
        forall|i: int| 0 <= i < s.len() ==> s[i] != LF,
    ensures
        lf_index(s) is None,
    decreases s.len(),
{
    if s.len() > 0 {
        let t = s.drop_first();
        assert forall|i: int| 0 <= i < t.len() implies t[i] != LF by {
            assert(t[i] == s[i + 1]);
        }
        lemma_lf_index_none(t);
    }
}

/// A line with no line feed in it is read back whole.
pub proof fn lemma_line(a: Seq<u8>, b: Seq<u8>)
    requires
        !has_lf(a),
    ensures
        line_outcome(a + seq![LF] + b) == Ok::<(Seq<u8>, Seq<u8>), DecodeError>((a, b)),
{
    let s = a + seq![LF] + b;
    assert forall|i: int| 0 <= i < a.len() implies s[i] != LF by {
        assert(s[i] == a[i]);
    }
    lemma_lf_index_at(s, a.len());
    assert(s.take(a.len() as int) == a);
    assert(s.skip(a.len() as int + 1) == b);
}

/// Digits hold no line feed.
pub proof fn lemma_decimal_no_lf(n: nat)
    ensures
        !has_lf(decimal(n)),
{
    lemma_decimal_digits(n);
    if has_lf(decimal(n)) {
        let i = choose|i: int| 0 <= i < decimal(n).len() && decimal(n)[i] == LF;
        assert(all_digits(decimal(n)));
    }
}

/// A tagged unsigned number is read back.
pub proof fn lemma_unsigned(tag: u8, n: nat, max: nat, more: Seq<u8>)
    requires
        n <= max,
    ensures
        unsigned_outcome(tagged(tag, decimal(n)) + more, tag, max) == Ok::<
            (nat, Seq<u8>),
            DecodeError,
        >((n, more)),
{
    let s = tagged(tag, decimal(n)) + more;
    lemma_decimal_no_lf(n);
    assert(s.drop_first() == decimal(n) + seq![LF] + more);
    lemma_line(decimal(n), more);
    lemma_unsigned_round_trip(n);
}

/// A tagged signed number is read back.
pub proof fn lemma_signed(tag: u8, i: int, min: int, max: int, more: Seq<u8>)
    requires
        min <= i <= max,
    ensures
        signed_outcome(tagged(tag, signed_decimal(i)) + more, tag, min, max) == Ok::<
            (int, Seq<u8>),
            DecodeError,
        >((i, more)),
{
    let s = tagged(tag, signed_decimal(i)) + more;
    let t = signed_decimal(i);
    if i < 0 {
        lemma_decimal_no_lf((-i) as nat);
        assert(!has_lf(t)) by {
            if has_lf(t) {
                let j = choose|j: int| 0 <= j < t.len() && t[j] == LF;
                assert(j > 0);
                assert(t[j] == decimal((-i) as nat)[j - 1]);
            }
        }
    } else {
        lemma_decimal_no_lf(i as nat);
    }
    assert(s.drop_first() == t + seq![LF] + more);
    lemma_line(t, more);
    lemma_signed_round_trip(i);
}

/// A run of bytes given by its length is read back.
pub proof fn lemma_length_given(tag: u8, b: Seq<u8>, more: Seq<u8>)
    requires
        b.len() <= usize::MAX,
    ensures
        length_given_outcome((length_given(tag, b) + more).drop_first()) == Ok::<
            (Seq<u8>, Seq<u8>),
            DecodeError,
        >((b, more)),
{
    let s = (length_given(tag, b) + more).drop_first();
    let after = b + seq![LF] + more;
    assert(s == decimal(b.len()) + seq![LF] + after);
    lemma_decimal_no_lf(b.len());
    lemma_line(decimal(b.len()), after);
    lemma_unsigned_round_trip(b.len());
    assert(after[b.len() as int] == LF);
    assert(after.take(b.len() as int) == b);
    assert(after.skip(b.len() as int + 1) == more);
}

/// A string's bytes are read back.
pub proof fn lemma_str(b: Seq<u8>, more: Seq<u8>)
    requires
        b.len() <= usize::MAX,
    ensures
        str_outcome(str_bytes(b) + more) == Ok::<(Seq<u8>, Seq<u8>), DecodeError>((b, more)),
{
    let s = str_bytes(b) + more;
    if has_lf(b) {
        lemma_length_given(TAG_STR_LEN, b, more);
    } else {
        assert(s.drop_first() == b + seq![LF] + more);
        lemma_line(b, more);
    }
}

/// A string is read back.
pub proof fn lemma_string(c: Seq<char>, more: Seq<u8>)
    requires
        encode_utf8(c).len() <= usize::MAX,
    ensures
        str_outcome(string_bytes(c) + more) == Ok::<(Seq<u8>, Seq<u8>), DecodeError>(
            (encode_utf8(c), more),
        ),
        utf8_outcome(encode_utf8(c)) == Ok::<Seq<char>, DecodeError>(c),
{
    lemma_str(encode_utf8(c), more);
    encode_utf8_valid_utf8(c);
    encode_utf8_decode_utf8(c);
}

/// Relies on `String::from_utf8`: it succeeds exactly on valid UTF-8, and the
/// string then holds the characters that the bytes encode.
#[verifier::external_body]
fn string_from_utf8(b: Vec<u8>) -> (r: Option<String>)
    ensures
        r is Some <==> valid_utf8(b@),
        r is Some ==> r->0@ == decode_utf8(b@),
{
    String::from_utf8(b).ok()
}

/// Reads values from a buffer of bytes, front to back.
pub struct Deserializer {
    input: Vec<u8>,
    pos: usize,
}

impl Deserializer {
    #[verifier::type_invariant]
    spec fn inv(&self) -> bool {
        self.pos <= self.input.len()
    }

    /// All bytes, read or not.
    pub closed spec fn input(&self) -> Seq<u8> {
        self.input@
    }

    /// How many bytes have been read.
    pub closed spec fn pos(&self) -> nat {
        self.pos as nat
    }

    /// The bytes not read yet.
    pub open spec fn rest(&self) -> Seq<u8> {
        self.input().skip(self.pos() as int)
    }

    /// A reader at the start of `input`.
    pub fn new(input: Vec<u8>) -> (d: Self)
        ensures
            d.input() == input@,
            d.pos() == 0,
            d.rest() == input@,
    {
        let d = Deserializer { input, pos: 0 };
        assert(d.input().skip(0) == input@);
        d
    }

    /// How many bytes have been read.
    pub fn position(&self) -> (r: usize)
        ensures
            r == self.pos(),
            r <= self.input().len(),
    {
        proof {
            use_type_invariant(self);
        }
        self.pos
    }

    /// The next byte, if any, without reading it.
    pub fn peek(&self) -> (r: Option<u8>)
        ensures
            r == (if self.rest().len() > 0 {
                Some(self.rest()[0])
            } else {
                None
            }),
    {
        proof {
            use_type_invariant(self);
        }
        if self.pos < self.input.len() {
            Some(self.input[self.pos])
        } else {
            None
        }
    }

    /// Up to `num` next bytes, without reading them.
    pub fn peekn(&self, num: u8) -> (r: Vec<u8>)
        ensures
            r@ == self.rest().take(
                if num as nat <= self.rest().len() {
                    num as int
                } else {
                    self.rest().len() as int
                },
            ),
    {
        proof {
            use_type_invariant(self);
        }
        let avail = self.input.len() - self.pos;
        let n: usize = if (num as usize) <= avail {
            num as usize
        } else {
            avail
        };
        let r = slice_to_vec(slice_subrange(self.input.as_slice(), self.pos, self.pos + n));
        assert(r@ == self.rest().take(n as int));
        r
    }

    /// Reads up to `num` bytes and drops them.
    pub fn consume(&mut self, num: u8)
        ensures
            final(self).input() == old(self).input(),
            old(self).pos() <= final(self).pos(),
            final(self).pos() == old(self).pos() + (if num as nat <= old(self).rest().len() {
                num as nat
            } else {
                old(self).rest().len()
            }),
            final(self).rest() == old(self).rest().skip(
                if num as nat <= old(self).rest().len() {
                    num as int
                } else {
                    old(self).rest().len() as int
                },
            ),
    {
        proof {
            use_type_invariant(&*self);
        }
        let avail = self.input.len() - self.pos;
        if (num as usize) <= avail {
            self.pos = self.pos + num as usize;
        } else {
            self.pos = self.input.len();
        }
    }

    /// Reads `n` bytes.
    fn take_bytes(&mut self, n: usize) -> (r: Vec<u8>)
        requires
            n <= old(self).rest().len(),
        ensures
            final(self).input() == old(self).input(),
            old(self).pos() <= final(self).pos(),
            r@ == old(self).rest().take(n as int),
            final(self).rest() == old(self).rest().skip(n as int),
    {
        proof {
            use_type_invariant(&*self);
        }
        let r = slice_to_vec(slice_subrange(self.input.as_slice(), self.pos, self.pos + n));
        self.pos = self.pos + n;
        r
    }

    /// Reads the bytes up to the next line feed, and the line feed.
    fn read_line_bytes(&mut self) -> (r: Result<Vec<u8>, DecodeError>)
        ensures
            final(self).input() == old(self).input(),
            old(self).pos() <= final(self).pos(),
            match line_outcome(old(self).rest()) {
                Ok((t, more)) => r is Ok && r->Ok_0@ == t && final(self).rest() == more,
                Err(e) => r == Err::<Vec<u8>, DecodeError>(e),
            },
    {
        proof {
            use_type_invariant(&*self);
        }
        let ghost s = old(self).rest();
        let mut i: usize = self.pos;
        while i < self.input.len()
            invariant
                self.pos <= i <= self.input@.len(),
                self.input@ == old(self).input(),
                self.pos == old(self).pos(),
                s == self.input@.skip(self.pos as int),
                forall|j: int| 0 <= j < i - self.pos ==> s[j] != LF,
            decreases self.input@.len() - i,
        {
            if self.input[i] == LF {
                proof {
                    lemma_lf_index_at(s, (i - self.pos) as nat);
                }
                let r = self.take_bytes(i - self.pos);
                self.consume(1);
                return Ok(r);
            }
            i = i + 1;
        }
        proof {
            lemma_lf_index_none(s);
        }
        Err(DecodeError::DataError)
    }

    /// Reads a line and gives it without its line feed.
    pub fn read_line(&mut self) -> (r: Result<String, DecodeError>)
        ensures
            final(self).input() == old(self).input(),
            old(self).pos() <= final(self).pos(),
            match line_outcome(old(self).rest()) {
                Ok((t, more)) => final(self).rest() == more && match utf8_outcome(t) {
                    Ok(c) => r is Ok && r->Ok_0@ == c,
                    Err(e) => r == Err::<String, DecodeError>(e),
                },
                Err(e) => r == Err::<String, DecodeError>(e),
            },
    {
        let b = self.read_line_bytes()?;
        match string_from_utf8(b) {
            Some(s) => Ok(s),
            None => Err(DecodeError::FromUtf8Error),
        }
    }

    /// Reads a tagged unsigned number of at most `max`.
    fn parse_unsigned_tagged(&mut self, tag: u8, max: u128) -> (r: Result<u128, DecodeError>)
        ensures
            final(self).input() == old(self).input(),
            old(self).pos() <= final(self).pos(),
            match unsigned_outcome(old(self).rest(), tag, max as nat) {
                Ok((v, more)) => r == Ok::<u128, DecodeError>(v as u128) && final(self).rest()
                    == more,
                Err(e) => r == Err::<u128, DecodeError>(e),
            },
    {
        match self.peek() {
            Some(t) => {
                if t != tag {
                    return Err(DecodeError::DataError);
                }
            },
            None => {
                return Err(DecodeError::DataError);
            },
        }
        self.consume(1);
        let line = self.read_line_bytes()?;
        match parse_unsigned(line.as_slice()) {
            Some(v) => {
                if v <= max {
                    Ok(v)
                } else {
                    Err(DecodeError::ParseIntError)
                }
            },
            None => Err(DecodeError::ParseIntError),
        }
    }

    /// Reads a tagged signed number between `min` and `max`.
    fn parse_signed_tagged(&mut self, tag: u8, min: i128, max: i128) -> (r: Result<
        i128,
        DecodeError,
    >)
        ensures
            final(self).input() == old(self).input(),
            old(self).pos() <= final(self).pos(),
            match signed_outcome(old(self).rest(), tag, min as int, max as int) {
                Ok((v, more)) => r == Ok::<i128, DecodeError>(v as i128) && final(self).rest()
                    == more,
                Err(e) => r == Err::<i128, DecodeError>(e),
            },
    {
        match self.peek() {
            Some(t) => {
                if t != tag {
                    return Err(DecodeError::DataError);
                }
            },
            None => {
                return Err(DecodeError::DataError);
            },
        }
        self.consume(1);
        let line = self.read_line_bytes()?;
        match parse_signed(line.as_slice()) {
            Some(v) => {
                if min <= v && v <= max {
                    Ok(v)
                } else {
                    Err(DecodeError::ParseIntError)
                }
            },
            None => Err(DecodeError::ParseIntError),
        }
    }

    /// Reads a `u8`.
    pub fn parse_u8(&mut self) -> (r: Result<u8, DecodeError>)
        ensures
            final(self).input() == old(self).input(),
            old(self).pos() <= final(self).pos(),
            match unsigned_outcome(old(self).rest(), TAG_U8, u8::MAX as nat) {
                Ok((v, more)) => r == Ok::<u8, DecodeError>(v as u8) && final(self).rest() == more,
                Err(e) => r == Err::<u8, DecodeError>(e),
            },
    {
        let v = self.parse_unsigned_tagged(TAG_U8, u8::MAX as u128)?;
        Ok(v as u8)
    }

    /// Reads a `u16`.
    pub fn parse_u16(&mut self) -> (r: Result<u16, DecodeError>)
        ensures
            final(self).input() == old(self).input(),
            old(self).pos() <= final(self).pos(),
            match unsigned_outcome(old(self).rest(), TAG_U16, u16::MAX as nat) {
                Ok((v, more)) => r == Ok::<u16, DecodeError>(v as u16) && final(self).rest() == more,
                Err(e) => r == Err::<u16, DecodeError>(e),
            },
    {
        let v = self.parse_unsigned_tagged(TAG_U16, u16::MAX as u128)?;
        Ok(v as u16)
    }

    /// Reads a `u32`.
    pub fn parse_u32(&mut self) -> (r: Result<u32, DecodeError>)
        ensures
            final(self).input() == old(self).input(),
            old(self).pos() <= final(self).pos(),
            match unsigned_outcome(old(self).rest(), TAG_U32, u32::MAX as nat) {
                Ok((v, more)) => r == Ok::<u32, DecodeError>(v as u32) && final(self).rest() == more,
                Err(e) => r == Err::<u32, DecodeError>(e),
            },
    {
        let v = self.parse_unsigned_tagged(TAG_U32, u32::MAX as u128)?;
        Ok(v as u32)
    }

    /// Reads a `u64`.
    pub fn parse_u64(&mut self) -> (r: Result<u64, DecodeError>)
        ensures
            final(self).input() == old(self).input(),
            old(self).pos() <= final(self).pos(),
            match unsigned_outcome(old(self).rest(), TAG_U64, u64::MAX as nat) {
                Ok((v, more)) => r == Ok::<u64, DecodeError>(v as u64) && final(self).rest() == more,
                Err(e) => r == Err::<u64, DecodeError>(e),
            },
    {
        let v = self.parse_unsigned_tagged(TAG_U64, u64::MAX as u128)?;
        Ok(v as u64)
    }

    /// Reads a `u128`.
    pub fn parse_u128(&mut self) -> (r: Result<u128, DecodeError>)
        ensures
            final(self).input() == old(self).input(),
            old(self).pos() <= final(self).pos(),
            match unsigned_outcome(old(self).rest(), TAG_U128, u128::MAX as nat) {
                Ok((v, more)) => r == Ok::<u128, DecodeError>(v as u128) && final(self).rest() == more,
                Err(e) => r == Err::<u128, DecodeError>(e),
            },
    {
        let v = self.parse_unsigned_tagged(TAG_U128, u128::MAX as u128)?;
        Ok(v as u128)
    }

    /// Reads an `i8`.
    pub fn parse_i8(&mut self) -> (r: Result<i8, DecodeError>)
        ensures
            final(self).input() == old(self).input(),
            old(self).pos() <= final(self).pos(),
            match signed_outcome(old(self).rest(), TAG_I8, i8::MIN as int, i8::MAX as int) {
                Ok((v, more)) => r == Ok::<i8, DecodeError>(v as i8) && final(self).rest() == more,
                Err(e) => r == Err::<i8, DecodeError>(e),
            },
    {
        let v = self.parse_signed_tagged(TAG_I8, i8::MIN as i128, i8::MAX as i128)?;
        Ok(v as i8)
    }

    /// Reads an `i16`.
    pub fn parse_i16(&mut self) -> (r: Result<i16, DecodeError>)
        ensures
            final(self).input() == old(self).input(),
            old(self).pos() <= final(self).pos(),
            match signed_outcome(old(self).rest(), TAG_I16, i16::MIN as int, i16::MAX as int) {
                Ok((v, more)) => r == Ok::<i16, DecodeError>(v as i16) && final(self).rest() == more,
                Err(e) => r == Err::<i16, DecodeError>(e),
            },
    {
        let v = self.parse_signed_tagged(TAG_I16, i16::MIN as i128, i16::MAX as i128)?;
        Ok(v as i16)
    }

    /// Reads an `i32`.
    pub fn parse_i32(&mut self) -> (r: Result<i32, DecodeError>)
        ensures
            final(self).input() == old(self).input(),
            old(self).pos() <= final(self).pos(),
            match signed_outcome(old(self).rest(), TAG_I32, i32::MIN as int, i32::MAX as int) {
                Ok((v, more)) => r == Ok::<i32, DecodeError>(v as i32) && final(self).rest() == more,
                Err(e) => r == Err::<i32, DecodeError>(e),
            },
    {
        let v = self.parse_signed_tagged(TAG_I32, i32::MIN as i128, i32::MAX as i128)?;
        Ok(v as i32)
    }

    /// Reads an `i64`.
    pub fn parse_i64(&mut self) -> (r: Result<i64, DecodeError>)
        ensures
            final(self).input() == old(self).input(),
            old(self).pos() <= final(self).pos(),
            match signed_outcome(old(self).rest(), TAG_I64, i64::MIN as int, i64::MAX as int) {
                Ok((v, more)) => r == Ok::<i64, DecodeError>(v as i64) && final(self).rest() == more,
                Err(e) => r == Err::<i64, DecodeError>(e),
            },
    {
        let v = self.parse_signed_tagged(TAG_I64, i64::MIN as i128, i64::MAX as i128)?;
        Ok(v as i64)
    }

    /// Reads an `i128`.
    pub fn parse_i128(&mut self) -> (r: Result<i128, DecodeError>)
        ensures
            final(self).input() == old(self).input(),
            old(self).pos() <= final(self).pos(),
            match signed_outcome(old(self).rest(), TAG_I128, i128::MIN as int, i128::MAX as int) {
                Ok((v, more)) => r == Ok::<i128, DecodeError>(v as i128) && final(self).rest() == more,
                Err(e) => r == Err::<i128, DecodeError>(e),
            },
    {
        let v = self.parse_signed_tagged(TAG_I128, i128::MIN as i128, i128::MAX as i128)?;
        Ok(v as i128)
    }

    /// Reads `p` if the unread bytes begin with it; reads nothing otherwise.
    pub fn expect(&mut self, p: &[u8]) -> (r: bool)
        ensures
            final(self).input() == old(self).input(),
            old(self).pos() <= final(self).pos(),
            r == starts_with(old(self).rest(), p@),
            r ==> final(self).rest() == old(self).rest().skip(p@.len() as int),
            !r ==> final(self).rest() == old(self).rest(),
    {
        proof {
            use_type_invariant(&*self);
        }
        let ghost s = self.rest();
        let base = self.pos;
        if p.len() > self.input.len() - base {
            return false;
        }
        assert(base + p@.len() <= self.input@.len());
        let mut i: usize = 0;
        while i < p.len()
            invariant
                0 <= i <= p@.len(),
                self.input@.len() <= usize::MAX,
                self.input@ == old(self).input(),
                self.pos == old(self).pos(),
                base == self.pos,
                base + p@.len() <= self.input@.len(),
                p@.len() <= s.len(),
                s == self.input@.skip(self.pos as int),
                forall|j: int| 0 <= j < i ==> s[j] == p@[j],
            decreases p@.len() - i,
        {
            if self.input[base + i] != p[i] {
                assert(s.take(p@.len() as int)[i as int] != p@[i as int]);
                return false;
            }
            i = i + 1;
        }
        assert(s.take(p@.len() as int) =~= p@);
        let _ = self.take_bytes(p.len());
        true
    }

    /// The bytes read since position `start`.
    pub fn read_since(&self, start: usize) -> (r: Vec<u8>)
        requires
            start <= self.pos(),
        ensures
            r@ == self.input().subrange(start as int, self.pos() as int),
            self.pos() <= self.input().len(),
    {
        proof {
            use_type_invariant(self);
        }
        slice_to_vec(slice_subrange(self.input.as_slice(), start, self.pos))
    }

    /// Reads the tag byte `tag`.
    fn expect_tag(&mut self, tag: u8) -> (r: Result<(), DecodeError>)
        ensures
            final(self).input() == old(self).input(),
            old(self).pos() <= final(self).pos(),
            if old(self).rest().len() > 0 && old(self).rest()[0] == tag {
                r is Ok && final(self).rest() == old(self).rest().drop_first()
            } else {
                r == Err::<(), DecodeError>(DecodeError::DataError)
            },
    {
        match self.peek() {
            Some(t) => {
                if t != tag {
                    return Err(DecodeError::DataError);
                }
            },
            None => {
                return Err(DecodeError::DataError);
            },
        }
        self.consume(1);
        Ok(())
    }

    /// Reads a run of bytes given by its length, after its tag: the length,
    /// a line feed, the bytes and a line feed.
    pub fn read_exact_given_discarding_ending_newline(&mut self) -> (r: Result<
        Vec<u8>,
        DecodeError,
    >)
        ensures
            final(self).input() == old(self).input(),
            old(self).pos() <= final(self).pos(),
            match length_given_outcome(old(self).rest()) {
                Ok((b, more)) => r is Ok && r->Ok_0@ == b && final(self).rest() == more,
                Err(e) => r == Err::<Vec<u8>, DecodeError>(e),
            },
    {
        let line = self.read_line_bytes()?;
        let n = match parse_unsigned(line.as_slice()) {
            Some(v) => {
                if v > usize::MAX as u128 {
                    return Err(DecodeError::ParseIntError);
                }
                v as usize
            },
            None => {
                return Err(DecodeError::ParseIntError);
            },
        };
        proof {
            use_type_invariant(&*self);
        }
        if n >= self.input.len() - self.pos || self.input[self.pos + n] != LF {
            return Err(DecodeError::DataError);
        }
        let b = self.take_bytes(n);
        self.consume(1);
        Ok(b)
    }

    /// Reads a boolean: `1` or `0` and a line feed.
    pub fn parse_bool(&mut self) -> (r: Result<bool, DecodeError>)
        ensures
            final(self).input() == old(self).input(),
            old(self).pos() <= final(self).pos(),
            if starts_with(old(self).rest(), bool_bytes(true)) {
                r == Ok::<bool, DecodeError>(true) && final(self).rest() == old(self).rest().skip(2)
            } else if starts_with(old(self).rest(), bool_bytes(false)) {
                r == Ok::<bool, DecodeError>(false) && final(self).rest() == old(self).rest().skip(
                    2,
                )
            } else {
                r == Err::<bool, DecodeError>(DecodeError::DataError)
            },
    {
        let two = self.peekn(2);
        if two.len() == 2 && two[1] == LF && (two[0] == 49 || two[0] == 48) {
            let v = two[0] == 49;
            self.consume(2);
            assert(two@ == bool_bytes(v));
            Ok(v)
        } else {
            assert(!starts_with(old(self).rest(), bool_bytes(true)) && !starts_with(
                old(self).rest(),
                bool_bytes(false),
            )) by {
                if starts_with(old(self).rest(), bool_bytes(true)) {
                    assert(two@ =~= bool_bytes(true));
                }
                if starts_with(old(self).rest(), bool_bytes(false)) {
                    assert(two@ =~= bool_bytes(false));
                }
            }
            Err(DecodeError::DataError)
        }
    }

    /// Reads an absent optional value, `!` and a line feed, if that is what
    /// comes next; reads nothing otherwise.
    pub fn parse_none(&mut self) -> (r: bool)
        ensures
            final(self).input() == old(self).input(),
            old(self).pos() <= final(self).pos(),
            r == starts_with(old(self).rest(), none_bytes()),
            r ==> final(self).rest() == old(self).rest().skip(2),
            !r ==> final(self).rest() == old(self).rest(),
    {
        let two = self.peekn(2);
        if two.len() == 2 && two[0] == TAG_NONE && two[1] == LF {
            self.consume(2);
            assert(two@ == none_bytes());
            true
        } else {
            assert(!starts_with(old(self).rest(), none_bytes())) by {
                if starts_with(old(self).rest(), none_bytes()) {
                    assert(two@ =~= none_bytes());
                }
            }
            false
        }
    }

    /// Reads a `char`: its tag, the character and a line feed.
    pub fn parse_char(&mut self) -> (r: Result<char, DecodeError>)
        ensures
            final(self).input() == old(self).input(),
            old(self).pos() <= final(self).pos(),
            match char_outcome(old(self).rest()) {
                Ok((c, more)) => r == Ok::<char, DecodeError>(c) && final(self).rest() == more,
                Err(e) => r == Err::<char, DecodeError>(e),
            },
    {
        self.expect_tag(TAG_CHAR)?;
        let line = self.read_line()?;
        let text = line.as_str();
        if text.unicode_len() == 1 {
            Ok(text.get_char(0))
        } else {
            Err(DecodeError::DataError)
        }
    }

    /// Reads a string, written with `$` or given by its length with `&`.
    pub fn parse_string(&mut self) -> (r: Result<String, DecodeError>)
        ensures
            final(self).input() == old(self).input(),
            old(self).pos() <= final(self).pos(),
            match str_outcome(old(self).rest()) {
                Ok((b, more)) => match utf8_outcome(b) {
                    Ok(c) => r is Ok && r->Ok_0@ == c && final(self).rest() == more,
                    Err(e) => r == Err::<String, DecodeError>(e),
                },
                Err(e) => r == Err::<String, DecodeError>(e),
            },
    {
        let b = match self.peek() {
            Some(t) => {
                if t == TAG_STR {
                    self.consume(1);
                    self.read_line_bytes()?
                } else if t == TAG_STR_LEN {
                    self.consume(1);
                    self.read_exact_given_discarding_ending_newline()?
                } else {
                    return Err(DecodeError::DataError);
                }
            },
            None => {
                return Err(DecodeError::DataError);
            },
        };
        match string_from_utf8(b) {
            Some(s) => Ok(s),
            None => Err(DecodeError::FromUtf8Error),
        }
    }

    /// Reads a byte string: `%`, its length, a line feed, the bytes and a line
    /// feed.
    pub fn parse_bytes(&mut self) -> (r: Result<Vec<u8>, DecodeError>)
        ensures
            final(self).input() == old(self).input(),
            old(self).pos() <= final(self).pos(),
            match bytes_outcome(old(self).rest()) {
                Ok((b, more)) => r is Ok && r->Ok_0@ == b && final(self).rest() == more,
                Err(e) => r == Err::<Vec<u8>, DecodeError>(e),
            },
    {
        self.expect_tag(TAG_BYTES)?;
        self.read_exact_given_discarding_ending_newline()
    }

    /// Reads the text of an `f32` as a line after its tag; turning the text
    /// into a float is left to the caller.
    pub fn read_f32_text(&mut self) -> (r: Result<String, DecodeError>)
        ensures
            final(self).input() == old(self).input(),
            old(self).pos() <= final(self).pos(),
            match tagged_line_outcome(old(self).rest(), TAG_F32) {
                Ok((c, more)) => r is Ok && r->Ok_0@ == c && final(self).rest() == more,
                Err(e) => r == Err::<String, DecodeError>(e),
            },
    {
        self.expect_tag(TAG_F32)?;
        self.read_line()
    }

    /// Reads the text of an `f64` as a line after its tag; turning the text
    /// into a float is left to the caller.
    pub fn read_f64_text(&mut self) -> (r: Result<String, DecodeError>)
        ensures
            final(self).input() == old(self).input(),
            old(self).pos() <= final(self).pos(),
            match tagged_line_outcome(old(self).rest(), TAG_F64) {
                Ok((c, more)) => r is Ok && r->Ok_0@ == c && final(self).rest() == more,
                Err(e) => r == Err::<String, DecodeError>(e),
            },
    {
        self.expect_tag(TAG_F64)?;
        self.read_line()
    }

    /// Reads a count of elements: a line holding a `u32`.
    pub fn read_length(&mut self) -> (r: Result<u32, DecodeError>)
        ensures
            final(self).input() == old(self).input(),
            old(self).pos() <= final(self).pos(),
            match line_outcome(old(self).rest()) {
                Ok((t, more)) => final(self).rest() == more && match unsigned_value(t) {
                    Some(v) => if v <= u32::MAX {
                        r == Ok::<u32, DecodeError>(v as u32)
                    } else {
                        r == Err::<u32, DecodeError>(DecodeError::ParseIntError)
                    },
                    None => r == Err::<u32, DecodeError>(DecodeError::ParseIntError),
                },
                Err(e) => r == Err::<u32, DecodeError>(e),
            },
    {
        let line = self.read_line_bytes()?;
        match parse_unsigned(line.as_slice()) {
            Some(v) => {
                if v <= u32::MAX as u128 {
                    Ok(v as u32)
                } else {
                    Err(DecodeError::ParseIntError)
                }
            },
            None => Err(DecodeError::ParseIntError),
        }
    }

    /// Checks a count of elements against the expected one.
    pub fn verify_length(&self, len: usize, element_count: usize) -> (r: Result<(), DecodeError>)
        ensures
            r is Ok <==> len == element_count,
            r is Err ==> r == Err::<(), DecodeError>(DecodeError::DataError),
    {
        if len != element_count {
            return Err(DecodeError::DataError);
        }
        Ok(())
    }

    /// Reads a count of elements and checks it against `len`.
    pub fn read_and_verify_length(&mut self, len: usize) -> (r: Result<(), DecodeError>)
        ensures
            final(self).input() == old(self).input(),
            old(self).pos() <= final(self).pos(),
            match line_outcome(old(self).rest()) {
                Ok((t, more)) => final(self).rest() == more && match unsigned_value(t) {
                    Some(v) => if v > u32::MAX {
                        r == Err::<(), DecodeError>(DecodeError::ParseIntError)
                    } else if v == len {
                        r is Ok
                    } else {
                        r == Err::<(), DecodeError>(DecodeError::DataError)
                    },
                    None => r == Err::<(), DecodeError>(DecodeError::ParseIntError),
                },
                Err(e) => r == Err::<(), DecodeError>(e),
            },
    {
        let element_count = self.read_length()?;
        self.verify_length(len, element_count as usize)
    }

    /// Reads a name and checks it against `name`; the name `*` matches any.
    pub fn read_and_verify_name(&mut self, name: &str) -> (r: Result<(), DecodeError>)
        ensures
            final(self).input() == old(self).input(),
            old(self).pos() <= final(self).pos(),
            match line_outcome(old(self).rest()) {
                Ok((t, more)) => final(self).rest() == more && match utf8_outcome(t) {
                    Ok(c) => if name@ == seq!['*'] || c == name@ {
                        r is Ok
                    } else {
                        r == Err::<(), DecodeError>(DecodeError::DataError)
                    },
                    Err(e) => r == Err::<(), DecodeError>(e),
                },
                Err(e) => r == Err::<(), DecodeError>(e),
            },
    {
        let the_name = self.read_line()?;
        let any = name.unicode_len() == 1 && name.get_char(0) == '*';
        proof {
            if name@ == seq!['*'] {
                assert(name@[0] == '*');
            }
            if any {
                assert(name@ =~= seq!['*']);
            }
        }
        if !any && !the_name.eq(&name.to_owned()) {
            return Err(DecodeError::DataError);
        }
        Ok(())
    }
}

} // verus!
