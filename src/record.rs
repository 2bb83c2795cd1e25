//! The record that the log is made of, and its encoding.
//!
//! A record is written as the struct `Record` with the fields `db_key`, `key`
//! and `value` in that order, each field's name before its value.
use vstd::prelude::*;
use vstd::utf8::*;

use crate::de::{
    lemma_string, lemma_unsigned, starts_with, str_outcome,
    unsigned_outcome, utf8_outcome, DecodeError, Deserializer,
};
use crate::decimal::{decimal, lemma_decimal_len_monotone};
use crate::ser::{none_bytes, string_bytes, struct_header, tagged, Serializer, TAG_STR, TAG_U64};

verus! {

/// One entry of the log: a write of `value` under `key`, or, where `value` is
/// `None`, the removal of `key`. `db_key` is the offset at which the record
/// stands in its log.
#[derive(Clone, Debug, PartialEq, Eq)]
pub struct Record {
    /// The offset of the record in its log.
    pub db_key: u64,
    /// The key.
    pub key: String,
    /// The value written, or `None` for a removal.
    pub value: Option<String>,
}

/// A record as a mathematical value.
pub struct RecordView {
    pub db_key: u64,
    pub key: Seq<char>,
    pub value: Option<Seq<char>>,
}

impl View for Record {
    type V = RecordView;

    open spec fn view(&self) -> RecordView {
        RecordView {
            db_key: self.db_key,
            key: self.key@,
            value: match self.value {
                Some(v) => Some(v@),
                None => None,
            },
        }
    }
}

/// `Record`.
pub open spec fn record_name() -> Seq<u8> {
    seq![82u8, 101, 99, 111, 114, 100]
}

/// `db_key`.
pub open spec fn db_key_name() -> Seq<u8> {
    seq![100u8, 98, 95, 107, 101, 121]
}

/// `key`.
pub open spec fn key_name() -> Seq<u8> {
    seq![107u8, 101, 121]
}

/// `value`.
pub open spec fn value_name() -> Seq<u8> {
    seq![118u8, 97, 108, 117, 101]
}

/// What every record begins with: the struct's header and the name of its
/// first field.
pub open spec fn record_head() -> Seq<u8> {
    struct_header(3, record_name()) + tagged(TAG_STR, db_key_name())
}

/// The encoding of an optional string.
pub open spec fn option_bytes(v: Option<Seq<char>>) -> Seq<u8> {
    match v {
        Some(c) => string_bytes(c),
        None => none_bytes(),
    }
}

/// The encoding of a record.
#[verifier::opaque]
pub open spec fn record_bytes(r: RecordView) -> Seq<u8> {
    record_head() + tagged(TAG_U64, decimal(r.db_key as nat)) + tagged(TAG_STR, key_name())
        + string_bytes(r.key) + tagged(TAG_STR, value_name()) + option_bytes(r.value)
}

/// Whether the strings of a record are short enough for their lengths to be
/// read back into a `usize`.
#[verifier::opaque]
pub open spec fn record_fits(r: RecordView) -> bool {
    &&& encode_utf8(r.key).len() <= usize::MAX
    &&& (r.value matches Some(v) ==> encode_utf8(v).len() <= usize::MAX)
}

/// Reading the rest of a record after its key: the value field.
pub open spec fn value_outcome(s: Seq<u8>) -> Result<(Option<Seq<char>>, Seq<u8>), DecodeError> {
    let vh = tagged(TAG_STR, value_name());
    if !starts_with(s, vh) {
        Err(DecodeError::DataError)
    } else {
        let t = s.skip(vh.len() as int);
        if starts_with(t, none_bytes()) {
            Ok((None, t.skip(2)))
        } else {
            match str_outcome(t) {
                Ok((b, more)) => match utf8_outcome(b) {
                    Ok(c) => Ok((Some(c), more)),
                    Err(e) => Err(e),
                },
                Err(e) => Err(e),
            }
        }
    }
}

/// Reading the key field of a record.
pub open spec fn key_outcome(s: Seq<u8>) -> Result<(Seq<char>, Seq<u8>), DecodeError> {
    let kh = tagged(TAG_STR, key_name());
    if !starts_with(s, kh) {
        Err(DecodeError::DataError)
    } else {
        match str_outcome(s.skip(kh.len() as int)) {
            Ok((b, more)) => match utf8_outcome(b) {
                Ok(c) => Ok((c, more)),
                Err(e) => Err(e),
            },
            Err(e) => Err(e),
        }
    }
}

/// Reading a record: the record its fields give, and the bytes after it.
pub open spec fn record_outcome(s: Seq<u8>) -> Result<(RecordView, Seq<u8>), DecodeError> {
    if !starts_with(s, record_head()) {
        Err(DecodeError::DataError)
    } else {
        match unsigned_outcome(s.skip(record_head().len() as int), TAG_U64, u64::MAX as nat) {
            Ok((db_key, s1)) => match key_outcome(s1) {
                Ok((key, s2)) => match value_outcome(s2) {
                    Ok((value, s3)) => Ok((RecordView { db_key: db_key as u64, key, value }, s3)),
                    Err(e) => Err(e),
                },
                Err(e) => Err(e),
            },
            Err(e) => Err(e),
        }
    }
}

/// Whatever follows a record's encoding, reading gives back that record and
/// leaves what follows.
pub proof fn lemma_record_round_trip(r: RecordView, more: Seq<u8>)
    requires
        record_fits(r),
    ensures
        record_outcome(record_bytes(r) + more) == Ok::<(RecordView, Seq<u8>), DecodeError>(
            (r, more),
        ),
{
    reveal(record_bytes);
    reveal(record_fits);
    let h = record_head();
    let n = tagged(TAG_U64, decimal(r.db_key as nat));
    let kh = tagged(TAG_STR, key_name());
    let kb = string_bytes(r.key);
    let vh = tagged(TAG_STR, value_name());
    let vb = option_bytes(r.value);
    let s = record_bytes(r) + more;
    let s1 = kh + kb + vh + vb + more;
    let s2 = vh + vb + more;
    let s3 = vb + more;
    assert(s == h + (n + s1));
    assert(s.take(h.len() as int) == h);
    assert(s.skip(h.len() as int) == n + s1);
    lemma_unsigned(TAG_U64, r.db_key as nat, u64::MAX as nat, s1);
    assert(s1.take(kh.len() as int) == kh);
    assert(s1.skip(kh.len() as int) == kb + s2);
    lemma_string(r.key, s2);
    assert(s2.take(vh.len() as int) == vh);
    assert(s2.skip(vh.len() as int) == s3);
    match r.value {
        Some(v) => {
            lemma_string(v, more);
            let b = encode_utf8(v);
            assert(!starts_with(s3, none_bytes())) by {
                if b.len() > 0 && (b[0] == 10 || !crate::ser::has_lf(b)) {
                }
                assert(s3[0] == 36 || s3[0] == 38);
            }
        },
        None => {
            assert(s3.take(2) == none_bytes());
            assert(s3.skip(2) == more);
        },
    }
}

/// Two records whose encodings both begin the same bytes are the same record,
/// followed by the same bytes.
pub proof fn lemma_record_bytes_unique(r1: RecordView, m1: Seq<u8>, r2: RecordView, m2: Seq<u8>)
    requires
        record_fits(r1),
        record_fits(r2),
        record_bytes(r1) + m1 == record_bytes(r2) + m2,
    ensures
        r1 == r2,
        m1 == m2,
{
    lemma_record_round_trip(r1, m1);
    lemma_record_round_trip(r2, m2);
}

/// Moving a record to a smaller offset does not lengthen it, and it can still
/// be read back.
pub proof fn lemma_record_moved(r: RecordView, db_key: u64)
    requires
        db_key <= r.db_key,
        record_fits(r),
    ensures
        record_bytes(RecordView { db_key, ..r }).len() <= record_bytes(r).len(),
        record_fits(RecordView { db_key, ..r }),
{
    reveal(record_bytes);
    reveal(record_fits);
    lemma_decimal_len_monotone(db_key as nat, r.db_key as nat);
}

/// Writes a record.
pub fn encode_record(r: &Record) -> (b: Vec<u8>)
    ensures
        b@ == record_bytes(r@),
        record_fits(r@),
{
    reveal(record_bytes);
    reveal(record_fits);
    let mut out = Serializer::new();
    out.serialize_struct(vec![82u8, 101, 99, 111, 114, 100].as_slice(), 3);
    out.serialize_identifier(vec![100u8, 98, 95, 107, 101, 121].as_slice());
    out.serialize_u64(r.db_key);
    out.serialize_identifier(vec![107u8, 101, 121].as_slice());
    let kb = r.key.as_str().as_bytes();
    out.serialize_str(r.key.as_str());
    out.serialize_identifier(vec![118u8, 97, 108, 117, 101].as_slice());
    match &r.value {
        Some(v) => {
            let vb = v.as_str().as_bytes();
            assert(vb@.len() == vb.len());
            out.serialize_str(v.as_str());
        },
        None => {
            out.serialize_none();
        },
    }
    assert(kb@.len() == kb.len());
    let b = out.into_bytes();
    assert(b@ =~= record_bytes(r@));
    b
}

/// Whether two byte strings are equal.
fn same_bytes(a: &Vec<u8>, b: &Vec<u8>) -> (r: bool)
    ensures
        r == (a@ == b@),
{
    if a.len() != b.len() {
        return false;
    }
    let mut i: usize = 0;
    while i < a.len()
        invariant
            0 <= i <= a@.len(),
            a@.len() == b@.len(),
            forall|j: int| 0 <= j < i ==> a@[j] == b@[j],
        decreases a@.len() - i,
    {
        if a[i] != b[i] {
            return false;
        }
        i = i + 1;
    }
    assert(a@ =~= b@);
    true
}

/// Reads the next record. `Ok(None)` where no byte is left; an error where the
/// next bytes are not the encoding of a record.
#[verifier::rlimit(30)]
pub fn read_record(de: &mut Deserializer) -> (r: Result<Option<Record>, DecodeError>)
    ensures
        final(de).input() == old(de).input(),
        old(de).rest().len() == 0 ==> r == Ok::<Option<Record>, DecodeError>(None),
        old(de).rest().len() > 0 ==> match record_outcome(old(de).rest()) {
            Ok((v, more)) => if old(de).rest() == record_bytes(v) + more {
                r is Ok && r->Ok_0 is Some && r->Ok_0->0@ == v && final(de).rest() == more
            } else {
                r == Err::<Option<Record>, DecodeError>(DecodeError::DataError)
            },
            Err(e) => r == Err::<Option<Record>, DecodeError>(e),
        },
{
    if de.peek().is_none() {
        return Ok(None);
    }
    let start = de.position();
    let ghost s = de.rest();
    // `}3`, `Record`, `$db_key`, each with its line feed
    let head = vec![125u8, 51, 10, 82, 101, 99, 111, 114, 100, 10, 36, 100, 98, 95, 107, 101, 121, 10];
    // `$key` and `$value`, each with its line feed
    let key_head = vec![36u8, 107, 101, 121, 10];
    let value_head = vec![36u8, 118, 97, 108, 117, 101, 10];
    proof {
        assert(decimal(3) == seq![51u8]);
        assert(head@ =~= record_head());
        assert(key_head@ =~= tagged(TAG_STR, key_name()));
        assert(value_head@ =~= tagged(TAG_STR, value_name()));
    }
    if !de.expect(head.as_slice()) {
        return Err(DecodeError::DataError);
    }
    let ghost s0 = de.rest();
    let db_key = de.parse_u64()?;
    let ghost s1 = de.rest();
    assert(unsigned_outcome(s0, TAG_U64, u64::MAX as nat) == Ok::<(nat, Seq<u8>), DecodeError>(
        (db_key as nat, s1),
    ));
    if !de.expect(key_head.as_slice()) {
        return Err(DecodeError::DataError);
    }
    let key = de.parse_string()?;
    let ghost s2 = de.rest();
    assert(key_outcome(s1) == Ok::<(Seq<char>, Seq<u8>), DecodeError>((key@, s2)));
    if !de.expect(value_head.as_slice()) {
        return Err(DecodeError::DataError);
    }
    let value = if de.parse_none() {
        None
    } else {
        Some(de.parse_string()?)
    };
    let ghost value_view: Option<Seq<char>> = match &value {
        Some(v) => Some(v@),
        None => None,
    };
    assert(value_outcome(s2) == Ok::<(Option<Seq<char>>, Seq<u8>), DecodeError>(
        (value_view, de.rest()),
    ));
    let rec = Record { db_key, key, value };
    assert(record_outcome(s) == Ok::<(RecordView, Seq<u8>), DecodeError>((rec@, de.rest())));
    let again = encode_record(&rec);
    let read = de.read_since(start);
    assert(s =~= read@ + de.rest());
    if !same_bytes(&again, &read) {
        proof {
            reveal(record_bytes);
            if let Ok((v, more)) = record_outcome(s) {
                if s == record_bytes(v) + more {
                    assert(rec@ == v);
                    assert(read@ =~= record_bytes(v));
                }
            }
        }
        return Err(DecodeError::DataError);
    }
    Ok(Some(rec))
}

} // verus!
