//! Decimal text of integers, as `Display` writes it and `str::parse` reads it.
use vstd::prelude::*;

verus! {

/// Whether `b` is an ASCII digit.
pub open spec fn is_digit(b: u8) -> bool {
    48 <= b <= 57
}

/// Whether every byte of `s` is an ASCII digit.
pub open spec fn all_digits(s: Seq<u8>) -> bool {
    forall|i: int| 0 <= i < s.len() ==> is_digit(#[trigger] s[i])
}

/// The decimal digits of `n`, most significant first, with no leading zero.
pub open spec fn decimal(n: nat) -> Seq<u8>
    decreases n,
{
    if n < 10 {
        seq![(48 + n) as u8]
    } else {
        decimal(n / 10).push((48 + n % 10) as u8)
    }
}

/// The value of a string of ASCII digits.
pub open spec fn digits_value(s: Seq<u8>) -> nat
    decreases s.len(),
{
    if s.len() == 0 {
        0
    } else {
        digits_value(s.drop_last()) * 10 + (s.last() - 48) as nat
    }
}

/// What `str::parse` reads as an unsigned integer: an optional `+`, then one or
/// more digits. `None` where the text is no such number.
pub open spec fn unsigned_value(s: Seq<u8>) -> Option<nat> {
    let t = if s.len() > 0 && s[0] == 43 {
        s.drop_first()
    } else {
        s
    };
    if t.len() > 0 && all_digits(t) {
        Some(digits_value(t))
    } else {
        None
    }
}

/// What `str::parse` reads as a signed integer: an optional `+` or `-`, then one
/// or more digits.
pub open spec fn signed_value(s: Seq<u8>) -> Option<int> {
    if s.len() > 0 && s[0] == 45 {
        let t = s.drop_first();
        if t.len() > 0 && all_digits(t) {
            Some(-(digits_value(t) as int))
        } else {
            None
        }
    } else {
        match unsigned_value(s) {
            Some(v) => Some(v as int),
            None => None,
        }
    }
}

/// The text of a signed integer: a `-` before the digits of a negative one.
pub open spec fn signed_decimal(i: int) -> Seq<u8> {
    if i < 0 {
        seq![45u8] + decimal((-i) as nat)
    } else {
        decimal(i as nat)
    }
}

/// The digits of a number are one or more ASCII digits.
pub proof fn lemma_decimal_digits(n: nat)
    ensures
        decimal(n).len() > 0,
        all_digits(decimal(n)),
    decreases n,
{
    if n >= 10 {
        lemma_decimal_digits(n / 10);
        let d = decimal(n / 10);
        assert forall|i: int| 0 <= i < decimal(n).len() implies is_digit(#[trigger] decimal(n)[i]) by {
            if i < d.len() {
                assert(decimal(n)[i] == d[i]);
            }
        }
    }
}

/// Reading back the digits of a number gives the number.
pub proof fn lemma_decimal_value(n: nat)
    ensures
        digits_value(decimal(n)) == n,
    decreases n,
{
    if n >= 10 {
        lemma_decimal_value(n / 10);
        let s = decimal(n);
        assert(s.drop_last() == decimal(n / 10));
        assert(s.last() == (48 + n % 10) as u8);
        assert(digits_value(s) == digits_value(s.drop_last()) * 10 + (s.last() - 48) as nat);
        assert(n == (n / 10) * 10 + n % 10);
    } else {
        let s = decimal(n);
        assert(s.drop_last() == Seq::<u8>::empty());
        assert(digits_value(s) == digits_value(s.drop_last()) * 10 + (s.last() - 48) as nat);
    }
}

/// `str::parse` reads back what `Display` writes of an unsigned integer.
pub proof fn lemma_unsigned_round_trip(n: nat)
    ensures
        unsigned_value(decimal(n)) == Some(n),
{
    lemma_decimal_digits(n);
    lemma_decimal_value(n);
    assert(is_digit(decimal(n)[0]));
}

/// `str::parse` reads back what `Display` writes of a signed integer.
pub proof fn lemma_signed_round_trip(i: int)
    ensures
        signed_value(signed_decimal(i)) == Some(i),
{
    if i < 0 {
        let m = (-i) as nat;
        lemma_decimal_digits(m);
        lemma_decimal_value(m);
        assert((seq![45u8] + decimal(m)).drop_first() == decimal(m));
    } else {
        lemma_unsigned_round_trip(i as nat);
        lemma_decimal_digits(i as nat);
        assert(is_digit(decimal(i as nat)[0]));
    }
}

/// A longer run of digits is worth at least as much as its prefix.
proof fn lemma_digits_value_prefix(s: Seq<u8>, k: int)
    requires
        0 <= k <= s.len(),
        all_digits(s),
    ensures
        digits_value(s.subrange(0, k)) <= digits_value(s),
    decreases s.len() - k,
{
    if k < s.len() {
        lemma_digits_value_prefix(s, k + 1);
        let p = s.subrange(0, k + 1);
        assert(p.drop_last() == s.subrange(0, k));
        assert(is_digit(s[k]));
    } else {
        assert(s.subrange(0, k) == s);
    }
}

/// A smaller number has no more digits.
pub proof fn lemma_decimal_len_monotone(a: nat, b: nat)
    requires
        a <= b,
    ensures
        decimal(a).len() <= decimal(b).len(),
    decreases b,
{
    if b >= 10 {
        if a >= 10 {
            lemma_decimal_len_monotone(a / 10, b / 10);
        } else {
            lemma_decimal_digits(b / 10);
        }
    }
}

/// Appends the decimal digits of `v` to `out`.
pub fn push_decimal(out: &mut Vec<u8>, v: u128)
    ensures
        final(out)@ == old(out)@ + decimal(v as nat),
    decreases v,
{
    if v >= 10 {
        push_decimal(out, v / 10);
    }
    out.push((48 + v % 10) as u8);
    proof {
        if v >= 10 {
            assert(old(out)@ + decimal(v as nat) == (old(out)@ + decimal((v / 10) as nat)).push(
                (48 + v % 10) as u8,
            ));
        }
    }
}

/// Appends the text of `v` to `out`.
pub fn push_signed_decimal(out: &mut Vec<u8>, v: i128)
    ensures
        final(out)@ == old(out)@ + signed_decimal(v as int),
{
    if v < 0 {
        out.push(45u8);
        let m: u128 = ((-(v + 1)) as u128) + 1;
        push_decimal(out, m);
        assert(old(out)@ + signed_decimal(v as int) == old(out)@.push(45u8) + decimal(m as nat));
    } else {
        push_decimal(out, v as u128);
    }
}

/// Reads the digits `s[start..]` into a number; `None` where a byte is no digit,
/// where there is none, or where the value passes `u128::MAX`.
fn digits_to_u128(s: &[u8], start: usize) -> (r: Option<u128>)
    requires
        start <= s@.len(),
    ensures
        ({
            let t = s@.subrange(start as int, s@.len() as int);
            if t.len() > 0 && all_digits(t) && digits_value(t) <= u128::MAX {
                r == Some(digits_value(t) as u128)
            } else {
                r is None
            }
        }),
{
    let ghost t = s@.subrange(start as int, s@.len() as int);
    if start >= s.len() {
        return None;
    }
    let mut acc: u128 = 0;
    let mut i: usize = start;
    while i < s.len()
        invariant
            start <= i <= s@.len(),
            t == s@.subrange(start as int, s@.len() as int),
            all_digits(s@.subrange(start as int, i as int)),
            acc as nat == digits_value(s@.subrange(start as int, i as int)),
        decreases s@.len() - i,
    {
        let b = s[i];
        if b < 48 || b > 57 {
            assert(t[i - start] == b);
            return None;
        }
        let d: u128 = (b - 48) as u128;
        let ghost p = s@.subrange(start as int, i as int + 1);
        assert(p.drop_last() == s@.subrange(start as int, i as int));
        assert(all_digits(p)) by {
            assert forall|j: int| 0 <= j < p.len() implies is_digit(#[trigger] p[j]) by {
                if j < p.len() - 1 {
                    assert(p[j] == s@.subrange(start as int, i as int)[j]);
                }
            }
        }
        if acc > (u128::MAX - d) / 10 {
            proof {
                assert(digits_value(p) == acc * 10 + d);
                assert(digits_value(p) > u128::MAX) by (nonlinear_arith)
                    requires
                        acc > (u128::MAX - d) / 10,
                        digits_value(p) == acc * 10 + d,
                        d <= 9,
                ;
                if all_digits(t) {
                    assert(p == t.subrange(0, i - start + 1));
                    lemma_digits_value_prefix(t, i - start + 1);
                }
            }
            return None;
        }
        proof {
            assert(acc * 10 + d <= u128::MAX) by (nonlinear_arith)
                requires
                    acc <= (u128::MAX - d) / 10,
                    d <= 9,
            ;
        }
        acc = acc * 10 + d;
        i = i + 1;
    }
    assert(s@.subrange(start as int, i as int) == t);
    Some(acc)
}

/// Reads an unsigned integer as `str::parse` does; `None` where the text is no
/// such number or its value passes `u128::MAX`.
pub fn parse_unsigned(s: &[u8]) -> (r: Option<u128>)
    ensures
        match unsigned_value(s@) {
            Some(v) => if v <= u128::MAX {
                r == Some(v as u128)
            } else {
                r is None
            },
            None => r is None,
        },
{
    let start: usize = if s.len() > 0 && s[0] == 43 {
        1
    } else {
        0
    };
    assert(s@.subrange(start as int, s@.len() as int) == (if s@.len() > 0 && s@[0] == 43 {
        s@.drop_first()
    } else {
        s@
    }));
    digits_to_u128(s, start)
}

/// Reads a signed integer as `str::parse` does; `None` where the text is no such
/// number or its value lies outside `i128`.
pub fn parse_signed(s: &[u8]) -> (r: Option<i128>)
    ensures
        match signed_value(s@) {
            Some(v) => if i128::MIN <= v <= i128::MAX {
                r == Some(v as i128)
            } else {
                r is None
            },
            None => r is None,
        },
{
    if s.len() > 0 && s[0] == 45 {
        assert(s@.subrange(1, s@.len() as int) == s@.drop_first());
        match digits_to_u128(s, 1) {
            Some(m) => {
                if m <= 170141183460469231731687303715884105728u128 {
                    if m == 170141183460469231731687303715884105728u128 {
                        Some(i128::MIN)
                    } else {
                        Some(-(m as i128))
                    }
                } else {
                    None
                }
            },
            None => None,
        }
    } else {
        match parse_unsigned(s) {
            Some(m) => {
                if m <= i128::MAX as u128 {
                    Some(m as i128)
                } else {
                    None
                }
            },
            None => None,
        }
    }
}

} // verus!
