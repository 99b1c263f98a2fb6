//! Decimal text of 64-bit signed integers: reading it as Rust's `i64::from_str`
//! does, and writing it as `i64::to_string` does.
use vstd::prelude::*;
use crate::text::is_digit;

verus! {

/// Decimal digits of `v`, most significant first, without leading zeros.
pub open spec fn decimal_digits(v: nat) -> Seq<u8>
    decreases v,
{
    if v < 10 {
        seq![(48 + v) as u8]
    } else {
        decimal_digits(v / 10).push((48 + v % 10) as u8)
    }
}

/// Decimal text of `n`, with a leading `-` when it is negative.
pub open spec fn decimal_i64(n: i64) -> Seq<u8> {
    if n < 0 {
        seq![0x2du8] + decimal_digits((-n) as nat)
    } else {
        decimal_digits(n as nat)
    }
}

pub open spec fn all_digits(s: Seq<u8>) -> bool {
    forall|i: int| 0 <= i < s.len() ==> is_digit(#[trigger] s[i])
}

/// The number that a string of decimal digits denotes.
pub open spec fn digits_value(s: Seq<u8>) -> nat
    decreases s.len(),
{
    if s.len() == 0 {
        0
    } else {
        digits_value(s.drop_last()) * 10 + (s.last() - 48) as nat
    }
}

/// What `i64::from_str` returns (as an `Option`) on these bytes: an optional
/// `+` or `-` followed by at least one decimal digit and nothing else, whose
/// value fits in an `i64`.
pub open spec fn parse_i64_spec(s: Seq<u8>) -> Option<i64> {
    if s.len() == 0 {
        None
    } else if (s[0] == 0x2b || s[0] == 0x2d) && s.len() == 1 {
        None
    } else {
        let neg = s[0] == 0x2d;
        let digits = if s[0] == 0x2b || s[0] == 0x2d {
            s.drop_first()
        } else {
            s
        };
        if !all_digits(digits) {
            None
        } else if neg {
            if digits_value(digits) <= 0x8000_0000_0000_0000 {
                Some((-(digits_value(digits) as int)) as i64)
            } else {
                None
            }
        } else if digits_value(digits) <= 0x7fff_ffff_ffff_ffff {
            Some(digits_value(digits) as i64)
        } else {
            None
        }
    }
}

proof fn lemma_decimal_digits(v: nat)
    ensures
        all_digits(decimal_digits(v)),
        digits_value(decimal_digits(v)) == v,
        decimal_digits(v).len() >= 1,
    decreases v,
{
    if v >= 10 {
        lemma_decimal_digits(v / 10);
        vstd::arithmetic::div_mod::lemma_fundamental_div_mod(v as int, 10);
        let d = decimal_digits(v);
        assert(d.drop_last() =~= decimal_digits(v / 10));
        assert(d.last() == (48 + v % 10) as u8);
        assert((d.last() - 48) as nat == v % 10);
        assert(digits_value(d) == digits_value(decimal_digits(v / 10)) * 10 + v % 10);
        assert(v == (v / 10) * 10 + v % 10) by (nonlinear_arith);
    } else {
        let d = decimal_digits(v);
        assert(d.drop_last() =~= Seq::<u8>::empty());
        assert(digits_value(d.drop_last()) == 0);
        assert(d.last() == (48 + v) as u8);
    }
}

/// Written decimal text reads back as the same integer.
pub proof fn lemma_decimal_roundtrip(n: i64)
    ensures
        parse_i64_spec(decimal_i64(n)) == Some(n),
{
    if n < 0 {
        let m = (-n) as nat;
        lemma_decimal_digits(m);
        let s = decimal_i64(n);
        assert(s.drop_first() =~= decimal_digits(m));
        assert(s.len() >= 2);
    } else {
        lemma_decimal_digits(n as nat);
        let s = decimal_digits(n as nat);
        assert(is_digit(s[0]));
    }
}

proof fn lemma_digits_value_step(s: Seq<u8>, a: int, i: int)
    requires
        0 <= a <= i < s.len(),
    ensures
        digits_value(s.subrange(a, i + 1)) == digits_value(s.subrange(a, i)) * 10 + (s[i] - 48) as nat,
{
    assert(s.subrange(a, i + 1).drop_last() =~= s.subrange(a, i));
}

proof fn lemma_digits_value_monotone(s: Seq<u8>, k: int)
    requires
        0 <= k <= s.len(),
        all_digits(s),
    ensures
        digits_value(s) >= digits_value(s.subrange(0, k)),
    decreases s.len(),
{
    if k < s.len() {
        let t = s.drop_last();
        assert(t.subrange(0, k) =~= s.subrange(0, k));
        assert(all_digits(t));
        lemma_digits_value_monotone(t, k);
    } else {
        assert(s.subrange(0, k) =~= s);
    }
}

/// Value of the decimal digits `s[start..]`, or `None` when one of them is
/// not a digit or the value exceeds 2^63.
fn parse_digits(s: &[u8], start: usize) -> (r: Option<u64>)
    requires
        start <= s.len(),
    ensures
        r == (if all_digits(s@.subrange(start as int, s@.len() as int)) && digits_value(
            s@.subrange(start as int, s@.len() as int),
        ) <= 0x8000_0000_0000_0000 {
            Some(digits_value(s@.subrange(start as int, s@.len() as int)) as u64)
        } else {
            None::<u64>
        }),
{
    let ghost digits = s@.subrange(start as int, s@.len() as int);
    let mut i = start;
    let mut acc: u64 = 0;
    while i < s.len()
        invariant
            start <= i <= s.len(),
            digits == s@.subrange(start as int, s@.len() as int),
            acc == digits_value(s@.subrange(start as int, i as int)),
            acc <= 0x8000_0000_0000_0000u64,
            all_digits(s@.subrange(start as int, i as int)),
        decreases s.len() - i,
    {
        let b = s[i];
        if !(0x30 <= b && b <= 0x39) {
            assert(digits[i - start] == b);
            return None;
        }
        proof {
            lemma_digits_value_step(s@, start as int, i as int);
        }
        let next: u128 = (acc as u128) * 10 + ((b - 0x30) as u128);
        if next > 0x8000_0000_0000_0000u128 {
            proof {
                if all_digits(digits) {
                    assert(digits.subrange(0, i + 1 - start) =~= s@.subrange(start as int, i + 1));
                    lemma_digits_value_monotone(digits, i + 1 - start);
                }
            }
            return None;
        }
        acc = next as u64;
        i = i + 1;
        assert(all_digits(s@.subrange(start as int, i as int))) by {
            assert forall|t: int| 0 <= t < i - start implies is_digit(
                #[trigger] s@.subrange(start as int, i as int)[t],
            ) by {
                if t < i - 1 - start {
                    assert(s@.subrange(start as int, i as int)[t] == s@.subrange(
                        start as int,
                        i - 1,
                    )[t]);
                }
            }
        }
    }
    assert(digits =~= s@.subrange(start as int, i as int));
    Some(acc)
}

/// Reads decimal text as Rust's `i64::from_str` does; `None` where that
/// returns an error.
pub fn parse_i64(s: &[u8]) -> (r: Option<i64>)
    ensures
        r == parse_i64_spec(s@),
{
    if s.len() == 0 {
        return None;
    }
    let signed = s[0] == 0x2b || s[0] == 0x2d;
    if signed && s.len() == 1 {
        return None;
    }
    let neg = s[0] == 0x2d;
    let start: usize = if signed {
        1
    } else {
        0
    };
    assert(s@.drop_first() =~= s@.subrange(1, s@.len() as int));
    assert(s@ =~= s@.subrange(0, s@.len() as int));
    match parse_digits(s, start) {
        None => None,
        Some(acc) => {
            if neg {
                if acc == 0x8000_0000_0000_0000u64 {
                    Some(-9223372036854775807i64 - 1)
                } else {
                    Some(-(acc as i64))
                }
            } else if acc > 0x7fff_ffff_ffff_ffffu64 {
                None
            } else {
                Some(acc as i64)
            }
        },
    }
}

/// Appends the decimal digits of `v`.
pub fn push_decimal_digits(v: u64, out: &mut Vec<u8>)
    ensures
        final(out)@ == old(out)@ + decimal_digits(v as nat),
    decreases v,
{
    if v >= 10 {
        push_decimal_digits(v / 10, out);
    }
    out.push(0x30 + (v % 10) as u8);
    assert(final(out)@ =~= old(out)@ + decimal_digits(v as nat));
}

/// Appends the decimal text of `n`, as `i64::to_string` writes it.
pub fn push_decimal_i64(n: i64, out: &mut Vec<u8>)
    ensures
        final(out)@ == old(out)@ + decimal_i64(n),
{
    if n < 0 {
        out.push(0x2d);
        let mag: u64 = (0i128 - (n as i128)) as u64;
        push_decimal_digits(mag, out);
        assert(final(out)@ =~= old(out)@ + decimal_i64(n));
    } else {
        push_decimal_digits(n as u64, out);
    }
}

/// How far a JSON number token has been read.
#[derive(PartialEq, Eq, Structural, Clone, Copy)]
pub enum NumPart {
    /// Nothing read yet.
    Start,
    /// The minus sign.
    Minus,
    /// A leading zero.
    Zero,
    /// Digits of the integer part, the first not zero.
    Int,
    /// The decimal point.
    Dot,
    /// Digits of the fraction.
    Frac,
    /// The `e` or `E`.
    Exp,
    /// The sign of the exponent.
    ExpSign,
    /// Digits of the exponent.
    ExpDigits,
    /// Not a number token.
    Bad,
}

/// The part reached from `st` by the byte `b`, following the grammar of a
/// JSON number: `-? (0 | [1-9][0-9]*) (. [0-9]+)? ([eE] [+-]? [0-9]+)?`.
pub open spec fn num_step(st: NumPart, b: u8) -> NumPart {
    let digit = is_digit(b);
    let e = b == 0x65 || b == 0x45;
    match st {
        NumPart::Start => if b == 0x2d {
            NumPart::Minus
        } else if b == 0x30 {
            NumPart::Zero
        } else if digit {
            NumPart::Int
        } else {
            NumPart::Bad
        },
        NumPart::Minus => if b == 0x30 {
            NumPart::Zero
        } else if digit {
            NumPart::Int
        } else {
            NumPart::Bad
        },
        NumPart::Zero => if b == 0x2e {
            NumPart::Dot
        } else if e {
            NumPart::Exp
        } else {
            NumPart::Bad
        },
        NumPart::Int => if digit {
            NumPart::Int
        } else if b == 0x2e {
            NumPart::Dot
        } else if e {
            NumPart::Exp
        } else {
            NumPart::Bad
        },
        NumPart::Dot => if digit {
            NumPart::Frac
        } else {
            NumPart::Bad
        },
        NumPart::Frac => if digit {
            NumPart::Frac
        } else if e {
            NumPart::Exp
        } else {
            NumPart::Bad
        },
        NumPart::Exp => if b == 0x2b || b == 0x2d {
            NumPart::ExpSign
        } else if digit {
            NumPart::ExpDigits
        } else {
            NumPart::Bad
        },
        NumPart::ExpSign => if digit {
            NumPart::ExpDigits
        } else {
            NumPart::Bad
        },
        NumPart::ExpDigits => if digit {
            NumPart::ExpDigits
        } else {
            NumPart::Bad
        },
        NumPart::Bad => NumPart::Bad,
    }
}

/// The part reached after reading all of `s`.
pub open spec fn num_part(s: Seq<u8>) -> NumPart
    decreases s.len(),
{
    if s.len() == 0 {
        NumPart::Start
    } else {
        num_step(num_part(s.drop_last()), s.last())
    }
}

/// Whether `s` is a JSON number token.
pub open spec fn json_number(s: Seq<u8>) -> bool {
    let p = num_part(s);
    p == NumPart::Zero || p == NumPart::Int || p == NumPart::Frac || p == NumPart::ExpDigits
}

fn num_step_exec(st: NumPart, b: u8) -> (r: NumPart)
    ensures
        r == num_step(st, b),
{
    let digit = 0x30 <= b && b <= 0x39;
    let e = b == 0x65 || b == 0x45;
    match st {
        NumPart::Start => if b == 0x2d {
            NumPart::Minus
        } else if b == 0x30 {
            NumPart::Zero
        } else if digit {
            NumPart::Int
        } else {
            NumPart::Bad
        },
        NumPart::Minus => if b == 0x30 {
            NumPart::Zero
        } else if digit {
            NumPart::Int
        } else {
            NumPart::Bad
        },
        NumPart::Zero => if b == 0x2e {
            NumPart::Dot
        } else if e {
            NumPart::Exp
        } else {
            NumPart::Bad
        },
        NumPart::Int => if digit {
            NumPart::Int
        } else if b == 0x2e {
            NumPart::Dot
        } else if e {
            NumPart::Exp
        } else {
            NumPart::Bad
        },
        NumPart::Dot => if digit {
            NumPart::Frac
        } else {
            NumPart::Bad
        },
        NumPart::Frac => if digit {
            NumPart::Frac
        } else if e {
            NumPart::Exp
        } else {
            NumPart::Bad
        },
        NumPart::Exp => if b == 0x2b || b == 0x2d {
            NumPart::ExpSign
        } else if digit {
            NumPart::ExpDigits
        } else {
            NumPart::Bad
        },
        NumPart::ExpSign => if digit {
            NumPart::ExpDigits
        } else {
            NumPart::Bad
        },
        NumPart::ExpDigits => if digit {
            NumPart::ExpDigits
        } else {
            NumPart::Bad
        },
        NumPart::Bad => NumPart::Bad,
    }
}

/// Whether `s` is a JSON number token (see [`json_number`]).
pub fn is_json_number(s: &[u8]) -> (r: bool)
    ensures
        r == json_number(s@),
{
    let mut st = NumPart::Start;
    let mut i: usize = 0;
    while i < s.len()
        invariant
            i <= s.len(),
            st == num_part(s@.take(i as int)),
        decreases s.len() - i,
    {
        assert(s@.take(i + 1).drop_last() =~= s@.take(i as int));
        st = num_step_exec(st, s[i]);
        i = i + 1;
    }
    assert(s@.take(s.len() as int) =~= s@);
    st == NumPart::Zero || st == NumPart::Int || st == NumPart::Frac || st == NumPart::ExpDigits
}

} // verus!
