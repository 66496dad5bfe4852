//! Reading typed values from single tokens.
use vstd::prelude::*;

use crate::text::chars_of;

verus! {

/// A token that does not spell a value of the requested type.
#[derive(Debug, Clone, Copy, PartialEq, Eq, Structural)]
pub struct ParseTokenError;

/// An ASCII decimal digit.
pub open spec fn is_digit(c: char) -> bool {
    48 <= c as u32 <= 57
}

/// A non-empty run of ASCII decimal digits.
pub open spec fn all_digits(s: Seq<char>) -> bool {
    s.len() > 0 && forall|i: int| 0 <= i < s.len() ==> is_digit(#[trigger] s[i])
}

/// The number that the decimal digits `s` spell.
pub open spec fn digits_value(s: Seq<char>) -> int
    decreases s.len(),
{
    if s.len() == 0 {
        0
    } else {
        digits_value(s.drop_last()) * 10 + (s.last() as u32 - 48)
    }
}

/// Whether `s` opens with a minus sign that the type accepts.
pub open spec fn has_minus(s: Seq<char>, signed: bool) -> bool {
    signed && s.len() > 0 && s[0] == '-'
}

/// How many characters of `s` form its sign: a `+`, or a `-` where the type
/// is signed.
pub open spec fn sign_len(s: Seq<char>, signed: bool) -> int {
    if s.len() > 0 && (s[0] == '+' || has_minus(s, signed)) {
        1
    } else {
        0
    }
}

/// The integer that `s` writes in decimal: an optional sign (`-` only where
/// `signed`) followed by one or more digits, nothing else.
pub open spec fn decimal_value(s: Seq<char>, signed: bool) -> Option<int> {
    let digits = s.subrange(sign_len(s, signed), s.len() as int);
    if !all_digits(digits) {
        None
    } else if has_minus(s, signed) {
        Some(-digits_value(digits))
    } else {
        Some(digits_value(digits))
    }
}

/// The integer that `s` writes in decimal, where it lies in `lo..=hi`.
pub open spec fn bounded_decimal(s: Seq<char>, signed: bool, lo: int, hi: int) -> Option<int> {
    match decimal_value(s, signed) {
        Some(v) => if lo <= v <= hi {
            Some(v)
        } else {
            None
        },
        None => None,
    }
}

proof fn lemma_digits_value_nonneg(s: Seq<char>)
    requires
        forall|i: int| 0 <= i < s.len() ==> is_digit(#[trigger] s[i]),
    ensures
        digits_value(s) >= 0,
    decreases s.len(),
{
    if s.len() > 0 {
        lemma_digits_value_nonneg(s.drop_last());
    }
}

/// A longer run of digits is worth at least as much as its prefix.
proof fn lemma_digits_value_prefix(s: Seq<char>, k: int)
    requires
        0 <= k <= s.len(),
        forall|i: int| 0 <= i < s.len() ==> is_digit(#[trigger] s[i]),
    ensures
        digits_value(s.subrange(0, k)) <= digits_value(s),
    decreases s.len(),
{
    if k < s.len() {
        lemma_digits_value_prefix(s.drop_last(), k);
        lemma_digits_value_nonneg(s.drop_last());
        assert(s.drop_last().subrange(0, k) =~= s.subrange(0, k));
    } else {
        assert(s.subrange(0, k) =~= s);
    }
}

/// Reads the decimal integer that `cs` spells, where it lies in `lo..=hi`.
pub fn parse_decimal(cs: &Vec<char>, signed: bool, lo: i128, hi: i128) -> (r: Option<i128>)
    requires
        -0x1_0000_0000_0000_0000 <= lo <= 0 <= hi <= 0x1_0000_0000_0000_0000,
    ensures
        r == match bounded_decimal(cs@, signed, lo as int, hi as int) {
            Some(v) => Some(v as i128),
            None => None::<i128>,
        },
{
    let n = cs.len();
    let negative = signed && n > 0 && cs[0] == '-';
    let start: usize = if n > 0 && (cs[0] == '+' || negative) {
        1
    } else {
        0
    };
    let ghost digits = cs@.subrange(start as int, n as int);
    assert(start as int == sign_len(cs@, signed));
    assert(negative == has_minus(cs@, signed));
    if start == n {
        return None;
    }
    let bound: i128 = if negative {
        -lo
    } else {
        hi
    };
    let mut mag: i128 = 0;
    let mut i: usize = start;
    while i < n
        invariant
            start <= i <= n == cs.len(),
            0 <= bound <= 0x1_0000_0000_0000_0000,
            digits == cs@.subrange(start as int, n as int),
            start as int == sign_len(cs@, signed),
            negative == has_minus(cs@, signed),
            bound == if negative {
                -lo
            } else {
                hi as int
            },
            forall|j: int| start <= j < i ==> is_digit(#[trigger] cs@[j]),
            mag == digits_value(digits.subrange(0, i - start)),
            0 <= mag <= bound,
        decreases n - i,
    {
        let u = cs[i] as u32;
        if u < 48 || u > 57 {
            assert(!is_digit(digits[i - start]));
            return None;
        }
        assert(digits.subrange(0, i + 1 - start).drop_last() =~= digits.subrange(0, i - start));
        mag = mag * 10 + (u - 48) as i128;
        i = i + 1;
        if mag > bound {
            proof {
                if all_digits(digits) {
                    lemma_digits_value_prefix(digits, i - start);
                }
            }
            return None;
        }
    }
    assert(digits.subrange(0, n - start) =~= digits);
    if negative {
        Some(-mag)
    } else {
        Some(mag)
    }
}


/// A type whose values can be read from the front token of a token buffer.
///
/// Each type says, through `spells`, which value a token stands for, if any.
pub trait FromBuf: Sized {
    /// The error given for a token that spells no value of this type.
    type Err;

    /// Whether the token `t` stands for the value `v`.
    spec fn spells(t: Seq<char>, v: Self) -> bool;

    /// Reads a value of this type from the whole token `t`.
    fn from_token(t: &str) -> (r: Result<Self, Self::Err>)
        ensures
            match r {
                Ok(v) => Self::spells(t@, v),
                Err(_) => forall|v: Self| !Self::spells(t@, v),
            },
    ;

    /// Takes the front token off `b` and reads a value of this type from it;
    /// the token is gone whether or not it spelled a value.
    fn from_buf(b: &mut Vec<String>) -> (r: Result<Self, Self::Err>)
        requires
            old(b).len() > 0,
        ensures
            final(b)@ == old(b)@.drop_first(),
            match r {
                Ok(v) => Self::spells(old(b)@[0]@, v),
                Err(_) => forall|v: Self| !Self::spells(old(b)@[0]@, v),
            },
    {
        let t = b.remove(0);
        Self::from_token(t.as_str())
    }
}

impl FromBuf for String {
    type Err = ParseTokenError;

    open spec fn spells(t: Seq<char>, v: String) -> bool {
        v@ == t
    }

    fn from_token(t: &str) -> (r: Result<String, ParseTokenError>) {
        Ok(t.to_owned())
    }
}

impl FromBuf for char {
    type Err = ParseTokenError;

    open spec fn spells(t: Seq<char>, v: char) -> bool {
        t == seq![v]
    }

    fn from_token(t: &str) -> (r: Result<char, ParseTokenError>) {
        let cs = chars_of(t);
        if cs.len() == 1 {
            assert(cs@ =~= seq![cs@[0]]);
            Ok(cs[0])
        } else {
            Err(ParseTokenError)
        }
    }
}

impl FromBuf for bool {
    type Err = ParseTokenError;

    open spec fn spells(t: Seq<char>, v: bool) -> bool {
        t == if v {
            seq!['t', 'r', 'u', 'e']
        } else {
            seq!['f', 'a', 'l', 's', 'e']
        }
    }

    fn from_token(t: &str) -> (r: Result<bool, ParseTokenError>) {
        let cs = chars_of(t);
        if cs.len() == 4 && cs[0] == 't' && cs[1] == 'r' && cs[2] == 'u' && cs[3] == 'e' {
            assert(cs@ =~= seq!['t', 'r', 'u', 'e']);
            Ok(true)
        } else if cs.len() == 5 && cs[0] == 'f' && cs[1] == 'a' && cs[2] == 'l' && cs[3] == 's'
            && cs[4] == 'e' {
            assert(cs@ =~= seq!['f', 'a', 'l', 's', 'e']);
            Ok(false)
        } else {
            Err(ParseTokenError)
        }
    }
}

impl FromBuf for i8 {
    type Err = ParseTokenError;

    open spec fn spells(t: Seq<char>, v: i8) -> bool {
        bounded_decimal(t, true, i8::MIN as int, i8::MAX as int) == Some(v as int)
    }

    fn from_token(t: &str) -> (r: Result<i8, ParseTokenError>) {
        match parse_decimal(&chars_of(t), true, i8::MIN as i128, i8::MAX as i128) {
            Some(v) => Ok(v as i8),
            None => Err(ParseTokenError),
        }
    }
}

impl FromBuf for i16 {
    type Err = ParseTokenError;

    open spec fn spells(t: Seq<char>, v: i16) -> bool {
        bounded_decimal(t, true, i16::MIN as int, i16::MAX as int) == Some(v as int)
    }

    fn from_token(t: &str) -> (r: Result<i16, ParseTokenError>) {
        match parse_decimal(&chars_of(t), true, i16::MIN as i128, i16::MAX as i128) {
            Some(v) => Ok(v as i16),
            None => Err(ParseTokenError),
        }
    }
}

impl FromBuf for i32 {
    type Err = ParseTokenError;

    open spec fn spells(t: Seq<char>, v: i32) -> bool {
        bounded_decimal(t, true, i32::MIN as int, i32::MAX as int) == Some(v as int)
    }

    fn from_token(t: &str) -> (r: Result<i32, ParseTokenError>) {
        match parse_decimal(&chars_of(t), true, i32::MIN as i128, i32::MAX as i128) {
            Some(v) => Ok(v as i32),
            None => Err(ParseTokenError),
        }
    }
}

impl FromBuf for i64 {
    type Err = ParseTokenError;

    open spec fn spells(t: Seq<char>, v: i64) -> bool {
        bounded_decimal(t, true, i64::MIN as int, i64::MAX as int) == Some(v as int)
    }

    fn from_token(t: &str) -> (r: Result<i64, ParseTokenError>) {
        match parse_decimal(&chars_of(t), true, i64::MIN as i128, i64::MAX as i128) {
            Some(v) => Ok(v as i64),
            None => Err(ParseTokenError),
        }
    }
}

impl FromBuf for isize {
    type Err = ParseTokenError;

    open spec fn spells(t: Seq<char>, v: isize) -> bool {
        bounded_decimal(t, true, isize::MIN as int, isize::MAX as int) == Some(v as int)
    }

    fn from_token(t: &str) -> (r: Result<isize, ParseTokenError>) {
        match parse_decimal(&chars_of(t), true, isize::MIN as i128, isize::MAX as i128) {
            Some(v) => Ok(v as isize),
            None => Err(ParseTokenError),
        }
    }
}

impl FromBuf for u8 {
    type Err = ParseTokenError;

    open spec fn spells(t: Seq<char>, v: u8) -> bool {
        bounded_decimal(t, false, u8::MIN as int, u8::MAX as int) == Some(v as int)
    }

    fn from_token(t: &str) -> (r: Result<u8, ParseTokenError>) {
        match parse_decimal(&chars_of(t), false, u8::MIN as i128, u8::MAX as i128) {
            Some(v) => Ok(v as u8),
            None => Err(ParseTokenError),
        }
    }
}

impl FromBuf for u16 {
    type Err = ParseTokenError;

    open spec fn spells(t: Seq<char>, v: u16) -> bool {
        bounded_decimal(t, false, u16::MIN as int, u16::MAX as int) == Some(v as int)
    }

    fn from_token(t: &str) -> (r: Result<u16, ParseTokenError>) {
        match parse_decimal(&chars_of(t), false, u16::MIN as i128, u16::MAX as i128) {
            Some(v) => Ok(v as u16),
            None => Err(ParseTokenError),
        }
    }
}

impl FromBuf for u32 {
    type Err = ParseTokenError;

    open spec fn spells(t: Seq<char>, v: u32) -> bool {
        bounded_decimal(t, false, u32::MIN as int, u32::MAX as int) == Some(v as int)
    }

    fn from_token(t: &str) -> (r: Result<u32, ParseTokenError>) {
        match parse_decimal(&chars_of(t), false, u32::MIN as i128, u32::MAX as i128) {
            Some(v) => Ok(v as u32),
            None => Err(ParseTokenError),
        }
    }
}

impl FromBuf for u64 {
    type Err = ParseTokenError;

    open spec fn spells(t: Seq<char>, v: u64) -> bool {
        bounded_decimal(t, false, u64::MIN as int, u64::MAX as int) == Some(v as int)
    }

    fn from_token(t: &str) -> (r: Result<u64, ParseTokenError>) {
        match parse_decimal(&chars_of(t), false, u64::MIN as i128, u64::MAX as i128) {
            Some(v) => Ok(v as u64),
            None => Err(ParseTokenError),
        }
    }
}

impl FromBuf for usize {
    type Err = ParseTokenError;

    open spec fn spells(t: Seq<char>, v: usize) -> bool {
        bounded_decimal(t, false, usize::MIN as int, usize::MAX as int) == Some(v as int)
    }

    fn from_token(t: &str) -> (r: Result<usize, ParseTokenError>) {
        match parse_decimal(&chars_of(t), false, usize::MIN as i128, usize::MAX as i128) {
            Some(v) => Ok(v as usize),
            None => Err(ParseTokenError),
        }
    }
}

} // verus!
