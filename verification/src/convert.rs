//! Conversions: numbers into types of their own, and a circle to and from
//! text.
//!
//! A number is written in decimal digits, with a `-` before them where it
//! is negative. It is read from an optional `+` or `-` and one or more
//! decimal digits.

use crate::text::{to_chars, trim, trim_range};
use vstd::prelude::*;
use vstd::std_specs::convert::{FromSpecImpl, TryFromSpecImpl};
use vstd::string::*;

verus! {

/// A number in a type of its own.
#[derive(Debug)]
pub struct Number {
    pub value: i32,
}

/// A number that is known to be even.
#[derive(Debug, PartialEq)]
pub struct EvenNumber(pub i32);

/// A circle with a whole-number radius.
#[derive(Debug)]
pub struct Circle {
    pub radius: i32,
}

/// Why a text was not read as a number.
#[derive(Debug, Clone, Copy, PartialEq, Eq)]
pub enum NumberError {
    /// The text is not an optional sign and one or more digits.
    NotANumber,
    /// The text is a number that an `i32` cannot hold.
    OutOfRange,
}

impl From<i32> for Number {
    fn from(item: i32) -> (number: Number) {
        Number { value: item }
    }
}

impl FromSpecImpl<i32> for Number {
    open spec fn obeys_from_spec() -> bool {
        true
    }

    open spec fn from_spec(item: i32) -> Number {
        Number { value: item }
    }
}

impl TryFrom<i32> for EvenNumber {
    type Error = ();

    fn try_from(value: i32) -> (r: Result<EvenNumber, ()>) {
        if value % 2 == 0 {
            Ok(EvenNumber(value))
        } else {
            Err(())
        }
    }
}

impl TryFromSpecImpl<i32> for EvenNumber {
    open spec fn obeys_try_from_spec() -> bool {
        true
    }

    open spec fn try_from_spec(value: i32) -> Result<EvenNumber, ()> {
        if value % 2 == 0 {
            Ok(EvenNumber(value))
        } else {
            Err(())
        }
    }
}

/// Whether `c` is one of the digits `0` to `9`.
pub open spec fn is_digit(c: char) -> bool {
    '0' <= c <= '9'
}

/// The digit that stands for `d`, where `d` is below ten.
pub open spec fn digit_char(d: nat) -> char {
    (('0' as u8) + d) as char
}

/// The number that the digit `c` stands for.
pub open spec fn digit_value(c: char) -> int {
    c as int - '0' as int
}

/// The number that the digits `s` stand for in decimal.
pub open spec fn digits_value(s: Seq<char>) -> int
    decreases s.len(),
{
    if s.len() == 0 {
        0
    } else {
        10 * digits_value(s.drop_last()) + digit_value(s.last())
    }
}

/// Whether `s` is made of digits only.
pub open spec fn all_digits(s: Seq<char>) -> bool {
    forall|i: int| 0 <= i < s.len() ==> is_digit(#[trigger] s[i])
}

/// Whether `s` begins with a sign.
pub open spec fn has_sign(s: Seq<char>) -> bool {
    s.len() > 0 && (s[0] == '+' || s[0] == '-')
}

/// The number that `s` stands for: an optional sign, then one or more
/// digits. Any other text stands for none.
pub open spec fn number_of(s: Seq<char>) -> Option<int> {
    let digits = if has_sign(s) {
        s.drop_first()
    } else {
        s
    };
    if digits.len() > 0 && all_digits(digits) {
        if has_sign(s) && s[0] == '-' {
            Some(-digits_value(digits))
        } else {
            Some(digits_value(digits))
        }
    } else {
        None
    }
}

/// `n` in decimal digits, without leading zeros.
pub open spec fn decimal_of_nat(n: nat) -> Seq<char>
    decreases n,
{
    if n < 10 {
        seq![digit_char(n)]
    } else {
        decimal_of_nat(n / 10).push(digit_char(n % 10))
    }
}

/// `n` in decimal digits, with a `-` before them where it is negative.
pub open spec fn decimal_of(n: int) -> Seq<char> {
    if n < 0 {
        seq!['-'] + decimal_of_nat((-n) as nat)
    } else {
        decimal_of_nat(n as nat)
    }
}

/// What reading `s` as an `i32` gives.
pub open spec fn i32_of(s: Seq<char>) -> Result<i32, NumberError> {
    match number_of(s) {
        Some(n) => if i32::MIN <= n <= i32::MAX {
            Ok(n as i32)
        } else {
            Err(NumberError::OutOfRange)
        },
        None => Err(NumberError::NotANumber),
    }
}

/// The digits of a number are digits, and stand for the number.
pub proof fn lemma_decimal_of_nat(n: nat)
    ensures
        decimal_of_nat(n).len() > 0,
        all_digits(decimal_of_nat(n)),
        digits_value(decimal_of_nat(n)) == n,
    decreases n,
{
    if n < 10 {
        let s = decimal_of_nat(n);
        assert(s.drop_last() =~= Seq::<char>::empty());
        assert(digits_value(s.drop_last()) == 0);
    } else {
        lemma_decimal_of_nat(n / 10);
        let s = decimal_of_nat(n);
        assert(s.drop_last() =~= decimal_of_nat(n / 10));
    }
}

/// A number that is written and then read again is the same number.
pub proof fn lemma_written_number_is_read_back(n: int)
    ensures
        number_of(decimal_of(n)) == Some(n),
{
    if n < 0 {
        let digits = decimal_of_nat((-n) as nat);
        lemma_decimal_of_nat((-n) as nat);
        assert(decimal_of(n).drop_first() =~= digits);
    } else {
        lemma_decimal_of_nat(n as nat);
    }
}

/// The digits at the front of a number stand for no more than all of them.
proof fn lemma_digits_value_grows(s: Seq<char>, k: int)
    requires
        all_digits(s),
        0 <= k <= s.len(),
    ensures
        0 <= digits_value(s.take(k)) <= digits_value(s),
    decreases s.len() - k,
{
    if k == s.len() {
        assert(s.take(k) =~= s);
        lemma_digits_value_is_not_negative(s);
    } else {
        lemma_digits_value_grows(s, k + 1);
        assert(s.take(k + 1).drop_last() =~= s.take(k));
        assert(is_digit(s[k]));
        lemma_digits_value_is_not_negative(s.take(k));
    }
}

/// Digits stand for a number that is not negative.
proof fn lemma_digits_value_is_not_negative(s: Seq<char>)
    requires
        all_digits(s),
    ensures
        0 <= digits_value(s),
    decreases s.len(),
{
    if s.len() > 0 {
        assert(is_digit(s.last()));
        lemma_digits_value_is_not_negative(s.drop_last());
    }
}

/// The text of the digit for `d`.
fn digit_text(d: u8) -> (text: &'static str)
    requires
        d < 10,
    ensures
        text@ == seq![digit_char(d as nat)],
{
    proof {
        reveal_strlit("0");
        reveal_strlit("1");
        reveal_strlit("2");
        reveal_strlit("3");
        reveal_strlit("4");
        reveal_strlit("5");
        reveal_strlit("6");
        reveal_strlit("7");
        reveal_strlit("8");
        reveal_strlit("9");
    }
    let text = match d {
        0 => "0",
        1 => "1",
        2 => "2",
        3 => "3",
        4 => "4",
        5 => "5",
        6 => "6",
        7 => "7",
        8 => "8",
        _ => "9",
    };
    assert(text@ =~= seq![digit_char(d as nat)]);
    text
}

/// Appends `n` in decimal digits to `out`.
fn push_decimal(out: &mut String, n: u32)
    ensures
        final(out)@ == old(out)@ + decimal_of_nat(n as nat),
    decreases n,
{
    if n >= 10 {
        push_decimal(out, n / 10);
    }
    out.append(digit_text((n % 10) as u8));
}

/// Writes `n` in decimal digits.
pub fn write_i32(n: i32) -> (text: String)
    ensures
        text@ == decimal_of(n as int),
{
    let mut text = String::new();
    if n < 0 {
        text.append("-");
        proof {
            reveal_strlit("-");
        }
        push_decimal(&mut text, (-(n as i64)) as u32);
    } else {
        push_decimal(&mut text, n as u32);
    }
    assert(text@ =~= decimal_of(n as int));
    text
}

/// Reads the part `from..to` of `chars` as a number.
pub fn read_i32(chars: &Vec<char>, from: usize, to: usize) -> (r: Result<i32, NumberError>)
    requires
        from <= to <= chars.len(),
    ensures
        r == i32_of(chars@.subrange(from as int, to as int)),
{
    let ghost s = chars@.subrange(from as int, to as int);
    let signed = from < to && (chars[from] == '+' || chars[from] == '-');
    let negative = signed && chars[from] == '-';
    let start = if signed {
        from + 1
    } else {
        from
    };
    let ghost digits = chars@.subrange(start as int, to as int);
    assert(signed == has_sign(s));
    assert(digits =~= if has_sign(s) {
        s.drop_first()
    } else {
        s
    });
    assert(number_of(s) == if digits.len() > 0 && all_digits(digits) {
        if negative {
            Some(-digits_value(digits))
        } else {
            Some(digits_value(digits))
        }
    } else {
        None
    });
    if start == to {
        return Err(NumberError::NotANumber);
    }
    let mut i = start;
    while i < to
        invariant
            start <= i <= to <= chars.len(),
            s == chars@.subrange(from as int, to as int),
            digits == chars@.subrange(start as int, to as int),
            !all_digits(digits) ==> number_of(s) is None,
            forall|j: int| 0 <= j < i - start ==> is_digit(#[trigger] digits[j]),
        decreases to - i,
    {
        let c = chars[i];
        if !('0' <= c && c <= '9') {
            assert(!is_digit(digits[i - start]));
            return Err(NumberError::NotANumber);
        }
        i += 1;
    }
    assert(all_digits(digits));
    let mut value: i64 = 0;
    let mut k = start;
    assert(digits.take(0) =~= Seq::<char>::empty());
    while k < to
        invariant
            start <= k <= to <= chars.len(),
            s == chars@.subrange(from as int, to as int),
            digits == chars@.subrange(start as int, to as int),
            all_digits(digits),
            number_of(s) == Some(if negative {
                -digits_value(digits)
            } else {
                digits_value(digits)
            }),
            value == digits_value(digits.take(k - start)),
            0 <= value <= 0x8000_0000,
        decreases to - k,
    {
        let c = chars[k];
        proof {
            assert(is_digit(digits[k - start]));
            assert(digits.take(k - start + 1).drop_last() =~= digits.take(k - start));
            lemma_digits_value_grows(digits, k - start + 1);
        }
        value = value * 10 + ((c as u8) - ('0' as u8)) as i64;
        k += 1;
        if value > 0x8000_0000 {
            return Err(NumberError::OutOfRange);
        }
    }
    assert(digits.take(to - start) =~= digits);
    if negative {
        Ok((-value) as i32)
    } else if value > 0x7fff_ffff {
        Err(NumberError::OutOfRange)
    } else {
        Ok(value as i32)
    }
}

impl Circle {
    /// The circle in words.
    pub fn to_text(&self) -> (text: String)
        ensures
            text@ == "Circle of radius "@ + decimal_of(self.radius as int),
    {
        let mut text = String::from_str("Circle of radius ");
        text.append(write_i32(self.radius).as_str());
        text
    }

    /// Reads a circle from its radius, which may have white space around
    /// it.
    pub fn from_str(s: &str) -> (r: Result<Circle, NumberError>)
        ensures
            (match r {
                Ok(circle) => i32_of(trim(s@)) == Ok::<i32, NumberError>(circle.radius),
                Err(error) => i32_of(trim(s@)) == Err::<i32, NumberError>(error),
            }),
    {
        let chars = to_chars(s);
        let (from, to) = trim_range(&chars, 0, chars.len());
        assert(chars@.subrange(0, chars@.len() as int) =~= chars@);
        match read_i32(&chars, from, to) {
            Ok(radius) => Ok(Circle { radius }),
            Err(error) => Err(error),
        }
    }
}

} // verus!
