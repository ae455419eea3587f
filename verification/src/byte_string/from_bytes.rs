//! Decimal integers read straight from bytes, with overflow rejected.

use vstd::prelude::*;

verus! {

/// The error of a failed integer parse: the input was empty, held something
/// other than a sign and digits, or named a value outside the target type.
#[derive(Debug, PartialEq, Eq, Structural)]
pub struct ParseIntError;

impl ParseIntError {
    /// The text this error shows as.
    pub fn to_string(&self) -> (r: String)
        ensures
            r@ == "error parsing int from byte string"@,
    {
        "error parsing int from byte string".to_owned()
    }
}

/// A byte is one of the ASCII digits `0` to `9`.
pub open spec fn is_digit(b: u8) -> bool {
    0x30 <= b <= 0x39
}

/// Every byte is an ASCII digit.
pub open spec fn all_digits(s: Seq<u8>) -> bool {
    forall|i: int| 0 <= i < s.len() ==> is_digit(#[trigger] s[i])
}

/// The number that a run of ASCII digits writes in base ten.
pub open spec fn digits_value(s: Seq<u8>) -> nat
    decreases s.len(),
{
    if s.len() == 0 {
        0
    } else {
        (10 * digits_value(s.drop_last()) + (s.last() - 0x30)) as nat
    }
}

/// The integer that a byte string writes: an optional `+` or `-`, then one
/// or more ASCII digits. `None` for every other input.
pub open spec fn decimal_value(s: Seq<u8>) -> Option<int> {
    if s.len() == 0 {
        None
    } else if s[0] == 0x2d {
        if s.len() > 1 && all_digits(s.skip(1)) {
            Some(-(digits_value(s.skip(1)) as int))
        } else {
            None
        }
    } else if s[0] == 0x2b {
        if s.len() > 1 && all_digits(s.skip(1)) {
            Some(digits_value(s.skip(1)) as int)
        } else {
            None
        }
    } else if all_digits(s) {
        Some(digits_value(s) as int)
    } else {
        None
    }
}

/// A signed integer type that byte strings can be parsed into.
pub trait Number: Sized + Copy {
    /// The integer that a value of the type stands for.
    spec fn to_int(self) -> int;

    /// The least integer of the type.
    spec fn min_int() -> int;

    /// The greatest integer of the type.
    spec fn max_int() -> int;

    /// The type holds at least the signed byte range, and no two of its
    /// values stand for the same integer.
    proof fn lemma_range()
        ensures
            Self::min_int() <= -128,
            127 <= Self::max_int(),
            forall|a: Self, b: Self| a.to_int() == b.to_int() ==> a == b,
            forall|a: Self| Self::min_int() <= #[trigger] a.to_int() <= Self::max_int(),
    ;

    fn from(n: u32) -> (r: Self)
        requires
            n <= Self::max_int(),
        ensures
            r.to_int() == n,
    ;

    fn checked_add(self, rhs: Self) -> (r: Option<Self>)
        ensures
            match r {
                Some(v) => v.to_int() == self.to_int() + rhs.to_int(),
                None => !(Self::min_int() <= self.to_int() + rhs.to_int() <= Self::max_int()),
            },
    ;

    fn checked_mul(self, rhs: Self) -> (r: Option<Self>)
        ensures
            match r {
                Some(v) => v.to_int() == self.to_int() * rhs.to_int(),
                None => !(Self::min_int() <= self.to_int() * rhs.to_int() <= Self::max_int()),
            },
    ;

    /// The value with its sign turned, where the type holds it.
    fn checked_neg(self) -> (r: Option<Self>)
        ensures
            match r {
                Some(v) => v.to_int() == -self.to_int(),
                None => !(Self::min_int() <= -self.to_int() <= Self::max_int()),
            },
    ;
}

impl Number for i64 {
    open spec fn to_int(self) -> int {
        self as int
    }

    open spec fn min_int() -> int {
        i64::MIN as int
    }

    open spec fn max_int() -> int {
        i64::MAX as int
    }

    proof fn lemma_range() {
    }

    fn from(n: u32) -> (r: Self) {
        n as i64
    }

    fn checked_add(self, rhs: Self) -> (r: Option<Self>) {
        i64::checked_add(self, rhs)
    }

    fn checked_mul(self, rhs: Self) -> (r: Option<Self>) {
        i64::checked_mul(self, rhs)
    }

    fn checked_neg(self) -> (r: Option<Self>) {
        i64::checked_sub(0, self)
    }
}

impl Number for isize {
    open spec fn to_int(self) -> int {
        self as int
    }

    open spec fn min_int() -> int {
        isize::MIN as int
    }

    open spec fn max_int() -> int {
        isize::MAX as int
    }

    proof fn lemma_range() {
    }

    fn from(n: u32) -> (r: Self) {
        n as isize
    }

    fn checked_add(self, rhs: Self) -> (r: Option<Self>) {
        isize::checked_add(self, rhs)
    }

    fn checked_mul(self, rhs: Self) -> (r: Option<Self>) {
        isize::checked_mul(self, rhs)
    }

    fn checked_neg(self) -> (r: Option<Self>) {
        isize::checked_sub(0, self)
    }
}

/// What parsing a byte string into a type with the given range gives: the
/// integer that the bytes write, where there is one and the type holds it.
pub open spec fn parsed(s: Seq<u8>, min: int, max: int) -> Option<int> {
    match decimal_value(s) {
        Some(v) => if min <= v <= max {
            Some(v)
        } else {
            None
        },
        None => None,
    }
}

/// The byte strings that write a number: an optional `+` or `-`, then one
/// or more ASCII digits, and nothing else.
pub open spec fn writes_number(s: Seq<u8>) -> bool {
    if s.len() > 0 && (s[0] == 0x2b || s[0] == 0x2d) {
        s.len() > 1 && all_digits(s.skip(1))
    } else {
        s.len() > 0 && all_digits(s)
    }
}

/// Parsing succeeds on the byte strings that write a number whose value
/// the target type holds, and on no others: not on the empty string, and
/// not on one that holds anything but a leading sign and digits. What it
/// gives is the number written.
pub proof fn lemma_parse_law(s: Seq<u8>, min: int, max: int)
    ensures
        decimal_value(s) is Some <==> writes_number(s),
        writes_number(s) ==> (parsed(s, min, max) is Some <==> min <= decimal_value(s)->Some_0
            <= max),
        parsed(s, min, max) is Some ==> parsed(s, min, max) == decimal_value(s),
        s.len() == 0 ==> parsed(s, min, max) is None,
        !writes_number(s) ==> parsed(s, min, max) is None,
{
    if s.len() > 0 && (s[0] == 0x2b || s[0] == 0x2d) {
        assert(!is_digit(s[0]));
        assert(!all_digits(s));
    }
}

/// A longer run of digits writes a number at least as large as each of its
/// prefixes.
pub proof fn lemma_digits_value_prefix(s: Seq<u8>, k: int)
    requires
        all_digits(s),
        0 <= k <= s.len(),
    ensures
        digits_value(s.take(k)) <= digits_value(s),
    decreases s.len(),
{
    if k == s.len() {
        assert(s.take(k) =~= s);
    } else {
        assert(s.drop_last().take(k) =~= s.take(k));
        lemma_digits_value_prefix(s.drop_last(), k);
    }
}

/// Appending a digit multiplies the number by ten and adds the digit.
pub proof fn lemma_digits_value_step(s: Seq<u8>, k: int)
    requires
        0 <= k < s.len(),
    ensures
        digits_value(s.take(k + 1)) == (10 * digits_value(s.take(k)) + (s[k] - 0x30)) as nat,
{
    assert(s.take(k + 1).drop_last() =~= s.take(k));
}

/// Parses a decimal integer from bytes: an optional sign, then one or more
/// digits, accumulated with checked arithmetic.
pub fn from_bytes<T: Number>(string: &[u8]) -> (r: Result<T, ParseIntError>)
    ensures
        match r {
            Ok(n) => parsed(string@, T::min_int(), T::max_int()) == Some(n.to_int()),
            Err(_) => parsed(string@, T::min_int(), T::max_int()) is None,
        },
{
    proof {
        T::lemma_range();
    }
    if string.len() == 0 {
        return Err(ParseIntError);
    }
    let first = string[0];
    let negative = first == 0x2d;
    let start: usize = if first == 0x2d || first == 0x2b {
        1
    } else {
        0
    };
    if start == string.len() {
        return Err(ParseIntError);
    }
    let ghost digits = string@.skip(start as int);
    let ten: T = T::from(10);
    let mut result: T = T::from(0);
    let mut i: usize = start;
    while i < string.len()
        invariant
            start <= i <= string.len(),
            start < string.len(),
            first == string@[0],
            negative == (first == 0x2d),
            start == 1 <==> (first == 0x2d || first == 0x2b),
            start == 0 || start == 1,
            digits == string@.skip(start as int),
            all_digits(digits.take(i - start)),
            negative ==> result.to_int() == -(digits_value(digits.take(i - start)) as int),
            !negative ==> result.to_int() == digits_value(digits.take(i - start)) as int,
            ten.to_int() == 10,
            T::min_int() <= -128,
            127 <= T::max_int(),
            forall|a: T| T::min_int() <= #[trigger] a.to_int() <= T::max_int(),
        decreases string.len() - i,
    {
        let c = string[i];
        let ghost k = i - start;
        assert(digits[k] == c);
        if c < 0x30 || c > 0x39 {
            assert(!all_digits(digits));
            assert(string@.skip(0) =~= string@);
            return Err(ParseIntError);
        }
        proof {
            lemma_digits_value_step(digits, k);
            assert(all_digits(digits.take(k + 1))) by {
                assert forall|j: int| 0 <= j < k + 1 implies is_digit(
                    #[trigger] digits.take(k + 1)[j],
                ) by {
                    if j < k {
                        assert(digits.take(k)[j] == digits[j]);
                    }
                }
            }
            if all_digits(digits) {
                lemma_digits_value_prefix(digits, k + 1);
            }
            assert(string@.skip(0) =~= string@);
        }
        let digit: T = T::from((c - 0x30) as u32);
        let signed_digit = if negative {
            match digit.checked_neg() {
                Some(d) => d,
                None => { return Err(ParseIntError); },
            }
        } else {
            digit
        };
        result = match result.checked_mul(ten) {
            Some(v) => v,
            None => {
                return Err(ParseIntError);
            },
        };
        result = match result.checked_add(signed_digit) {
            Some(v) => v,
            None => {
                return Err(ParseIntError);
            },
        };
        i += 1;
    }
    assert(digits.take(i - start) =~= digits);
    assert(string@.skip(0) =~= string@);
    Ok(result)
}

} // verus!
