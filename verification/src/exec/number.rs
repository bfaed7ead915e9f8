//! The number domain expressions are evaluated over.
//!
//! Evaluation is generic in how numbers are represented: an executor names its
//! [`Numbers`] and the evaluator only relies on what the trait states. The
//! domain holds two kinds of number. A plain number is the coercion of any
//! text that reads as a number; comparisons and sorting use it. A typed number
//! comes from a literal with a numeric datatype; arithmetic uses it.

use crate::text::{chars_of, same_text, signed_decimal, signed_text, Order, Text};
use vstd::prelude::*;
use vstd::string::*;

verus! {

/// A binary arithmetic operator.
#[derive(Clone, Copy, PartialEq, Eq, Structural)]
pub enum Arith {
    Plus,
    Minus,
    Times,
    Over,
}

/// A unary arithmetic operator.
#[derive(Clone, Copy, PartialEq, Eq, Structural)]
pub enum Unary {
    Negate,
    Abs,
    Ceil,
    Floor,
    Round,
}

/// A representation of numbers.
pub trait Numbers: Sized {
    /// A plain number.
    type Num;

    /// A number together with its datatype.
    type Typed;

    /// The plain number a text reads as.
    open spec fn parsed(s: Text) -> Option<Self::Num> {
        arbitrary()
    }

    /// How two plain numbers compare; numbers without an order are equal.
    open spec fn order(a: Self::Num, b: Self::Num) -> Order {
        arbitrary()
    }

    /// Is the value outside the order?
    open spec fn unordered(a: Self::Num) -> bool {
        arbitrary()
    }

    /// Does the value equal zero?
    open spec fn is_zero(a: Self::Num) -> bool {
        arbitrary()
    }

    /// The nearest integer, clamped to the range of `i64`.
    open spec fn nearest(a: Self::Num) -> i64 {
        arbitrary()
    }

    /// The nearest natural number, clamped to the range of `usize`.
    open spec fn nearest_count(a: Self::Num) -> usize {
        arbitrary()
    }

    /// The text of the value.
    open spec fn shown(a: Self::Num) -> Text {
        arbitrary()
    }

    /// The typed number a literal value of a datatype stands for.
    open spec fn typed(value: Text, datatype: Text) -> Option<Self::Typed> {
        arbitrary()
    }

    /// The typed number of an integer.
    open spec fn typed_integer(n: i64) -> Self::Typed {
        arbitrary()
    }

    /// The result of a binary operator, where it is defined.
    open spec fn binary(op: Arith, a: Self::Typed, b: Self::Typed) -> Option<Self::Typed> {
        arbitrary()
    }

    /// The result of a unary operator, where it is defined.
    open spec fn unary(op: Unary, a: Self::Typed) -> Option<Self::Typed> {
        arbitrary()
    }

    /// The literal of a typed number.
    open spec fn literal(a: Self::Typed) -> Text {
        arbitrary()
    }

    /// Off the unordered values, the order is a total preorder.
    proof fn order_laws(a: Self::Num, b: Self::Num, c: Self::Num)
        requires
            !Self::unordered(a),
            !Self::unordered(b),
            !Self::unordered(c),
        ensures
            Self::order(a, a) == Order::Equal,
            Self::order(b, a) == Self::order(a, b).flipped(),
            Self::order(a, b) != Order::Greater && Self::order(b, c) != Order::Greater
                ==> Self::order(a, c) != Order::Greater,
            Self::order(a, b) == Order::Less && Self::order(b, c) != Order::Greater
                ==> Self::order(a, c) == Order::Less,
            Self::order(a, b) != Order::Greater && Self::order(b, c) == Order::Less
                ==> Self::order(a, c) == Order::Less,
    ;

    fn parse(s: &str) -> (r: Option<Self::Num>)
        ensures
            r == Self::parsed(s@),
    ;

    fn compare(a: &Self::Num, b: &Self::Num) -> (r: Order)
        ensures
            r == Self::order(*a, *b),
    ;

    fn is_unordered(a: &Self::Num) -> (r: bool)
        ensures
            r == Self::unordered(*a),
    ;

    fn equals_zero(a: &Self::Num) -> (r: bool)
        ensures
            r == Self::is_zero(*a),
    ;

    fn to_nearest(a: &Self::Num) -> (r: i64)
        ensures
            r == Self::nearest(*a),
    ;

    fn to_count(a: &Self::Num) -> (r: usize)
        ensures
            r == Self::nearest_count(*a),
    ;

    fn show(a: &Self::Num) -> (r: String)
        ensures
            r@ == Self::shown(*a),
    ;

    fn parse_typed(value: &str, datatype: &str) -> (r: Option<Self::Typed>)
        ensures
            r == Self::typed(value@, datatype@),
    ;

    fn from_integer(n: i64) -> (r: Self::Typed)
        ensures
            r == Self::typed_integer(n),
    ;

    fn apply_binary(op: Arith, a: Self::Typed, b: Self::Typed) -> (r: Option<Self::Typed>)
        ensures
            r == Self::binary(op, a, b),
    ;

    fn apply_unary(op: Unary, a: Self::Typed) -> (r: Option<Self::Typed>)
        ensures
            r == Self::unary(op, a),
    ;

    fn to_literal(a: Self::Typed) -> (r: String)
        ensures
            r@ == Self::literal(a),
    ;
}

// ── Reading integers ────────────────────────────────────────────────────────

/// Is the character a decimal digit?
pub open spec fn is_digit(c: char) -> bool {
    '0' <= c && c <= '9'
}

/// The value of a decimal digit.
pub open spec fn digit_value(c: char) -> int {
    c as u32 as int - 48
}

/// The value of a sequence of decimal digits.
pub open spec fn digits_value(s: Text) -> int
    decreases s.len(),
{
    if s.len() == 0 {
        0
    } else {
        digits_value(s.drop_last()) * 10 + digit_value(s.last())
    }
}

pub open spec fn all_digits(s: Text) -> bool {
    forall|i: int| 0 <= i < s.len() ==> is_digit(#[trigger] s[i])
}

/// The integer a text spells: an optional sign and at least one digit.
pub open spec fn int_of(s: Text) -> Option<int> {
    let digits = if s.len() > 0 && (s[0] == '+' || s[0] == '-') {
        s.drop_first()
    } else {
        s
    };
    if digits.len() == 0 || !all_digits(digits) {
        None
    } else if s[0] == '-' {
        Some(-digits_value(digits))
    } else {
        Some(digits_value(digits))
    }
}

/// The integer a text spells, where it fits 64 bits.
pub open spec fn i64_of(s: Text) -> Option<i64> {
    match int_of(s) {
        Some(n) => if i64::MIN <= n <= i64::MAX {
            Some(n as i64)
        } else {
            None
        },
        None => None,
    }
}

/// The value of a digit sequence never drops when digits are added.
proof fn digits_grow(s: Text, n: int)
    requires
        0 <= n <= s.len(),
        all_digits(s),
    ensures
        0 <= digits_value(s.take(n)) <= digits_value(s),
    decreases s.len() - n,
{
    if n == s.len() {
        assert(s.take(n) =~= s);
        digits_nonnegative(s);
    } else {
        digits_grow(s, n + 1);
        assert(s.take(n + 1).drop_last() =~= s.take(n));
        assert(s.take(n + 1).last() == s[n]);
        digits_nonnegative(s.take(n));
    }
}

proof fn digits_nonnegative(s: Text)
    requires
        all_digits(s),
    ensures
        0 <= digits_value(s),
    decreases s.len(),
{
    if s.len() > 0 {
        assert forall|i: int| 0 <= i < s.drop_last().len() implies is_digit(
            #[trigger] s.drop_last()[i],
        ) by {
            assert(s.drop_last()[i] == s[i]);
        }
        digits_nonnegative(s.drop_last());
        assert(is_digit(s[s.len() - 1]));
    }
}

/// Reads a signed 64-bit integer.
#[verifier::loop_isolation(false)]
pub fn parse_i64(s: &str) -> (r: Option<i64>)
    ensures
        r == i64_of(s@),
{
    let cs = chars_of(s);
    let n: usize = cs.len();
    let signed = n > 0 && (cs[0] == '+' || cs[0] == '-');
    let negative = n > 0 && cs[0] == '-';
    let start: usize = if signed {
        1
    } else {
        0
    };
    let ghost digits = if signed {
        s@.drop_first()
    } else {
        s@
    };
    assert(digits =~= cs@.skip(start as int));
    if start == n {
        return None;
    }
    let mut i: usize = start;
    while i < n
        invariant
            start <= i <= n,
            n == cs@.len(),
            digits == cs@.skip(start as int),
            forall|j: int| 0 <= j < i - start ==> is_digit(#[trigger] digits[j]),
        decreases n - i,
    {
        if !('0' <= cs[i] && cs[i] <= '9') {
            assert(!is_digit(digits[i - start]));
            return None;
        }
        i = i + 1;
    }
    assert(all_digits(digits));
    let mut acc: i128 = 0;
    let mut k: usize = start;
    while k < n
        invariant
            start <= k <= n,
            n == cs@.len(),
            digits == cs@.skip(start as int),
            all_digits(digits),
            acc == digits_value(digits.take(k - start)),
            0 <= acc <= 9223372036854775808,
        decreases n - k,
    {
        let d: i128 = (cs[k] as u32) as i128 - 48;
        proof {
            let m = k - start;
            assert(digits[m] == cs@[k as int]);
            assert(is_digit(digits[m]));
            assert(digits.take(m + 1).drop_last() =~= digits.take(m));
            assert(digits.take(m + 1).last() == digits[m]);
            digits_grow(digits, m + 1);
        }
        acc = acc * 10 + d;
        if acc > 9223372036854775808 {
            return None;
        }
        k = k + 1;
    }
    assert(digits.take(digits.len() as int) =~= digits);
    if negative {
        Some((-acc) as i64)
    } else if acc <= 9223372036854775807 {
        Some(acc as i64)
    } else {
        None
    }
}

// ── Whole numbers ───────────────────────────────────────────────────────────

/// The 64-bit integers as a number domain: a text is a number when it spells
/// one of them, arithmetic that leaves the range is undefined, and so is a
/// division with a remainder.
pub struct WholeNumbers;

/// The literal of an integer.
pub open spec fn integer_literal_text(n: int) -> Text {
    "\""@ + signed_decimal(n) + "\"^^<http://www.w3.org/2001/XMLSchema#integer>"@
}

pub fn integer_literal_string(n: i64) -> (r: String)
    ensures
        r@ == integer_literal_text(n as int),
{
    let mut out = "\"".to_owned();
    let digits = signed_text(n);
    out.append(digits.as_str());
    out.append("\"^^<http://www.w3.org/2001/XMLSchema#integer>");
    out
}

pub open spec fn in_range(n: int) -> Option<i64> {
    if i64::MIN <= n <= i64::MAX {
        Some(n as i64)
    } else {
        None
    }
}

impl Numbers for WholeNumbers {
    type Num = i64;

    type Typed = i64;

    open spec fn parsed(s: Text) -> Option<i64> {
        i64_of(s)
    }

    open spec fn order(a: i64, b: i64) -> Order {
        if a < b {
            Order::Less
        } else if a > b {
            Order::Greater
        } else {
            Order::Equal
        }
    }

    open spec fn unordered(a: i64) -> bool {
        false
    }

    open spec fn is_zero(a: i64) -> bool {
        a == 0
    }

    open spec fn nearest(a: i64) -> i64 {
        a
    }

    open spec fn nearest_count(a: i64) -> usize {
        if a < 0 {
            0
        } else if a > usize::MAX {
            usize::MAX
        } else {
            a as usize
        }
    }

    open spec fn shown(a: i64) -> Text {
        signed_decimal(a as int)
    }

    open spec fn typed(value: Text, datatype: Text) -> Option<i64> {
        if datatype == "http://www.w3.org/2001/XMLSchema#integer"@ {
            i64_of(value)
        } else {
            None
        }
    }

    open spec fn typed_integer(n: i64) -> i64 {
        n
    }

    open spec fn binary(op: Arith, a: i64, b: i64) -> Option<i64> {
        match op {
            Arith::Plus => in_range(a + b),
            Arith::Minus => in_range(a - b),
            Arith::Times => in_range(a * b),
            Arith::Over => if b != 0 && (a as int) % (b as int) == 0 {
                in_range((a as int) / (b as int))
            } else {
                None
            },
        }
    }

    open spec fn unary(op: Unary, a: i64) -> Option<i64> {
        match op {
            Unary::Negate => in_range(-a),
            Unary::Abs => in_range(
                if a < 0 {
                    -a
                } else {
                    a as int
                },
            ),
            _ => Some(a),
        }
    }

    open spec fn literal(a: i64) -> Text {
        integer_literal_text(a as int)
    }

    proof fn order_laws(a: i64, b: i64, c: i64) {
    }

    fn parse(s: &str) -> Option<i64> {
        parse_i64(s)
    }

    fn compare(a: &i64, b: &i64) -> Order {
        if *a < *b {
            Order::Less
        } else if *a > *b {
            Order::Greater
        } else {
            Order::Equal
        }
    }

    fn is_unordered(a: &i64) -> bool {
        false
    }

    fn equals_zero(a: &i64) -> bool {
        *a == 0
    }

    fn to_nearest(a: &i64) -> i64 {
        *a
    }

    fn to_count(a: &i64) -> usize {
        if *a < 0 {
            0
        } else if *a as u64 > usize::MAX as u64 {
            usize::MAX
        } else {
            *a as usize
        }
    }

    fn show(a: &i64) -> String {
        signed_text(*a)
    }

    fn parse_typed(value: &str, datatype: &str) -> Option<i64> {
        if same_text(datatype, "http://www.w3.org/2001/XMLSchema#integer") {
            parse_i64(value)
        } else {
            None
        }
    }

    fn from_integer(n: i64) -> i64 {
        n
    }

    fn apply_binary(op: Arith, a: i64, b: i64) -> Option<i64> {
        match op {
            Arith::Plus => a.checked_add(b),
            Arith::Minus => a.checked_sub(b),
            Arith::Times => a.checked_mul(b),
            Arith::Over => match a.checked_rem_euclid(b) {
                Some(m) => if m == 0 {
                    a.checked_div_euclid(b)
                } else {
                    None
                },
                None => {
                    proof {
                        if b != 0 {
                            whole_division(a as int, b as int);
                        }
                    }
                    None
                },
            },
        }
    }

    fn apply_unary(op: Unary, a: i64) -> Option<i64> {
        match op {
            Unary::Negate => if a == i64::MIN {
                None
            } else {
                Some(-a)
            },
            Unary::Abs => if a == i64::MIN {
                None
            } else if a < 0 {
                Some(-a)
            } else {
                Some(a)
            },
            _ => Some(a),
        }
    }

    fn to_literal(a: i64) -> String {
        integer_literal_string(a)
    }
}

proof fn whole_division(a: int, b: int)
    requires
        b == -1,
    ensures
        a % b == 0,
        a / b == -a,
{
    assert(a % b == 0 && a / b == -a) by (nonlinear_arith)
        requires
            b == -1,
    ;
}

}
