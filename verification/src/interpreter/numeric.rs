use vstd::prelude::*;

use crate::interpreter::binary64::{Real, SIGN_BIT};
use crate::interpreter::decimal::{decimal_magnitude, decimal_to_magnitude, digit_count};
use crate::interpreter::natural::Natural;

verus! {

/// White space as the C locale has it: the space and the control
/// characters from the tabulator to the carriage return.
pub open spec fn is_space(b: u8) -> bool {
    b == 32 || (9 <= b <= 13)
}

pub open spec fn is_digit(b: u8) -> bool {
    48 <= b <= 57
}

/// The first place at or after `i` that holds no white space.
pub open spec fn skip_spaces(s: Seq<u8>, i: int) -> int
    decreases s.len() - i,
{
    if 0 <= i < s.len() && is_space(s[i]) {
        skip_spaces(s, i + 1)
    } else {
        i
    }
}

/// The first place at or after `i` that holds no digit.
pub open spec fn digit_run(s: Seq<u8>, i: int) -> int
    decreases s.len() - i,
{
    if 0 <= i < s.len() && is_digit(s[i]) {
        digit_run(s, i + 1)
    } else {
        i
    }
}

/// The number `acc` with the digits at the places from `from` up to `to`
/// written behind it.
pub open spec fn append_digits(acc: nat, s: Seq<u8>, from: int, to: int) -> nat
    decreases to - from,
{
    if to <= from {
        acc
    } else {
        (append_digits(acc, s, from, to - 1) * 10 + (s[to - 1] - 48)) as nat
    }
}

/// Whether a sign stands at place `i`.
pub open spec fn sign_at(s: Seq<u8>, i: int) -> bool {
    0 <= i < s.len() && (s[i] == 43 || s[i] == 45)
}

/// Whether a minus sign stands at place `i`.
pub open spec fn minus_at(s: Seq<u8>, i: int) -> bool {
    0 <= i < s.len() && s[i] == 45
}

/// The place behind the sign at `i`, if there is one.
pub open spec fn after_sign(s: Seq<u8>, i: int) -> int {
    if sign_at(s, i) {
        i + 1
    } else {
        i
    }
}

/// The longest beginning of a text that is a number: white space, a sign,
/// digits with at most one point among them, and an exponent, of which only
/// the digits are required. The places say where its parts lie.
pub struct Shape {
    /// A minus sign stands before the digits.
    pub negative: bool,
    /// The digits before the point lie from here ...
    pub whole_start: int,
    /// ... up to here.
    pub whole_end: int,
    /// A point follows the digits before it.
    pub point: bool,
    /// The digits behind the point lie from here ...
    pub fraction_start: int,
    /// ... up to here.
    pub fraction_end: int,
    /// An exponent follows: the letter `e`, a sign perhaps, and a digit at
    /// least.
    pub exponent: bool,
    /// A minus sign stands before the digits of the exponent.
    pub exponent_negative: bool,
    /// The digits of the exponent lie from here ...
    pub exponent_start: int,
    /// ... up to here.
    pub exponent_end: int,
}

impl Shape {
    /// The digits before and behind the point, read as one number.
    pub open spec fn digits(self, s: Seq<u8>) -> nat {
        append_digits(
            append_digits(0, s, self.whole_start, self.whole_end),
            s,
            self.fraction_start,
            self.fraction_end,
        )
    }

    /// The power of ten by which [`Shape::digits`] is to be multiplied.
    pub open spec fn scale(self, s: Seq<u8>) -> int {
        let e = append_digits(0, s, self.exponent_start, self.exponent_end);
        (if self.exponent_negative {
            -e
        } else {
            e as int
        }) - (self.fraction_end - self.fraction_start)
    }

    /// Neither a point nor an exponent: the number is written as an integer.
    pub open spec fn plain(self) -> bool {
        !self.point && !self.exponent
    }
}

/// The shape of the number with which the text `s` begins, if it begins with
/// one.
pub open spec fn shape(s: Seq<u8>) -> Option<Shape> {
    let start = skip_spaces(s, 0);
    let whole_start = after_sign(s, start);
    let whole_end = digit_run(s, whole_start);
    let point = 0 <= whole_end < s.len() && s[whole_end] == 46;
    let fraction_start = if point {
        whole_end + 1
    } else {
        whole_end
    };
    let fraction_end = digit_run(s, fraction_start);
    let mark = 0 <= fraction_end < s.len() && (s[fraction_end] == 101 || s[fraction_end] == 69);
    let exponent_start = after_sign(s, fraction_end + 1);
    let exponent_end = digit_run(s, exponent_start);
    let exponent = mark && exponent_end > exponent_start;
    if whole_end == whole_start && fraction_end == fraction_start {
        None
    } else {
        Some(
            Shape {
                negative: minus_at(s, start),
                whole_start,
                whole_end,
                point,
                fraction_start,
                fraction_end,
                exponent,
                exponent_negative: exponent && minus_at(s, fraction_end + 1),
                exponent_start: if exponent {
                    exponent_start
                } else {
                    fraction_end
                },
                exponent_end: if exponent {
                    exponent_end
                } else {
                    fraction_end
                },
            },
        )
    }
}

/// A number read from a text.
#[derive(Clone, Copy, Debug, PartialEq, Eq, Structural)]
pub enum Number {
    Integer(i64),
    Real(Real),
}

/// The number that a text begins with. It is an integer where the number is
/// written as one and lies in the range of `i64`, and the nearest binary64
/// elsewhere. `None` where the text begins with no number.
pub open spec fn leading_number(s: Seq<u8>) -> Option<Number> {
    match shape(s) {
        None => None,
        Some(sh) => {
            let d = sh.digits(s);
            if sh.plain() && !sh.negative && d <= i64::MAX {
                Some(Number::Integer(d as i64))
            } else if sh.plain() && sh.negative && d <= 0x8000_0000_0000_0000 {
                Some(Number::Integer((-d) as i64))
            } else {
                let mag = decimal_magnitude(d, sh.scale(s));
                Some(
                    Number::Real(
                        Real {
                            bits: if sh.negative {
                                (mag + SIGN_BIT) as u64
                            } else {
                                mag as u64
                            },
                        },
                    ),
                )
            }
        },
    }
}

/// The integer that a text begins with: its sign and the digits before the
/// point, held to the range of `i64`; zero where no digit stands there.
pub open spec fn leading_integer(s: Seq<u8>) -> int {
    let start = skip_spaces(s, 0);
    let from = after_sign(s, start);
    let d = append_digits(0, s, from, digit_run(s, from));
    if minus_at(s, start) {
        if d >= 0x8000_0000_0000_0000 {
            i64::MIN as int
        } else {
            -d
        }
    } else {
        if d > i64::MAX {
            i64::MAX as int
        } else {
            d as int
        }
    }
}

fn space(b: u8) -> (r: bool)
    ensures
        r == is_space(b),
{
    b == 32 || (9 <= b && b <= 13)
}

fn digit(b: u8) -> (r: bool)
    ensures
        r == is_digit(b),
{
    48 <= b && b <= 57
}

fn spaces_end(s: &[u8], i: usize) -> (r: usize)
    requires
        i <= s@.len(),
    ensures
        r == skip_spaces(s@, i as int),
        i <= r <= s@.len(),
{
    let mut j: usize = i;
    while j < s.len() && space(s[j])
        invariant
            i <= j <= s@.len(),
            skip_spaces(s@, j as int) == skip_spaces(s@, i as int),
        decreases s@.len() - j,
    {
        j = j + 1;
    }
    j
}

pub(crate) fn digits_end(s: &[u8], i: usize) -> (r: usize)
    requires
        i <= s@.len(),
    ensures
        r == digit_run(s@, i as int),
        i <= r <= s@.len(),
        forall|k: int| i <= k < r ==> is_digit(s@[k]),
{
    let mut j: usize = i;
    while j < s.len() && digit(s[j])
        invariant
            i <= j <= s@.len(),
            digit_run(s@, j as int) == digit_run(s@, i as int),
            forall|k: int| i <= k < j ==> is_digit(s@[k]),
        decreases s@.len() - j,
    {
        j = j + 1;
    }
    j
}

fn sign_end(s: &[u8], i: usize) -> (r: (usize, bool))
    requires
        i <= s@.len(),
    ensures
        r.0 == after_sign(s@, i as int),
        r.1 == minus_at(s@, i as int),
        i <= r.0 <= s@.len(),
{
    if i < s.len() && (s[i] == 43 || s[i] == 45) {
        (i + 1, s[i] == 45)
    } else {
        (i, false)
    }
}

/// Writes the digits from `from` up to `to` behind the number `d`, and counts
/// the digits of the result.
fn read_digits(d: &mut Natural, count: &mut usize, s: &[u8], from: usize, to: usize)
    requires
        from <= to <= s@.len(),
        *old(count) == digit_count(old(d).value()),
        *old(count) <= from,
        forall|k: int| from <= k < to ==> is_digit(s@[k]),
    ensures
        final(d).value() == append_digits(old(d).value(), s@, from as int, to as int),
        *final(count) == digit_count(final(d).value()),
        *final(count) <= to,
{
    let mut j: usize = from;
    while j < to
        invariant
            from <= j <= to <= s@.len(),
            d.value() == append_digits(old(d).value(), s@, from as int, j as int),
            *count == digit_count(d.value()),
            *count <= j,
            forall|k: int| from <= k < to ==> is_digit(s@[k]),
        decreases to - j,
    {
        let c: u8 = s[j] - 48;
        let ghost before = d.value();
        d.times_plus(10, c as u32);
        proof {
            assert(d.value() == before * 10 + c);
            assert(d.value() / 10 == before);
        }
        if *count > 0 || c != 0 {
            *count = *count + 1;
        }
        j = j + 1;
    }
}


/// Ten to the 30th: an exponent is read no further than this, which is
/// beyond the reach of any text's digits.
pub const EXPONENT_CAP: i128 = 1_000_000_000_000_000_000_000_000_000_000;

/// The digits from `from` up to `to` as a number, or some number from ten to
/// the 30th upward where they amount to that much.
pub(crate) fn read_exponent(s: &[u8], from: usize, to: usize) -> (e: i128)
    requires
        from <= to <= s@.len(),
        forall|k: int| from <= k < to ==> is_digit(s@[k]),
    ensures
        0 <= e < 10 * EXPONENT_CAP,
        e == append_digits(0, s@, from as int, to as int) || (e >= EXPONENT_CAP && append_digits(
            0,
            s@,
            from as int,
            to as int,
        ) >= EXPONENT_CAP),
{
    let mut e: i128 = 0;
    let mut j: usize = from;
    while j < to
        invariant
            from <= j <= to <= s@.len(),
            0 <= e < 10 * EXPONENT_CAP,
            e == append_digits(0, s@, from as int, j as int) || (e >= EXPONENT_CAP && append_digits(
                0,
                s@,
                from as int,
                j as int,
            ) >= EXPONENT_CAP),
            forall|k: int| from <= k < to ==> is_digit(s@[k]),
        decreases to - j,
    {
        if e < EXPONENT_CAP {
            e = e * 10 + (s[j] - 48) as i128;
        }
        j = j + 1;
    }
    e
}

/// The number that the text begins with; see [`leading_number`].
pub fn parse_number(s: &[u8]) -> (r: Option<Number>)
    ensures
        r == leading_number(s@),
{
    let start: usize = spaces_end(s, 0);
    let (whole_start, negative) = sign_end(s, start);
    let whole_end: usize = digits_end(s, whole_start);
    let point: bool = whole_end < s.len() && s[whole_end] == 46;
    let fraction_start: usize = if point {
        whole_end + 1
    } else {
        whole_end
    };
    let fraction_end: usize = digits_end(s, fraction_start);
    if whole_end == whole_start && fraction_end == fraction_start {
        return None;
    }
    let mark: bool = fraction_end < s.len() && (s[fraction_end] == 101 || s[fraction_end] == 69);
    let mut exponent: bool = false;
    let mut signed_exponent: i128 = 0;
    let ghost sh = shape(s@).unwrap();
    if mark {
        let (exponent_start, exponent_negative) = sign_end(s, fraction_end + 1);
        let exponent_end: usize = digits_end(s, exponent_start);
        if exponent_end > exponent_start {
            exponent = true;
            let e: i128 = read_exponent(s, exponent_start, exponent_end);
            signed_exponent = if exponent_negative {
                -e
            } else {
                e
            };
        }
    }
    assert(exponent == sh.exponent);
    let mut d: Natural = Natural::from_u64(0);
    let mut count: usize = 0;
    read_digits(&mut d, &mut count, s, whole_start, whole_end);
    read_digits(&mut d, &mut count, s, fraction_start, fraction_end);
    assert(d.value() == sh.digits(s@));
    if !point && !exponent {
        match d.small() {
            Some(v) => {
                if !negative && v <= 0x7FFF_FFFF_FFFF_FFFF {
                    return Some(Number::Integer(v as i64));
                }
                if negative && v <= 0x8000_0000_0000_0000 {
                    return Some(Number::Integer((-(v as i128)) as i64));
                }
            },
            None => {},
        }
    }
    let p: i128 = signed_exponent - (fraction_end - fraction_start) as i128;
    let mag: u64 = decimal_to_magnitude(d, count, p);
    proof {
        let e_true = append_digits(0, s@, sh.exponent_start, sh.exponent_end);
        if !exponent {
            assert(e_true == 0);
        }
        assert(decimal_magnitude(d.value(), sh.scale(s@)) == decimal_magnitude(
            d.value(),
            p as int,
        ));
    }
    Some(
        Number::Real(
            Real {
                bits: if negative {
                    mag + SIGN_BIT
                } else {
                    mag
                },
            },
        ),
    )
}

/// The integer that the text begins with; see [`leading_integer`].
pub fn parse_integer(s: &[u8]) -> (r: i64)
    ensures
        r == leading_integer(s@),
{
    let start: usize = spaces_end(s, 0);
    let (from, negative) = sign_end(s, start);
    let to: usize = digits_end(s, from);
    let mut d: Natural = Natural::from_u64(0);
    let mut count: usize = 0;
    read_digits(&mut d, &mut count, s, from, to);
    match d.small() {
        Some(v) => {
            if negative {
                if v >= 0x8000_0000_0000_0000 {
                    i64::MIN
                } else {
                    -(v as i64)
                }
            } else {
                if v > 0x7FFF_FFFF_FFFF_FFFF {
                    i64::MAX
                } else {
                    v as i64
                }
            }
        },
        None => {
            if negative {
                i64::MIN
            } else {
                i64::MAX
            }
        },
    }
}

} // verus!
