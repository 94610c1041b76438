use vstd::arithmetic::div_mod::lemma_div_multiples_vanish_quotient;
use vstd::arithmetic::div_mod::lemma_fundamental_div_mod;
use vstd::arithmetic::power2::{
    lemma2_to64, lemma2_to64_rest, lemma_pow2_adds, lemma_pow2_pos, lemma_pow2_unfold, pow2,
};
use vstd::prelude::*;

use crate::interpreter::natural::Natural;

verus! {

/// The sign bit of a binary64 pattern.
pub const SIGN_BIT: u64 = 0x8000_0000_0000_0000;

/// Two to the 52nd: the weight of the implicit leading bit of a normal number.
pub const HIDDEN_BIT: u64 = 0x10_0000_0000_0000;

/// The magnitude bits of an infinity; every larger magnitude is a NaN.
pub const INFINITY_BITS: u64 = 0x7FF0_0000_0000_0000;

/// A real number, held as its IEEE-754 binary64 bit pattern.
///
/// All arithmetic on it is carried out on the pattern with integers. The
/// number a pattern denotes is described by [`Real::scaled`].
#[derive(Clone, Copy, Debug, PartialEq, Eq, Structural)]
pub struct Real {
    pub bits: u64,
}

/// The pattern without its sign bit.
pub open spec fn magnitude(bits: u64) -> int {
    if bits >= SIGN_BIT {
        bits - SIGN_BIT
    } else {
        bits as int
    }
}

/// The number that a magnitude denotes, in units of two to the minus 1074
/// (the smallest positive binary64). Every finite magnitude denotes a whole
/// number of such units. The infinity and the NaN patterns are given the
/// number that the same formula yields, which lies above every finite one.
pub open spec fn units(mag: int) -> int {
    let e = mag / (HIDDEN_BIT as int);
    let f = mag % (HIDDEN_BIT as int);
    if e == 0 {
        f
    } else {
        (HIDDEN_BIT + f) * pow2((e - 1) as nat)
    }
}

/// The number of units that one is worth: two to the 1074th.
pub open spec fn unit_scale() -> int {
    pow2(1074) as int
}

impl Real {
    /// The number denoted, in units of two to the minus 1074, with its sign.
    pub open spec fn scaled(self) -> int {
        if self.bits >= SIGN_BIT {
            -units(magnitude(self.bits))
        } else {
            units(magnitude(self.bits))
        }
    }

    pub open spec fn is_nan(self) -> bool {
        magnitude(self.bits) > INFINITY_BITS
    }

    pub open spec fn is_negative(self) -> bool {
        self.bits >= SIGN_BIT
    }

    pub fn from_bits(bits: u64) -> (r: Real)
        ensures
            r.bits == bits,
    {
        Real { bits }
    }

    pub fn to_bits(self) -> (r: u64)
        ensures
            r == self.bits,
    {
        self.bits
    }

    /// Whether the pattern is not a number.
    pub fn nan(self) -> (r: bool)
        ensures
            r == self.is_nan(),
    {
        let mag: u64 = if self.bits >= SIGN_BIT {
            self.bits - SIGN_BIT
        } else {
            self.bits
        };
        mag > INFINITY_BITS
    }

    /// The number of opposite sign.
    pub fn negate(self) -> (r: Real)
        ensures
            r.scaled() == -self.scaled(),
            magnitude(r.bits) == magnitude(self.bits),
            r.is_negative() == !self.is_negative(),
    {
        if self.bits >= SIGN_BIT {
            Real { bits: self.bits - SIGN_BIT }
        } else {
            Real { bits: self.bits + SIGN_BIT }
        }
    }

    /// Whether `self` denotes a smaller number than `other`.
    pub fn less_than(self, other: Real) -> (r: bool)
        ensures
            r == (self.scaled() < other.scaled()),
    {
        let a: i128 = signed_magnitude(self.bits);
        let b: i128 = signed_magnitude(other.bits);
        proof {
            lemma_units_ordered(magnitude(self.bits), magnitude(other.bits));
            lemma_units_ordered(magnitude(other.bits), magnitude(self.bits));
            lemma_units_ordered(0, magnitude(self.bits));
            lemma_units_ordered(0, magnitude(other.bits));
        }
        a < b
    }
}

/// The magnitude with the sign of the pattern.
fn signed_magnitude(bits: u64) -> (r: i128)
    ensures
        r == if bits >= SIGN_BIT {
            -magnitude(bits)
        } else {
            magnitude(bits)
        },
{
    if bits >= SIGN_BIT {
        -((bits - SIGN_BIT) as i128)
    } else {
        bits as i128
    }
}

/// A larger magnitude denotes a larger number, and the magnitude zero
/// denotes zero.
pub proof fn lemma_units_ordered(a: int, b: int)
    requires
        0 <= a,
        0 <= b,
    ensures
        a < b ==> units(a) < units(b),
        a == b ==> units(a) == units(b),
        units(0) == 0,
        units(a) >= 0,
{
    let h = HIDDEN_BIT as int;
    let ea = a / h;
    let fa = a % h;
    let eb = b / h;
    let fb = b % h;
    if ea > 0 {
        lemma_pow2_pos((ea - 1) as nat);
        assert((h + fa) * pow2((ea - 1) as nat) >= 0) by (nonlinear_arith)
            requires
                h + fa >= 0,
                pow2((ea - 1) as nat) > 0,
        ;
    }
    if a < b {
        if ea == eb {
            if ea > 0 {
                let p = pow2((ea - 1) as nat) as int;
                assert((h + fa) * p < (h + fb) * p) by (nonlinear_arith)
                    requires
                        fa < fb,
                        p > 0,
                ;
            }
        } else {
            assert(ea < eb);
            let q = pow2((eb - 1) as nat) as int;
            lemma_pow2_pos((eb - 1) as nat);
            assert(h * q <= (h + fb) * q) by (nonlinear_arith)
                requires
                    fb >= 0,
                    q > 0,
            ;
            if ea == 0 {
                assert(h * 1 <= h * q) by (nonlinear_arith)
                    requires
                        q >= 1,
                        h > 0,
                ;
            } else {
                let p = pow2((ea - 1) as nat) as int;
                lemma_pow2_pos((ea - 1) as nat);
                lemma_pow2_unfold(ea as nat);
                lemma_pow2_monotonic(ea as nat, (eb - 1) as nat);
                let doubled = pow2(ea as nat) as int;
                assert(doubled == 2 * p);
                assert((h + fa) * p < 2 * h * p) by (nonlinear_arith)
                    requires
                        fa < h,
                        p > 0,
                ;
                assert(2 * h * p == h * doubled) by (nonlinear_arith)
                    requires
                        doubled == 2 * p,
                ;
                assert(h * doubled <= h * q) by (nonlinear_arith)
                    requires
                        doubled <= q,
                        h > 0,
                ;
            }
        }
    }
}

/// Powers of two grow with the exponent.
pub proof fn lemma_pow2_monotonic(a: nat, b: nat)
    requires
        a <= b,
    ensures
        pow2(a) <= pow2(b),
        pow2(b) == pow2(a) * pow2((b - a) as nat),
{
    lemma_pow2_adds(a, (b - a) as nat);
    lemma_pow2_pos(a);
    lemma_pow2_pos((b - a) as nat);
    let x = pow2(a) as int;
    let y = pow2((b - a) as nat) as int;
    assert(x <= x * y) by (nonlinear_arith)
        requires
            x > 0,
            y >= 1,
    ;
}


/// Two to the power `k`.
pub(crate) fn power_of_two(k: u64) -> (r: u64)
    requires
        k < 64,
    ensures
        r == pow2(k as nat),
        r >= 1,
{
    let mut r: u64 = 1;
    let mut i: u64 = 0;
    proof {
        lemma2_to64();
    }
    while i < k
        invariant
            i <= k < 64,
            r == pow2(i as nat),
            r >= 1,
        decreases k - i,
    {
        proof {
            lemma_pow2_unfold((i + 1) as nat);
            lemma_pow2_monotonic((i + 1) as nat, 63);
            lemma2_to64_rest();
        }
        r = r * 2;
        i = i + 1;
    }
    r
}

/// How a whole number `n` of ones compares with a magnitude: the sign of
/// `n - m`, where `m` is the number the magnitude denotes.
pub open spec fn magnitude_order(n: int, mag: int) -> int {
    if n * unit_scale() < units(mag) {
        -1
    } else if n * unit_scale() == units(mag) {
        0
    } else {
        1
    }
}

/// The whole part of the number a magnitude denotes.
pub open spec fn whole_part(mag: int) -> int {
    units(mag) / unit_scale()
}

/// The biased exponent from which on a magnitude is at least two to the 64th.
pub const HUGE_EXPONENT: u64 = 1087;

/// The biased exponent of the numbers from one up to two, where a unit of the
/// significand is worth two to the minus 52.
pub const UNIT_EXPONENT: u64 = 1075;

/// Splits a magnitude below two to the 64th into its whole part and whether a
/// fraction is left over.
fn split_magnitude(mag: u64) -> (r: (u128, bool))
    requires
        mag < SIGN_BIT,
        mag / HIDDEN_BIT < HUGE_EXPONENT,
    ensures
        r.0 == whole_part(mag as int),
        r.1 == (units(mag as int) % unit_scale() != 0),
        r.0 <= 0x1_0000_0000_0000_0000,
{
    let e: u64 = mag / HIDDEN_BIT;
    let f: u64 = mag % HIDDEN_BIT;
    let ghost s = unit_scale();
    proof {
        lemma_pow2_pos(1074);
    }
    if e >= UNIT_EXPONENT {
        let k: u64 = e - UNIT_EXPONENT;
        let p: u64 = power_of_two(k);
        proof {
            lemma_pow2_monotonic(k as nat, 11);
            lemma2_to64();
            lemma_pow2_adds(k as nat, 1074);
            assert((HIDDEN_BIT + f) * pow2((e - 1) as nat) == ((HIDDEN_BIT + f) * p) * s)
                by (nonlinear_arith)
                requires
                    pow2((e - 1) as nat) == p * s,
            ;
            assert((HIDDEN_BIT + f) * p <= 0x20_0000_0000_0000 * 2048) by (nonlinear_arith)
                requires
                    f < 0x10_0000_0000_0000,
                    HIDDEN_BIT == 0x10_0000_0000_0000,
                    0 < p <= 2048,
            ;
            lemma_whole_multiple((HIDDEN_BIT + f) * p, s);
        }
        let whole: u128 = (HIDDEN_BIT + f) as u128 * p as u128;
        (whole, false)
    } else {
        let m: u64 = if e == 0 {
            f
        } else {
            HIDDEN_BIT + f
        };
        let shift: u64 = if e == 0 {
            1074
        } else {
            UNIT_EXPONENT - e
        };
        let ghost q = pow2((1074 - shift) as nat) as int;
        let ghost big = pow2(shift as nat) as int;
        proof {
            lemma_pow2_adds((1074 - shift) as nat, shift as nat);
            lemma_pow2_pos((1074 - shift) as nat);
            lemma_pow2_pos(shift as nat);
            lemma2_to64();
            if e == 0 {
                assert(q == 1);
                assert(m * q == m) by (nonlinear_arith)
                    requires
                        q == 1,
                ;
            } else {
                assert((1074 - shift) as nat == (e - 1) as nat);
            }
            assert(mag as int / (HIDDEN_BIT as int) == e);
            assert(mag as int % (HIDDEN_BIT as int) == f);
            assert(units(mag as int) == m * q);
            assert(s == q * big);
            lemma_scaled_division(m as int, big, q);
        }
        if shift >= 64 {
            proof {
                lemma_pow2_monotonic(64, shift as nat);
                assert(m < big);
                vstd::arithmetic::div_mod::lemma_basic_div(m as int, big);
                vstd::arithmetic::div_mod::lemma_small_mod(m as nat, big as nat);
            }
            (0, m != 0)
        } else {
            let p: u64 = power_of_two(shift);
            ((m / p) as u128, m % p != 0)
        }
    }
}

/// A multiple of the scale has that many whole ones and no fraction.
proof fn lemma_whole_multiple(n: int, s: int)
    requires
        s > 0,
        n >= 0,
    ensures
        (n * s) / s == n,
        (n * s) % s == 0,
{
    assert(n * s == s * n) by (nonlinear_arith);
    vstd::arithmetic::div_mod::lemma_div_multiples_vanish(n, s);
    vstd::arithmetic::div_mod::lemma_mod_multiples_basic(n, s);
}

/// Dividing `m * q` by `big * q` is dividing `m` by `big`, and the one leaves
/// a remainder exactly where the other does.
proof fn lemma_scaled_division(m: int, big: int, q: int)
    requires
        m >= 0,
        big > 0,
        q > 0,
    ensures
        (m * q) / (q * big) == m / big,
        ((m * q) % (q * big) != 0) == (m % big != 0),
{
    lemma_div_multiples_vanish_quotient(q, m, big);
    assert(q * m == m * q) by (nonlinear_arith);
    assert(q * big > 0) by (nonlinear_arith)
        requires
            q > 0,
            big > 0,
    ;
    lemma_fundamental_div_mod(m * q, q * big);
    lemma_fundamental_div_mod(m, big);
    let d = m / big;
    let r = m % big;
    assert(m * q == (q * big) * d + r * q) by (nonlinear_arith)
        requires
            m == big * d + r,
    ;
    assert((r * q != 0) == (r != 0)) by (nonlinear_arith)
        requires
            q > 0,
            r >= 0,
    ;
}


/// A magnitude whose biased exponent is at least 1087 denotes at least two to
/// the 64th.
proof fn lemma_huge_magnitude(mag: int)
    requires
        mag / (HIDDEN_BIT as int) >= HUGE_EXPONENT,
    ensures
        units(mag) >= 0x1_0000_0000_0000_0000 * unit_scale(),
{
    let e = mag / (HIDDEN_BIT as int);
    let f = mag % (HIDDEN_BIT as int);
    let s = unit_scale();
    lemma_pow2_monotonic(1086, (e - 1) as nat);
    lemma_pow2_adds(12, 1074);
    lemma2_to64();
    lemma_pow2_pos(1074);
    let p = pow2((e - 1) as nat) as int;
    assert((HIDDEN_BIT + f) * p >= HIDDEN_BIT * (4096 * s)) by (nonlinear_arith)
        requires
            f >= 0,
            p >= 4096 * s,
            s > 0,
            HIDDEN_BIT > 0,
    ;
    assert(HIDDEN_BIT * (4096 * s) == 0x1_0000_0000_0000_0000 * s) by (nonlinear_arith)
        requires
            HIDDEN_BIT == 0x10_0000_0000_0000,
    ;
}

/// The sign of `n - m`, where `m` is the number that the magnitude denotes.
fn compare_magnitude(n: u64, mag: u64) -> (c: i8)
    requires
        mag < SIGN_BIT,
    ensures
        c == magnitude_order(n as int, mag as int),
{
    let ghost s = unit_scale();
    proof {
        lemma_pow2_pos(1074);
    }
    if mag / HIDDEN_BIT >= HUGE_EXPONENT {
        proof {
            lemma_huge_magnitude(mag as int);
            assert(n * s < 0x1_0000_0000_0000_0000 * s) by (nonlinear_arith)
                requires
                    n < 0x1_0000_0000_0000_0000,
                    s > 0,
            ;
        }
        -1
    } else {
        let (whole, fraction) = split_magnitude(mag);
        proof {
            let u = units(mag as int);
            lemma_fundamental_div_mod(u, s);
            lemma_units_ordered(0, mag as int);
            vstd::arithmetic::div_mod::lemma_mod_bound(u, s);
            let w = whole as int;
            let r = u % s;
            assert(u == s * w + r);
            if n < w {
                assert(n * s <= s * w - s) by (nonlinear_arith)
                    requires
                        n + 1 <= w,
                        s > 0,
                ;
            } else if n > w {
                assert(n * s >= s * w + s) by (nonlinear_arith)
                    requires
                        n >= w + 1,
                        s > 0,
                ;
            } else {
                assert(n * s == s * w) by (nonlinear_arith)
                    requires
                        n == w,
                ;
            }
        }
        if (n as u128) < whole {
            -1
        } else if (n as u128) > whole {
            1
        } else if fraction {
            -1
        } else {
            0
        }
    }
}

/// The distance of `i` from zero.
fn unsigned_abs(i: i64) -> (r: u64)
    ensures
        r == if i < 0 {
            -i
        } else {
            i as int
        },
{
    if i < 0 {
        (-(i as i128)) as u64
    } else {
        i as u64
    }
}

impl Real {
    /// How the integer `i` compares with this number: the sign of
    /// `i - self`.
    pub open spec fn integer_order(self, i: i64) -> int {
        if i * unit_scale() < self.scaled() {
            -1
        } else if i * unit_scale() == self.scaled() {
            0
        } else {
            1
        }
    }

    /// Compares the integer `i` with this number exactly, without rounding
    /// either of them: returns the sign of `i - self`.
    pub fn compare_integer(self, i: i64) -> (c: i8)
        ensures
            c == self.integer_order(i),
    {
        let negative: bool = self.bits >= SIGN_BIT;
        let mag: u64 = if negative {
            self.bits - SIGN_BIT
        } else {
            self.bits
        };
        let ghost s = unit_scale();
        proof {
            lemma_pow2_pos(1074);
            lemma_units_ordered(0, mag as int);
            if mag > 0 {
                lemma_units_ordered(0, mag as int);
            }
        }
        if i >= 0 {
            if negative {
                proof {
                    assert(i * s >= 0) by (nonlinear_arith)
                        requires
                            i >= 0,
                            s > 0,
                    ;
                    assert(i > 0 ==> i * s > 0) by (nonlinear_arith)
                        requires
                            s > 0,
                    ;
                }
                if i == 0 && mag == 0 {
                    0
                } else {
                    1
                }
            } else {
                compare_magnitude(i as u64, mag)
            }
        } else {
            if negative {
                let n: u64 = unsigned_abs(i);
                let c: i8 = compare_magnitude(n, mag);
                proof {
                    assert(i * s == -(n * s)) by (nonlinear_arith)
                        requires
                            i == -n,
                    ;
                }
                -c
            } else {
                proof {
                    assert(i * s < 0) by (nonlinear_arith)
                        requires
                            i < 0,
                            s > 0,
                    ;
                }
                -1
            }
        }
    }

    /// The integer nearest to this number in the direction of zero, held to
    /// the range of `i64`; zero for a NaN.
    pub open spec fn truncated(self) -> int {
        let whole = whole_part(magnitude(self.bits));
        if self.is_nan() {
            0
        } else if self.is_negative() {
            if whole >= 0x8000_0000_0000_0000 {
                i64::MIN as int
            } else {
                -whole
            }
        } else {
            if whole > i64::MAX {
                i64::MAX as int
            } else {
                whole
            }
        }
    }

    /// Drops the fraction of this number and holds the result to the range of
    /// `i64`.
    pub fn to_integer(self) -> (r: i64)
        ensures
            r == self.truncated(),
    {
        let negative: bool = self.bits >= SIGN_BIT;
        let mag: u64 = if negative {
            self.bits - SIGN_BIT
        } else {
            self.bits
        };
        if mag > INFINITY_BITS {
            return 0;
        }
        if mag / HIDDEN_BIT >= HUGE_EXPONENT {
            proof {
                lemma_huge_magnitude(mag as int);
                lemma_pow2_pos(1074);
                vstd::arithmetic::div_mod::lemma_div_is_ordered(
                    0x1_0000_0000_0000_0000 * unit_scale(),
                    units(mag as int),
                    unit_scale(),
                );
                lemma_whole_multiple(0x1_0000_0000_0000_0000, unit_scale());
            }
            return if negative {
                i64::MIN
            } else {
                i64::MAX
            };
        }
        let (whole, _) = split_magnitude(mag);
        if negative {
            if whole >= 0x8000_0000_0000_0000 {
                i64::MIN
            } else {
                -(whole as i64)
            }
        } else {
            if whole > 0x7FFF_FFFF_FFFF_FFFF {
                i64::MAX
            } else {
                whole as i64
            }
        }
    }
}


/// Two to the 54th: a number below it has a 53-bit significand and one bit
/// more, which says whether the rest amounts to a half.
pub const ROUNDING_LIMIT: u64 = 0x40_0000_0000_0000;

/// Halves `x` until it is below two to the 54th. The result holds what is
/// left of `x`, whether a one was dropped on the way (or `inexact` held to
/// begin with), and `halvings` plus the number of times `x` was halved.
pub open spec fn reduced(x: nat, inexact: bool, halvings: nat) -> (nat, bool, nat)
    decreases x,
{
    if x < ROUNDING_LIMIT {
        (x, inexact, halvings)
    } else {
        reduced(x / 2, inexact || x % 2 == 1, halvings + 1)
    }
}

/// The magnitude of the binary64 nearest to a number that is given as `x`
/// half units, where `x` was rounded down and `inexact` says whether that
/// changed it. A number half way between two neighbours goes to the one with
/// the even significand, and a number beyond the largest finite one goes to
/// infinity.
pub open spec fn rounded_magnitude(x: nat, inexact: bool) -> int {
    let (y, sticky, t) = reduced(x, inexact, 0);
    let m = y / 2;
    let up = y % 2 == 1 && (sticky || m % 2 == 1);
    let bits = t * HIDDEN_BIT + m + if up {
        1int
    } else {
        0int
    };
    if bits >= INFINITY_BITS {
        INFINITY_BITS as int
    } else {
        bits
    }
}

/// Halving only ever adds to the count of halvings.
proof fn lemma_reduced_counts(x: nat, inexact: bool, halvings: nat)
    ensures
        reduced(x, inexact, halvings).2 >= halvings,
        x >= ROUNDING_LIMIT ==> reduced(x, inexact, halvings).2 > halvings,
    decreases x,
{
    if x >= ROUNDING_LIMIT {
        lemma_reduced_counts(x / 2, inexact || x % 2 == 1, halvings + 1);
    }
}

/// The magnitude nearest to `x` half units; see [`rounded_magnitude`].
pub fn round_natural(x: Natural, inexact: bool) -> (mag: u64)
    ensures
        mag == rounded_magnitude(x.value(), inexact),
        mag <= INFINITY_BITS,
{
    let ghost start = x.value();
    let mut cur: Natural = x;
    let mut sticky: bool = inexact;
    let mut t: u64 = 0;
    let mut y: u64 = 0;
    loop
        invariant_except_break
            t <= 2046,
            start == x.value(),
            reduced(cur.value(), sticky, t as nat) == reduced(start, inexact, 0),
        ensures
            t <= 2046,
            y < ROUNDING_LIMIT,
            reduced(start, inexact, 0) == (y as nat, sticky, t as nat),
        decreases cur.value(),
    {
        match cur.small() {
            Some(v) => {
                if v < ROUNDING_LIMIT {
                    y = v;
                    break ;
                }
            },
            None => {},
        }
        if t >= 2046 {
            proof {
                lemma_reduced_counts(cur.value(), sticky, t as nat);
                let fin = reduced(start, inexact, 0);
                assert(cur.value() >= ROUNDING_LIMIT);
                assert(fin.2 >= 2047);
                assert(fin.2 * HIDDEN_BIT >= 2047 * HIDDEN_BIT) by (nonlinear_arith)
                    requires
                        fin.2 >= 2047,
                ;
                assert(2047 * HIDDEN_BIT == INFINITY_BITS);
                assert(fin.0 / 2 >= 0);
                assert(rounded_magnitude(start, inexact) == INFINITY_BITS);
            }
            return INFINITY_BITS;
        }
        let rem: u32 = cur.divide(2);
        sticky = sticky || rem == 1;
        t = t + 1;
    }
    let m: u64 = y / 2;
    let up: bool = y % 2 == 1 && (sticky || m % 2 == 1);
    assert(t * HIDDEN_BIT <= 2046 * HIDDEN_BIT) by (nonlinear_arith)
        requires
            t <= 2046,
    ;
    let bits: u64 = t * HIDDEN_BIT + m + if up {
        1
    } else {
        0
    };
    if bits >= INFINITY_BITS {
        INFINITY_BITS
    } else {
        bits
    }
}

impl Real {
    /// The number nearest to an integer. It is the integer itself wherever
    /// the integer has at most 53 significant bits.
    pub open spec fn nearest_to_integer(i: i64) -> Real {
        let n: nat = if i < 0 {
            (-i) as nat
        } else {
            i as nat
        };
        let mag = rounded_magnitude(n * pow2(1075), false);
        Real {
            bits: if i < 0 {
                (mag + SIGN_BIT) as u64
            } else {
                mag as u64
            },
        }
    }

    /// The number nearest to the integer `i`.
    pub fn from_integer(i: i64) -> (r: Real)
        ensures
            r == Self::nearest_to_integer(i),
    {
        let n: u64 = unsigned_abs(i);
        let mut x: Natural = Natural::from_u64(n);
        let mut k: u64 = 0;
        proof {
            lemma2_to64();
            assert(n * pow2(0) == n) by (nonlinear_arith)
                requires
                    pow2(0) == 1,
            ;
        }
        while k < 43
            invariant
                k <= 43,
                x.value() == n * pow2((25 * k) as nat),
            decreases 43 - k,
        {
            proof {
                lemma2_to64();
                lemma_pow2_adds((25 * k) as nat, 25);
                let a = pow2((25 * k) as nat) as int;
                let b = pow2(25) as int;
                assert((n * a) * b == n * (a * b)) by (nonlinear_arith);
            }
            x.times_plus(0x200_0000, 0);
            k = k + 1;
        }
        let mag: u64 = round_natural(x, false);
        if i < 0 {
            Real { bits: mag + SIGN_BIT }
        } else {
            Real { bits: mag }
        }
    }
}


/// What halving leaves of `x`, and how often `x` was halved.
pub open spec fn reduced_significand(x: nat, inexact: bool) -> nat {
    reduced(x, inexact, 0).0
}

/// How often `x` is halved until it is below two to the 54th.
pub open spec fn reduced_exponent(x: nat, inexact: bool) -> nat {
    reduced(x, inexact, 0).2
}

/// Halving `k` times is dividing by two to the `k`: what is left of `x` is
/// its quotient, something was dropped exactly where the remainder is not
/// zero, and unless `x` was small to begin with, what is left has 54 bits.
proof fn lemma_reduced_is_quotient(x: nat, inexact: bool, halvings: nat)
    ensures
        ({
            let (y, sticky, t) = reduced(x, inexact, halvings);
            let k = (t - halvings) as nat;
            &&& t >= halvings
            &&& y == x / pow2(k)
            &&& sticky == (inexact || x % pow2(k) != 0)
            &&& y < ROUNDING_LIMIT
            &&& k > 0 ==> y >= ROUNDING_LIMIT / 2
        }),
    decreases x,
{
    lemma2_to64();
    if x >= ROUNDING_LIMIT {
        let inner = inexact || x % 2 == 1;
        lemma_reduced_is_quotient(x / 2, inner, halvings + 1);
        let (y, sticky, t) = reduced(x / 2, inner, halvings + 1);
        let j = (t - (halvings + 1)) as nat;
        let k = (t - halvings) as nat;
        lemma_pow2_unfold(k);
        lemma_pow2_pos(j);
        let p = pow2(j) as int;
        assert(pow2(k) == 2 * p);
        vstd::arithmetic::div_mod::lemma_div_denominator(x as int, 2, p);
        vstd::arithmetic::div_mod::lemma_breakdown(x as int, 2, p);
        assert((x as int) % (2 * p) == 2 * (((x as int) / 2) % p) + (x as int) % 2);
        if j == 0 {
            assert(y == x / 2);
        }
    } else {
        assert(x / 1 == x);
        assert(x % 1 == 0);
    }
}

/// The number that the bits `t * 2^52 + m` denote is `m` times two to the
/// `t` units, where `m` is a significand of 53 bits or, for `t` zero, of
/// fewer.
proof fn lemma_units_of_rounded(t: nat, m: int)
    requires
        0 <= m <= 2 * HIDDEN_BIT,
        t > 0 ==> m >= HIDDEN_BIT,
    ensures
        units(t * HIDDEN_BIT + m) == m * pow2(t),
{
    let h = HIDDEN_BIT as int;
    let bits = t * h + m;
    lemma2_to64();
    lemma_pow2_pos(t);
    if m == 2 * h {
        assert(bits == (t + 2) * h);
        vstd::arithmetic::div_mod::lemma_fundamental_div_mod_converse(bits, h, (t + 2) as int, 0);
        lemma_pow2_unfold(t + 1);
        assert((h + 0) * pow2(t + 1) == (2 * h) * pow2(t)) by (nonlinear_arith)
            requires
                pow2(t + 1) == 2 * pow2(t),
        ;
    } else if m >= h {
        assert(bits == (t + 1) * h + (m - h));
        vstd::arithmetic::div_mod::lemma_fundamental_div_mod_converse(
            bits,
            h,
            (t + 1) as int,
            m - h,
        );
    } else {
        assert(t == 0);
        vstd::arithmetic::div_mod::lemma_fundamental_div_mod_converse(bits, h, 0, m);
        assert(m * pow2(0) == m) by (nonlinear_arith)
            requires
                pow2(0) == 1,
        ;
    }
}

/// Rounding goes to the nearest. Let a number be given as `x` half units,
/// rounded down, `inexact` saying whether that changed it, and let its
/// rounded magnitude be finite. That magnitude denotes a whole multiple of
/// the step at the size of the number, two to the `t` units, and lies no
/// further than half a step from the number; where it lies exactly half a
/// step away, its significand is even.
pub proof fn lemma_rounding_is_nearest(x: nat, inexact: bool)
    requires
        rounded_magnitude(x, inexact) < INFINITY_BITS,
    ensures
        ({
            let t = reduced_exponent(x, inexact);
            let step = pow2(t) as int;
            let u = units(rounded_magnitude(x, inexact));
            let slack: int = if inexact {
                1
            } else {
                0
            };
            &&& u % step == 0
            &&& -step + slack <= 2 * u - x <= step
            &&& !inexact && (2 * u - x == step || 2 * u - x == -step) ==> (u / step) % 2 == 0
        }),
{
    let (y, sticky, t) = reduced(x, inexact, 0);
    lemma_reduced_is_quotient(x, inexact, 0);
    lemma2_to64();
    lemma_pow2_pos(t);
    let step = pow2(t) as int;
    let r = (x as int) % step;
    vstd::arithmetic::div_mod::lemma_fundamental_div_mod(x as int, step);
    vstd::arithmetic::div_mod::lemma_mod_bound(x as int, step);
    let m0 = (y / 2) as int;
    let half = y % 2 == 1;
    let up = half && (sticky || m0 % 2 == 1);
    let m = m0 + if up {
        1int
    } else {
        0int
    };
    assert(rounded_magnitude(x, inexact) == t * HIDDEN_BIT + m);
    lemma_units_of_rounded(t, m);
    let u = m * step;
    vstd::arithmetic::div_mod::lemma_mod_multiples_basic(m, step);
    vstd::arithmetic::div_mod::lemma_div_multiples_vanish(m, step);
    assert(u == step * m) by (nonlinear_arith)
        requires
            u == m * step,
    ;
    assert(x == step * (2 * m0 + if half {
        1int
    } else {
        0int
    }) + r) by (nonlinear_arith)
        requires
            x == step * (y as int) + r,
            y == 2 * m0 + if half {
                1int
            } else {
                0int
            },
    ;
    assert(2 * u - x == step * (2 * m - 2 * m0 - if half {
        1int
    } else {
        0int
    }) - r) by (nonlinear_arith)
        requires
            u == step * m,
            x == step * (2 * m0 + if half {
                1int
            } else {
                0int
            }) + r,
    ;
    assert(sticky == (inexact || r != 0));
    assert(u == units(rounded_magnitude(x, inexact)));
    assert(u % step == 0);
    assert(u / step == m);
    if half {
        if up {
            assert(2 * u - x == step - r) by (nonlinear_arith)
                requires
                    2 * u - x == step * (2 * m - 2 * m0 - 1) - r,
                    m == m0 + 1,
            ;
        } else {
            assert(2 * u - x == -step - r) by (nonlinear_arith)
                requires
                    2 * u - x == step * (2 * m - 2 * m0 - 1) - r,
                    m == m0,
            ;
            assert(r == 0);
            assert(m % 2 == 0);
        }
    } else {
        assert(2 * u - x == -r) by (nonlinear_arith)
            requires
                2 * u - x == step * (2 * m - 2 * m0 - 0) - r,
                m == m0,
        ;
    }
}

} // verus!
