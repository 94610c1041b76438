use vstd::arithmetic::power2::{
    lemma2_to64, lemma2_to64_rest, lemma_pow2_adds, lemma_pow2_pos, lemma_pow2_unfold, pow2,
};
use vstd::prelude::*;
use vstd::slice::slice_subrange;

use crate::interpreter::binary64::{
    lemma_pow2_monotonic, lemma_units_ordered, magnitude, round_natural, rounded_magnitude, units,
    Real, HIDDEN_BIT, INFINITY_BITS, SIGN_BIT,
};
use crate::interpreter::natural::Natural;

verus! {

/// `base` to the power `n`.
pub open spec fn power(base: nat, n: nat) -> nat
    decreases n,
{
    if n == 0 {
        1
    } else {
        base * power(base, (n - 1) as nat)
    }
}

/// The decimal digits of `n` as ASCII characters, the most significant
/// first; the single digit `0` for zero.
pub open spec fn decimal_digits(n: nat) -> Seq<u8>
    decreases n,
{
    if n < 10 {
        seq![(48 + n) as u8]
    } else {
        decimal_digits(n / 10).push((48 + n % 10) as u8)
    }
}

/// The decimal text of an integer: its digits, after a minus sign where it is
/// negative.
pub open spec fn integer_text(i: i64) -> Seq<u8> {
    if i < 0 {
        seq![45u8] + decimal_digits((-i) as nat)
    } else {
        decimal_digits(i as nat)
    }
}

/// Appends the decimal digits of `n` to `out`.
pub fn push_digits(n: u64, out: &mut Vec<u8>)
    ensures
        final(out)@ == old(out)@ + decimal_digits(n as nat),
    decreases n,
{
    if n >= 10 {
        push_digits(n / 10, out);
    }
    out.push((48 + n % 10) as u8);
    assert(final(out)@ =~= old(out)@ + decimal_digits(n as nat));
}

/// The decimal text of the integer `i`.
pub fn integer_to_text(i: i64) -> (r: Vec<u8>)
    ensures
        r@ == integer_text(i),
{
    let mut out: Vec<u8> = Vec::new();
    if i < 0 {
        out.push(45u8);
        let n: u64 = (-(i as i128)) as u64;
        push_digits(n, &mut out);
        assert(out@ =~= integer_text(i));
    } else {
        push_digits(i as u64, &mut out);
        assert(out@ =~= integer_text(i));
    }
    out
}


/// Ten to the 16th: the least number with seventeen digits.
pub const SIXTEEN_DIGITS: u64 = 10_000_000_000_000_000;

/// Ten to the 15th: the least number with sixteen digits.
pub const FIFTEEN_DIGITS: u64 = 1_000_000_000_000_000;

/// Drops decimal digits from the end of `n` until at most sixteen are left.
/// The result holds what is left, and `drops` plus the number of digits
/// dropped.
pub open spec fn shortened(n: nat, drops: nat) -> (nat, nat)
    decreases n,
{
    if n < SIXTEEN_DIGITS {
        (n, drops)
    } else {
        shortened(n / 10, drops + 1)
    }
}

/// Removes the zeros at the end of `sig`, adding one to the exponent `q` for
/// each, so that `sig` times ten to the `q` stays what it was.
pub open spec fn stripped(sig: nat, q: int) -> (nat, int)
    decreases sig,
{
    if sig > 0 && sig % 10 == 0 {
        stripped(sig / 10, q + 1)
    } else {
        (sig, q)
    }
}

/// A finite magnitude to fifteen significant decimal digits: the pair
/// `(sig, q)` stands for `sig` times ten to the `q`, and `sig` does not end
/// in zero. The magnitude denotes a whole number of units of two to the minus
/// 1074, which is that number times five to the 1074th, divided by ten to the
/// 1074th; the digits of the product are therefore the digits of the
/// magnitude. Beyond sixteen digits the rest is cut off, and the sixteenth
/// rounds the fifteenth, a five upwards.
pub open spec fn significand(mag: int) -> (nat, int) {
    let n = (units(mag) * power(5, 1074)) as nat;
    let (lead, drops) = shortened(n, 0);
    if lead >= FIFTEEN_DIGITS {
        stripped((lead + 5) / 10, drops + 1 - 1074)
    } else {
        stripped(lead, drops - 1074)
    }
}

/// `k` times the digit zero.
pub open spec fn zeros(k: nat) -> Seq<u8> {
    Seq::new(k, |i: int| 48u8)
}

/// The exponent of the scientific notation: the letter `e`, a sign, and at
/// least two digits.
pub open spec fn exponent_text(e: int) -> Seq<u8> {
    let a: nat = if e < 0 {
        (-e) as nat
    } else {
        e as nat
    };
    seq![
        101u8,
        if e < 0 {
            45u8
        } else {
            43u8
        },
    ] + (if a < 10 {
        seq![48u8]
    } else {
        Seq::<u8>::empty()
    }) + decimal_digits(a)
}

/// The text of `sig` times ten to the `q`, for a `sig` that does not end in
/// zero. With `e` the power of ten of the first digit, the number is written
/// out in full where `e` is from -4 to 14, and in scientific notation
/// elsewhere. There is always a point with a digit on either side.
pub open spec fn layout(sig: nat, q: int) -> Seq<u8> {
    let ds = decimal_digits(sig);
    let e = q + ds.len() - 1;
    if sig == 0 {
        seq![48u8, 46u8, 48u8]
    } else if 0 <= e <= 14 {
        if q >= 0 {
            ds + zeros(q as nat) + seq![46u8, 48u8]
        } else {
            ds.take(e + 1) + seq![46u8] + ds.skip(e + 1)
        }
    } else if -4 <= e < 0 {
        seq![48u8, 46u8] + zeros((-e - 1) as nat) + ds
    } else {
        ds.take(1) + seq![46u8] + (if ds.len() > 1 {
            ds.skip(1)
        } else {
            seq![48u8]
        }) + exponent_text(e)
    }
}

impl Real {
    /// The canonical decimal text of the number: fifteen significant digits
    /// at most, `Inf` and `-Inf` for the infinities, and `NaN`.
    pub open spec fn text(self) -> Seq<u8> {
        let mag = magnitude(self.bits);
        if mag > INFINITY_BITS {
            seq![78u8, 97u8, 78u8]
        } else if mag == INFINITY_BITS {
            if self.is_negative() {
                seq![45u8, 73u8, 110u8, 102u8]
            } else {
                seq![73u8, 110u8, 102u8]
            }
        } else {
            let (sig, q) = significand(mag);
            if self.is_negative() && mag != 0 {
                seq![45u8] + layout(sig, q)
            } else {
                layout(sig, q)
            }
        }
    }
}

/// Five to the power `n` is at most eight to the power `n`.
proof fn lemma_power5_bound(n: nat)
    ensures
        1 <= power(5, n) <= pow2(3 * n),
    decreases n,
{
    lemma2_to64();
    if n > 0 {
        lemma_power5_bound((n - 1) as nat);
        lemma_pow2_adds(3, (3 * (n - 1)) as nat);
        let a = power(5, (n - 1) as nat) as int;
        let b = pow2((3 * (n - 1)) as nat) as int;
        assert(5 * a <= 8 * b) by (nonlinear_arith)
            requires
                1 <= a <= b,
        ;
        assert(5 * a >= 1) by (nonlinear_arith)
            requires
                1 <= a,
        ;
    }
}

/// A magnitude denotes less than two to the 2100th units.
proof fn lemma_units_bound(mag: int)
    requires
        0 <= mag < SIGN_BIT,
    ensures
        0 <= units(mag) < pow2(2100),
{
    let e = mag / (HIDDEN_BIT as int);
    let f = mag % (HIDDEN_BIT as int);
    lemma_units_ordered(0, mag);
    lemma2_to64();
    lemma2_to64_rest();
    lemma_pow2_pos(2100);
    if e > 0 {
        assert(e <= 2047);
        lemma_pow2_monotonic((e - 1) as nat, 2046);
        lemma_pow2_pos((e - 1) as nat);
        lemma_pow2_adds(54, 2046);
        let p = pow2((e - 1) as nat) as int;
        let top = pow2(2046) as int;
        assert((HIDDEN_BIT + f) * p < 0x40_0000_0000_0000 * top) by (nonlinear_arith)
            requires
                0 <= f < 0x10_0000_0000_0000,
                HIDDEN_BIT == 0x10_0000_0000_0000,
                0 < p <= top,
        ;
    } else {
        lemma_pow2_monotonic(52, 2100);
    }
}

/// The digits of a finite magnitude; see [`significand`].
pub(crate) fn significant_digits(mag: u64) -> (r: (u64, i64))
    requires
        mag < INFINITY_BITS,
    ensures
        (r.0 as nat, r.1 as int) == significand(mag as int),
        r.0 < FIFTEEN_DIGITS,
        -1074 <= r.1 <= 720,
        r.0 > 0 ==> r.0 % 10 != 0,
{
    let e: u64 = mag / HIDDEN_BIT;
    let f: u64 = mag % HIDDEN_BIT;
    let m: u64 = if e == 0 {
        f
    } else {
        HIDDEN_BIT + f
    };
    let doublings: u64 = if e == 0 {
        0
    } else {
        e - 1
    };
    let mut x: Natural = Natural::from_u64(m);
    let mut i: u64 = 0;
    proof {
        lemma2_to64();
        assert(m * pow2(0) == m) by (nonlinear_arith)
            requires
                pow2(0) == 1,
        ;
    }
    while i < doublings
        invariant
            i <= doublings,
            x.value() == m * pow2(i as nat),
        decreases doublings - i,
    {
        proof {
            lemma_pow2_unfold((i + 1) as nat);
            let a = pow2(i as nat) as int;
            assert((m * a) * 2 == m * (2 * a)) by (nonlinear_arith);
        }
        x.times_plus(2, 0);
        i = i + 1;
    }
    let ghost u = units(mag as int);
    assert(x.value() == u);
    let mut j: u64 = 0;
    proof {
        assert(u * power(5, 0) == u) by (nonlinear_arith)
            requires
                power(5, 0) == 1,
        ;
    }
    while j < 1074
        invariant
            j <= 1074,
            x.value() == u * power(5, j as nat),
        decreases 1074 - j,
    {
        proof {
            let a = power(5, j as nat) as int;
            assert(power(5, (j + 1) as nat) == 5 * a);
            assert((u * a) * 5 == u * (5 * a)) by (nonlinear_arith);
        }
        x.times_plus(5, 0);
        j = j + 1;
    }
    let ghost n = x.value();
    let mut drops: u64 = 0;
    let mut lead: u64 = 0;
    proof {
        lemma_units_bound(mag as int);
        lemma_power5_bound(1074);
        lemma_pow2_adds(2100, 3222);
        lemma2_to64();
        let a = power(5, 1074) as int;
        assert(u * a < pow2(2100) * pow2(3222)) by (nonlinear_arith)
            requires
                0 <= u < pow2(2100),
                1 <= a <= pow2(3222),
        ;
        assert(n * pow2(0) == n) by (nonlinear_arith)
            requires
                pow2(0) == 1,
        ;
    }
    loop
        invariant_except_break
            drops <= 1774,
            x.value() * pow2((3 * drops) as nat) < pow2(5322),
            shortened(x.value(), drops as nat) == shortened(n, 0),
        ensures
            drops <= 1774,
            lead < SIXTEEN_DIGITS,
            shortened(n, 0) == (lead as nat, drops as nat),
        decreases x.value(),
    {
        match x.small() {
            Some(v) => {
                if v < SIXTEEN_DIGITS {
                    lead = v;
                    break ;
                }
            },
            None => {},
        }
        proof {
            let v = x.value() as int;
            let p = pow2((3 * drops) as nat) as int;
            lemma_pow2_pos((3 * drops) as nat);
            lemma_pow2_adds(3, (3 * drops) as nat);
            lemma2_to64();
            if 3 * drops >= 5322 {
                lemma_pow2_monotonic(5322, (3 * drops) as nat);
                assert(v * p >= p) by (nonlinear_arith)
                    requires
                        v >= 1,
                        p >= 0,
                ;
            }
            assert((v / 10) * (8 * p) <= v * p) by (nonlinear_arith)
                requires
                    v >= 0,
                    p > 0,
            ;
        }
        let _ = x.divide(10);
        drops = drops + 1;
    }
    let mut sig: u64 = lead;
    let mut q: i64 = drops as i64 - 1074;
    if lead >= FIFTEEN_DIGITS {
        sig = (lead + 5) / 10;
        q = q + 1;
    }
    let ghost sig0 = sig;
    let ghost q0 = q;
    let ghost k: nat = 0;
    proof {
        assert(sig * power(10, 0) == sig) by (nonlinear_arith)
            requires
                power(10, 0) == 1,
        ;
    }
    while sig > 0 && sig % 10 == 0
        invariant
            sig <= sig0,
            q == q0 + k,
            k <= 15,
            sig * power(10, k) <= sig0,
            sig0 <= FIFTEEN_DIGITS,
            q0 <= 701,
            stripped(sig as nat, q as int) == stripped(sig0 as nat, q0 as int),
        decreases sig,
    {
        proof {
            let a = power(10, k) as int;
            assert(power(10, k + 1) == 10 * a);
            assert((sig / 10) * (10 * a) == sig * a) by (nonlinear_arith)
                requires
                    sig % 10 == 0,
            ;
            if k == 15 {
                assert(power(10, 15) == 1_000_000_000_000_000) by {
                    reveal_with_fuel(power, 16);
                }
                assert(sig * a >= 10 * a) by (nonlinear_arith)
                    requires
                        sig >= 10,
                        a >= 0,
                ;
            }
            k = k + 1;
        }
        sig = sig / 10;
        q = q + 1;
    }
    proof {
        if sig0 == FIFTEEN_DIGITS {
            assert(sig < sig0);
        }
    }
    (sig, q)
}


/// A number has at least one digit, and no more digits than its value plus
/// one.
pub proof fn lemma_digits_len(n: nat)
    ensures
        1 <= decimal_digits(n).len() <= n + 1,
    decreases n,
{
    if n >= 10 {
        lemma_digits_len(n / 10);
    }
}

/// Appends `k` zeros to `out`.
fn push_zeros(out: &mut Vec<u8>, k: usize)
    ensures
        final(out)@ == old(out)@ + zeros(k as nat),
{
    let mut i: usize = 0;
    assert(out@ =~= old(out)@ + zeros(0));
    while i < k
        invariant
            i <= k,
            out@ == old(out)@ + zeros(i as nat),
        decreases k - i,
    {
        out.push(48u8);
        i = i + 1;
        assert(out@ =~= old(out)@ + zeros(i as nat));
    }
}

/// Appends the exponent of the scientific notation to `out`.
fn push_exponent(out: &mut Vec<u8>, e: i64)
    requires
        e > i64::MIN,
    ensures
        final(out)@ == old(out)@ + exponent_text(e as int),
{
    out.push(101u8);
    let a: u64 = if e < 0 {
        out.push(45u8);
        (-e) as u64
    } else {
        out.push(43u8);
        e as u64
    };
    if a < 10 {
        out.push(48u8);
    }
    push_digits(a, out);
    assert(final(out)@ =~= old(out)@ + exponent_text(e as int));
}

/// The text of `sig` times ten to the `q`; see [`layout`].
pub(crate) fn layout_text(sig: u64, q: i64) -> (r: Vec<u8>)
    requires
        sig < FIFTEEN_DIGITS,
        -1074 <= q <= 720,
    ensures
        r@ == layout(sig as nat, q as int),
{
    let mut out: Vec<u8> = Vec::new();
    if sig == 0 {
        out.push(48u8);
        out.push(46u8);
        out.push(48u8);
        assert(out@ =~= layout(sig as nat, q as int));
        return out;
    }
    let mut ds: Vec<u8> = Vec::new();
    push_digits(sig, &mut ds);
    proof {
        lemma_digits_len(sig as nat);
        assert(ds@ =~= decimal_digits(sig as nat));
    }
    let n: usize = ds.len();
    let e: i64 = q + n as i64 - 1;
    if 0 <= e && e <= 14 {
        if q >= 0 {
            out.extend_from_slice(ds.as_slice());
            push_zeros(&mut out, q as usize);
            out.push(46u8);
            out.push(48u8);
            assert(out@ =~= layout(sig as nat, q as int));
        } else {
            let split: usize = (e + 1) as usize;
            out.extend_from_slice(slice_subrange(ds.as_slice(), 0, split));
            out.push(46u8);
            out.extend_from_slice(slice_subrange(ds.as_slice(), split, n));
            assert(out@ =~= layout(sig as nat, q as int));
        }
    } else if -4 <= e && e < 0 {
        out.push(48u8);
        out.push(46u8);
        push_zeros(&mut out, (-e - 1) as usize);
        out.extend_from_slice(ds.as_slice());
        assert(out@ =~= layout(sig as nat, q as int));
    } else {
        out.extend_from_slice(slice_subrange(ds.as_slice(), 0, 1));
        out.push(46u8);
        if n > 1 {
            out.extend_from_slice(slice_subrange(ds.as_slice(), 1, n));
        } else {
            out.push(48u8);
        }
        push_exponent(&mut out, e);
        assert(out@ =~= layout(sig as nat, q as int));
    }
    out
}

impl Real {
    /// The canonical decimal text of the number.
    pub fn to_text(self) -> (r: Vec<u8>)
        ensures
            r@ == self.text(),
    {
        let negative: bool = self.bits >= SIGN_BIT;
        let mag: u64 = if negative {
            self.bits - SIGN_BIT
        } else {
            self.bits
        };
        let mut out: Vec<u8> = Vec::new();
        if mag > INFINITY_BITS {
            out.push(78u8);
            out.push(97u8);
            out.push(78u8);
            assert(out@ =~= self.text());
            out
        } else if mag == INFINITY_BITS {
            if negative {
                out.push(45u8);
            }
            out.push(73u8);
            out.push(110u8);
            out.push(102u8);
            assert(out@ =~= self.text());
            out
        } else {
            let (sig, q) = significant_digits(mag);
            let body: Vec<u8> = layout_text(sig, q);
            if negative && mag != 0 {
                out.push(45u8);
            }
            out.extend_from_slice(body.as_slice());
            assert(out@ =~= self.text());
            out
        }
    }
}


/// The number of decimal digits of `d`; none for zero.
pub open spec fn digit_count(d: nat) -> nat
    decreases d,
{
    if d == 0 {
        0
    } else {
        1 + digit_count(d / 10)
    }
}

/// The exponent of ten above which any number with a nonzero digit is
/// infinite, and so far below which it is zero.
pub const EXPONENT_LIMIT: i128 = 400;

/// The magnitude of the binary64 nearest to `d` times ten to the `p`.
///
/// The number is brought to half units of two to the minus 1074, that is
/// multiplied by two to the 1075th, and rounded once; see
/// [`rounded_magnitude`]. The first three cases cut the work short where the
/// result is known: ten to the 401st is beyond every finite binary64, and a
/// number whose first digit stands 400 places behind the point is below half
/// the least positive one.
pub open spec fn decimal_magnitude(d: nat, p: int) -> int {
    let n = d * pow2(1075);
    if d == 0 {
        0
    } else if p > EXPONENT_LIMIT {
        INFINITY_BITS as int
    } else if p < -EXPONENT_LIMIT - digit_count(d) {
        0
    } else if p >= 0 {
        rounded_magnitude(n * power(10, p as nat), false)
    } else {
        let den = power(10, (-p) as nat);
        rounded_magnitude(n / den, n % den != 0)
    }
}

proof fn lemma_power_positive(base: nat, n: nat)
    requires
        base > 0,
    ensures
        power(base, n) > 0,
    decreases n,
{
    if n > 0 {
        lemma_power_positive(base, (n - 1) as nat);
        let a = power(base, (n - 1) as nat) as int;
        assert(base * a > 0) by (nonlinear_arith)
            requires
                base > 0,
                a > 0,
        ;
    }
}

/// Dividing by `a` and then by ten is dividing by ten times `a`, and leaves
/// a remainder where either step does.
proof fn lemma_divide_in_steps(n: nat, a: nat)
    requires
        a > 0,
    ensures
        (n / a) / 10 == n / (10 * a),
        ((n % (10 * a)) != 0) == ((n % a) != 0 || ((n / a) % 10) != 0),
{
    vstd::arithmetic::div_mod::lemma_div_denominator(n as int, a as int, 10);
    vstd::arithmetic::div_mod::lemma_breakdown(n as int, a as int, 10);
    assert(a * 10 == 10 * a);
    let r = (n % a) as int;
    let k = ((n / a) % 10) as int;
    assert((a * k + r != 0) == (r != 0 || k != 0)) by (nonlinear_arith)
        requires
            a > 0,
            r >= 0,
            k >= 0,
    ;
}

/// The magnitude nearest to `d` times ten to the `p`; see
/// [`decimal_magnitude`].
pub(crate) fn decimal_to_magnitude(d: Natural, count: usize, p: i128) -> (mag: u64)
    requires
        count == digit_count(d.value()),
    ensures
        mag == decimal_magnitude(d.value(), p as int),
        mag <= INFINITY_BITS,
{
    if d.is_zero() {
        return 0;
    }
    if p > EXPONENT_LIMIT {
        return INFINITY_BITS;
    }
    if p < -EXPONENT_LIMIT - count as i128 {
        return 0;
    }
    let ghost d0 = d.value();
    let mut x: Natural = d;
    let mut k: u64 = 0;
    proof {
        lemma2_to64();
        assert(d0 * pow2(0) == d0) by (nonlinear_arith)
            requires
                pow2(0) == 1,
        ;
    }
    while k < 43
        invariant
            k <= 43,
            x.value() == d0 * pow2((25 * k) as nat),
        decreases 43 - k,
    {
        proof {
            lemma2_to64();
            lemma_pow2_adds((25 * k) as nat, 25);
            let a = pow2((25 * k) as nat) as int;
            let b = pow2(25) as int;
            assert((d0 * a) * b == d0 * (a * b)) by (nonlinear_arith);
        }
        x.times_plus(0x200_0000, 0);
        k = k + 1;
    }
    let ghost n = x.value();
    if p >= 0 {
        let mut i: i128 = 0;
        proof {
            assert(n * power(10, 0) == n) by (nonlinear_arith)
                requires
                    power(10, 0) == 1,
            ;
        }
        while i < p
            invariant
                0 <= i <= p <= EXPONENT_LIMIT,
                x.value() == n * power(10, i as nat),
            decreases p - i,
        {
            proof {
                let a = power(10, i as nat) as int;
                assert(power(10, (i + 1) as nat) == 10 * a);
                assert((n * a) * 10 == n * (10 * a)) by (nonlinear_arith);
            }
            x.times_plus(10, 0);
            i = i + 1;
        }
        round_natural(x, false)
    } else {
        let mut i: i128 = 0;
        let mut inexact: bool = false;
        proof {
            assert(power(10, 0) == 1);
        }
        while i < -p
            invariant
                0 <= i <= -p,
                p >= -EXPONENT_LIMIT - usize::MAX,
                x.value() == n / power(10, i as nat),
                inexact == (n % power(10, i as nat) != 0),
            decreases -p - i,
        {
            proof {
                let a = power(10, i as nat);
                lemma_power_positive(10, i as nat);
                assert(power(10, (i + 1) as nat) == 10 * a);
                lemma_divide_in_steps(n, a);
            }
            let rem: u32 = x.divide(10);
            inexact = inexact || rem != 0;
            i = i + 1;
        }
        round_natural(x, inexact)
    }
}

} // verus!
