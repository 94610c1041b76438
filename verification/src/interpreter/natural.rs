use vstd::arithmetic::div_mod::lemma_fundamental_div_mod_converse;
use vstd::prelude::*;

verus! {

/// The base of the positional notation: two to the 32nd.
pub const BASE: u64 = 0x1_0000_0000;

/// The number written by the digits `s` in base two to the 32nd, the least
/// significant digit first.
pub open spec fn limbs_value(s: Seq<u32>) -> nat
    decreases s.len(),
{
    if s.len() == 0 {
        0
    } else {
        s[0] as nat + (BASE as nat) * limbs_value(s.skip(1))
    }
}

/// The weight of the digit at place `n`: the base to the power `n`.
pub open spec fn weight(n: nat) -> nat
    decreases n,
{
    if n == 0 {
        1
    } else {
        (BASE as nat) * weight((n - 1) as nat)
    }
}

/// Appending a digit adds that digit at the weight of its place.
pub proof fn lemma_value_push(s: Seq<u32>, x: u32)
    ensures
        limbs_value(s.push(x)) == limbs_value(s) + x * weight(s.len()),
    decreases s.len(),
{
    if s.len() == 0 {
        reveal_with_fuel(limbs_value, 2);
        assert(s.push(x).skip(1) =~= Seq::<u32>::empty());
        assert(s.push(x)[0] == x);
        assert(x * 1 == x) by (nonlinear_arith);
    } else {
        assert(s.push(x).skip(1) =~= s.skip(1).push(x));
        lemma_value_push(s.skip(1), x);
        let w = weight((s.len() - 1) as nat) as int;
        let v = limbs_value(s.skip(1)) as int;
        assert(BASE * (v + x * w) == BASE * v + x * (BASE * w)) by (nonlinear_arith);
    }
}

/// A number whose most significant digit is not zero is at least the weight
/// of that digit's place.
pub proof fn lemma_value_lower_bound(s: Seq<u32>)
    requires
        s.len() > 0,
        s.last() != 0,
    ensures
        limbs_value(s) >= weight((s.len() - 1) as nat),
{
    assert(s =~= s.drop_last().push(s.last()));
    lemma_value_push(s.drop_last(), s.last());
    let w = weight((s.len() - 1) as nat) as int;
    assert(s.last() * w >= w) by (nonlinear_arith)
        requires
            s.last() >= 1,
            w >= 0,
    ;
}

/// A natural number of any size.
pub struct Natural {
    limbs: Vec<u32>,
}

impl Natural {
    /// The number held.
    pub closed spec fn value(&self) -> nat {
        limbs_value(self.limbs@)
    }

    /// The representation has no leading zero digit.
    #[verifier::type_invariant]
    closed spec fn wf(&self) -> bool {
        self.limbs@.len() > 0 ==> self.limbs@.last() != 0
    }

    pub fn from_u64(v: u64) -> (r: Natural)
        ensures
            r.value() == v,
    {
        let mut limbs: Vec<u32> = Vec::new();
        let low: u32 = (v % BASE) as u32;
        let high: u32 = (v / BASE) as u32;
        proof {
            reveal_with_fuel(limbs_value, 3);
            assert(limbs@ =~= Seq::<u32>::empty());
            assert(v == low + BASE * high);
        }
        if high != 0 {
            limbs.push(low);
            limbs.push(high);
            assert(limbs@.skip(1) =~= seq![high]);
            assert(limbs@.skip(1).skip(1) =~= Seq::<u32>::empty());
        } else if low != 0 {
            limbs.push(low);
            assert(limbs@.skip(1) =~= Seq::<u32>::empty());
        }
        Natural { limbs }
    }

    /// Whether the number is zero.
    pub fn is_zero(&self) -> (r: bool)
        ensures
            r == (self.value() == 0),
    {
        proof {
            use_type_invariant(self);
            if self.limbs@.len() > 0 {
                lemma_value_lower_bound(self.limbs@);
                lemma_weight_positive((self.limbs@.len() - 1) as nat);
            }
        }
        self.limbs.len() == 0
    }

    /// The number as a `u64`, where it is below two to the 64th.
    pub fn small(&self) -> (r: Option<u64>)
        ensures
            r == if self.value() <= u64::MAX {
                Some(self.value() as u64)
            } else {
                None
            },
    {
        let n: usize = self.limbs.len();
        proof {
            use_type_invariant(self);
            reveal_with_fuel(limbs_value, 3);
            reveal_with_fuel(weight, 3);
        }
        if n == 0 {
            Some(0)
        } else if n == 1 {
            assert(self.limbs@.skip(1) =~= Seq::<u32>::empty());
            Some(self.limbs[0] as u64)
        } else if n == 2 {
            assert(self.limbs@.skip(1).skip(1) =~= Seq::<u32>::empty());
            Some(self.limbs[0] as u64 + BASE * (self.limbs[1] as u64))
        } else {
            proof {
                lemma_value_lower_bound(self.limbs@);
                lemma_weight_increases(2, (n - 1) as nat);
            }
            None
        }
    }

    /// Replaces the number `v` by `v * m + a`.
    pub fn times_plus(&mut self, m: u32, a: u32)
        ensures
            final(self).value() == old(self).value() * m + a,
    {
        proof {
            use_type_invariant(&*self);
        }
        let n: usize = self.limbs.len();
        let mut out: Vec<u32> = Vec::new();
        let mut carry: u64 = a as u64;
        let mut i: usize = 0;
        assert(self.limbs@.take(0) =~= Seq::<u32>::empty());
        assert(out@ =~= Seq::<u32>::empty());
        assert(limbs_value(Seq::<u32>::empty()) == 0);
        assert(carry * weight(0) == a) by (nonlinear_arith)
            requires
                carry == a,
                weight(0) == 1,
        ;
        while i < n
            invariant
                i <= n,
                n == self.limbs@.len(),
                out@.len() == i,
                carry < BASE,
                limbs_value(out@) + carry * weight(i as nat) == limbs_value(self.limbs@.take(i as int))
                    * m + a,
                *self == *old(self),
            decreases n - i,
        {
            let limb: u64 = self.limbs[i] as u64;
            assert(limb * m + carry <= 0xFFFF_FFFF * 0xFFFF_FFFF + 0xFFFF_FFFF) by (nonlinear_arith)
                requires
                    limb <= 0xFFFF_FFFF,
                    m <= 0xFFFF_FFFF,
                    carry <= 0xFFFF_FFFF,
            ;
            let t: u64 = limb * (m as u64) + carry;
            let low: u32 = (t % BASE) as u32;
            let next: u64 = t / BASE;
            proof {
                let w = weight(i as nat) as int;
                let before = self.limbs@.take(i as int);
                assert(self.limbs@.take(i + 1) =~= before.push(self.limbs@[i as int]));
                lemma_value_push(before, self.limbs@[i as int]);
                lemma_value_push(out@, low);
                assert(weight((i + 1) as nat) == BASE * w);
                let vo = limbs_value(out@) as int;
                let vb = limbs_value(before) as int;
                assert(vo + low * w + next * (BASE * w) == (vb + limb * w) * m + a)
                    by (nonlinear_arith)
                    requires
                        vo + carry * w == vb * m + a,
                        limb * m + carry == low + next * BASE,
                ;
            }
            out.push(low);
            carry = next;
            i = i + 1;
        }
        assert(self.limbs@.take(n as int) =~= self.limbs@);
        if carry != 0 {
            proof {
                lemma_value_push(out@, carry as u32);
            }
            out.push(carry as u32);
        } else {
            proof {
                if n > 0 {
                    // The product of a number with a nonzero leading digit by
                    // zero is zero; by a positive `m` it keeps a nonzero
                    // leading digit.
                    lemma_value_lower_bound(self.limbs@);
                    lemma_weight_positive((n - 1) as nat);
                }
            }
            trim(&mut out);
        }
        self.limbs = out;
    }

    /// Replaces the number `v` by `v / d` and returns `v % d`.
    pub fn divide(&mut self, d: u32) -> (rem: u32)
        requires
            d > 0,
        ensures
            final(self).value() == old(self).value() / (d as nat),
            rem == old(self).value() % (d as nat),
    {
        proof {
            use_type_invariant(&*self);
        }
        let n: usize = self.limbs.len();
        let mut rem: u64 = 0;
        let mut i: usize = n;
        let ghost before = self.limbs@;
        let mut out: Vec<u32> = Vec::new();
        out.extend_from_slice(self.limbs.as_slice());
        assert(out@ =~= before);
        assert(before.skip(n as int) =~= Seq::<u32>::empty());
        assert(limbs_value(Seq::<u32>::empty()) == 0);
        assert(d * limbs_value(Seq::<u32>::empty()) == 0) by (nonlinear_arith)
            requires
                limbs_value(Seq::<u32>::empty()) == 0,
        ;
        while i > 0
            invariant
                i <= n,
                n == out@.len(),
                n == before.len(),
                rem < d,
                d > 0,
                limbs_value(before.skip(i as int)) == d * limbs_value(out@.skip(i as int)) + rem,
                forall|j: int| 0 <= j < i ==> out@[j] == before[j],
            decreases i,
        {
            i = i - 1;
            let t: u64 = rem * BASE + out[i] as u64;
            assert(t < d * BASE) by (nonlinear_arith)
                requires
                    t == rem * BASE + out@[i as int],
                    rem + 1 <= d,
                    out@[i as int] < BASE,
            ;
            let q: u64 = t / (d as u64);
            let r: u64 = t % (d as u64);
            proof {
                vstd::arithmetic::div_mod::lemma_fundamental_div_mod(t as int, d as int);
            }
            assert(q < BASE) by (nonlinear_arith)
                requires
                    t < d * BASE,
                    t == d * q + r,
                    r >= 0,
                    d > 0,
            ;
            let ghost above = limbs_value(out@.skip(i + 1)) as int;
            let ghost previous = out@;
            out[i] = q as u32;
            proof {
                assert(before.skip(i as int).skip(1) =~= before.skip(i + 1));
                assert(out@.skip(i as int).skip(1) =~= previous.skip(i + 1));
                assert(out@.skip(i + 1) =~= previous.skip(i + 1));
                let vb = limbs_value(before.skip(i + 1)) as int;
                assert(before[i as int] + BASE * vb == d * (q + BASE * above) + r)
                    by (nonlinear_arith)
                    requires
                        vb == d * above + rem,
                        rem * BASE + before[i as int] == d * q + r,
                ;
            }
            rem = r;
        }
        assert(before.skip(0) =~= before);
        assert(out@.skip(0) =~= out@);
        proof {
            let q = limbs_value(out@) as int;
            assert(q * d == d * q) by (nonlinear_arith);
            lemma_fundamental_div_mod_converse(
                limbs_value(before) as int,
                d as int,
                limbs_value(out@) as int,
                rem as int,
            );
        }
        trim(&mut out);
        self.limbs = out;
        rem as u32
    }
}

/// Removes the leading zero digits.
fn trim(limbs: &mut Vec<u32>)
    ensures
        limbs_value(final(limbs)@) == limbs_value(old(limbs)@),
        final(limbs)@.len() > 0 ==> final(limbs)@.last() != 0,
{
    while limbs.len() > 0 && limbs[limbs.len() - 1] == 0
        invariant
            limbs_value(limbs@) == limbs_value(old(limbs)@),
        decreases limbs@.len(),
    {
        proof {
            assert(limbs@ =~= limbs@.drop_last().push(0u32));
            lemma_value_push(limbs@.drop_last(), 0u32);
        }
        limbs.pop();
    }
}

pub proof fn lemma_weight_positive(n: nat)
    ensures
        weight(n) >= 1,
    decreases n,
{
    if n > 0 {
        lemma_weight_positive((n - 1) as nat);
        let w = weight((n - 1) as nat) as int;
        assert(BASE * w >= 1) by (nonlinear_arith)
            requires
                w >= 1,
                BASE == 0x1_0000_0000,
        ;
    }
}

pub proof fn lemma_weight_increases(a: nat, b: nat)
    requires
        a <= b,
    ensures
        weight(a) <= weight(b),
    decreases b,
{
    if a < b {
        lemma_weight_increases(a, (b - 1) as nat);
        lemma_weight_positive((b - 1) as nat);
        let w = weight((b - 1) as nat) as int;
        assert(BASE * w >= w) by (nonlinear_arith)
            requires
                w >= 1,
                BASE == 0x1_0000_0000,
        ;
    }
}

} // verus!
