use vstd::prelude::*;

verus! {

/// Reads a variable-length integer from the beginning of `s`, of which
/// `taken` bytes have been read already and have yielded `acc`. Each of the
/// first eight bytes gives seven bits and says in its top bit whether
/// another byte follows; a ninth byte gives eight bits and is the last. The
/// result is the integer and the number of its bytes, or `None` where `s`
/// ends within the integer.
pub open spec fn varint_from(s: Seq<u8>, acc: int, taken: int) -> Option<(int, int)>
    decreases s.len(),
{
    if s.len() == 0 {
        None
    } else if taken >= 8 {
        Some((acc * 256 + s[0], taken + 1))
    } else if s[0] < 128 {
        Some((acc * 128 + s[0], taken + 1))
    } else {
        varint_from(s.skip(1), acc * 128 + (s[0] - 128), taken + 1)
    }
}

/// The variable-length integer at the beginning of `s` and the number of
/// its bytes; `None` where `s` ends within it.
pub open spec fn varint(s: Seq<u8>) -> Option<(int, int)> {
    varint_from(s, 0, 0)
}

/// The `n` seven-bit groups of `w`, the most significant first, each with
/// the top bit set.
pub open spec fn groups(w: int, n: int) -> Seq<u8>
    decreases n,
{
    if n <= 0 {
        Seq::<u8>::empty()
    } else {
        groups(w / 128, n - 1).push((128 + w % 128) as u8)
    }
}

/// The number of bytes of the shortest variable-length integer that holds
/// `v`.
pub open spec fn varint_len(v: u64) -> int {
    if v < 0x80 {
        1
    } else if v < 0x4000 {
        2
    } else if v < 0x20_0000 {
        3
    } else if v < 0x1000_0000 {
        4
    } else if v < 0x8_0000_0000 {
        5
    } else if v < 0x400_0000_0000 {
        6
    } else if v < 0x2_0000_0000_0000 {
        7
    } else if v < 0x100_0000_0000_0000 {
        8
    } else {
        9
    }
}

/// The shortest variable-length integer that holds `v`.
pub open spec fn varint_bytes(v: u64) -> Seq<u8> {
    if varint_len(v) == 9 {
        groups(v as int / 256, 8).push((v % 256) as u8)
    } else {
        groups(v as int / 128, varint_len(v) - 1).push((v % 128) as u8)
    }
}

/// Reading `n` groups that hold `w`, with a rest behind them, is reading
/// the rest with `w` taken in.
proof fn lemma_read_groups(w: int, n: int, rest: Seq<u8>, acc: int, taken: int)
    requires
        0 <= n,
        0 <= taken,
        taken + n <= 8,
        0 <= w,
        w < pow128(n),
    ensures
        varint_from(groups(w, n) + rest, acc, taken) == varint_from(
            rest,
            acc * pow128(n) + w,
            taken + n,
        ),
    decreases n,
{
    if n == 0 {
        assert(groups(w, n) + rest =~= rest);
    } else {
        let first = groups(w / 128, n - 1);
        let last = seq![(128 + w % 128) as u8];
        assert(groups(w, n) + rest =~= first + (last + rest));
        lemma_read_groups(w / 128, n - 1, last + rest, acc, taken);
        let mid = acc * pow128(n - 1) + w / 128;
        assert((last + rest)[0] == 128 + w % 128);
        assert((last + rest).skip(1) =~= rest);
        assert(mid * 128 + (w % 128) == acc * pow128(n) + w) by (nonlinear_arith)
            requires
                mid == acc * pow128(n - 1) + w / 128,
                pow128(n) == 128 * pow128(n - 1),
        ;
    }
}

/// 128 to the power `n`.
pub open spec fn pow128(n: int) -> int
    decreases n,
{
    if n <= 0 {
        1
    } else {
        128 * pow128(n - 1)
    }
}

/// Reading what was written yields what was written: the shortest
/// variable-length integer that holds `v`, whatever follows it, reads as `v`
/// with its own length.
pub proof fn lemma_varint_round_trip(v: u64, rest: Seq<u8>)
    ensures
        varint(varint_bytes(v) + rest) == Some((v as int, varint_len(v))),
        varint_bytes(v).len() == varint_len(v),
{
    reveal_with_fuel(pow128, 10);
    reveal_with_fuel(groups, 10);
    let n = varint_len(v);
    if n == 9 {
        let last = seq![(v % 256) as u8];
        assert(varint_bytes(v) + rest =~= groups(v as int / 256, 8) + (last + rest));
        lemma_read_groups(v as int / 256, 8, last + rest, 0, 0);
        assert((last + rest)[0] == v % 256);
    } else {
        let last = seq![(v % 128) as u8];
        assert(varint_bytes(v) + rest =~= groups(v as int / 128, n - 1) + (last + rest));
        lemma_read_groups(v as int / 128, n - 1, last + rest, 0, 0);
        assert((last + rest)[0] == v % 128);
    }
}

/// Reads the variable-length integer at place `at` of `s`; see [`varint`].
pub fn read_varint(s: &[u8], at: usize) -> (r: Option<(u64, usize)>)
    requires
        at <= s@.len(),
    ensures
        match r {
            Some((v, n)) => varint(s@.skip(at as int)) == Some((v as int, n as int)) && 1 <= n <= 9
                && at + n <= s@.len(),
            None => varint(s@.skip(at as int)) is None,
        },
{
    let mut acc: u64 = 0;
    let mut taken: usize = 0;
    let len: usize = s.len();
    assert(s@.skip(at as int).skip(0) =~= s@.skip(at as int));
    while taken < 8
        invariant
            taken <= 8,
            len == s@.len(),
            at <= s@.len(),
            at + taken <= s@.len(),
            acc < pow128(taken as int),
            varint_from(s@.skip(at + taken), acc as int, taken as int) == varint(
                s@.skip(at as int),
            ),
        decreases 8 - taken,
    {
        proof {
            reveal_with_fuel(pow128, 10);
        }
        if at + taken >= len {
            return None;
        }
        let b: u8 = s[at + taken];
        assert(s@.skip(at + taken)[0] == b);
        assert(s@.skip(at + taken).skip(1) =~= s@.skip(at + taken + 1));
        if b < 128 {
            return Some((acc * 128 + b as u64, taken + 1));
        }
        acc = acc * 128 + (b - 128) as u64;
        taken = taken + 1;
    }
    proof {
        reveal_with_fuel(pow128, 10);
    }
    if at + taken >= len {
        return None;
    }
    let b: u8 = s[at + taken];
    assert(s@.skip(at + taken)[0] == b);
    Some((acc * 256 + b as u64, 9))
}

/// The number of bytes of the shortest variable-length integer that holds
/// `v`.
pub fn varint_length(v: u64) -> (r: usize)
    ensures
        r == varint_len(v),
{
    if v < 0x80 {
        1
    } else if v < 0x4000 {
        2
    } else if v < 0x20_0000 {
        3
    } else if v < 0x1000_0000 {
        4
    } else if v < 0x8_0000_0000 {
        5
    } else if v < 0x400_0000_0000 {
        6
    } else if v < 0x2_0000_0000_0000 {
        7
    } else if v < 0x100_0000_0000_0000 {
        8
    } else {
        9
    }
}

/// Appends the `n` seven-bit groups of `w` to `out`.
fn push_groups(out: &mut Vec<u8>, w: u64, n: usize)
    requires
        n <= 8,
    ensures
        final(out)@ == old(out)@ + groups(w as int, n as int),
    decreases n,
{
    if n > 0 {
        push_groups(out, w / 128, n - 1);
        out.push((128 + w % 128) as u8);
    }
    assert(final(out)@ =~= old(out)@ + groups(w as int, n as int));
}

/// Appends the shortest variable-length integer that holds `v` to `out`.
pub fn push_varint(out: &mut Vec<u8>, v: u64)
    ensures
        final(out)@ == old(out)@ + varint_bytes(v),
{
    let n: usize = varint_length(v);
    if n == 9 {
        push_groups(out, v / 256, 8);
        out.push((v % 256) as u8);
    } else {
        push_groups(out, v / 128, n - 1);
        out.push((v % 128) as u8);
    }
    assert(final(out)@ =~= old(out)@ + varint_bytes(v));
}

} // verus!
