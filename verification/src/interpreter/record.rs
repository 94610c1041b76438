use vstd::prelude::*;
use vstd::slice::{slice_subrange, slice_to_vec};

use crate::interpreter::binary64::Real;
use crate::interpreter::value::{nullable_view, Value, ValueView};
use crate::interpreter::varint::{
    lemma_varint_round_trip, push_varint, read_varint, varint, varint_bytes, varint_len,
    varint_length,
};

verus! {

/// Why a payload is no record.
#[derive(Clone, Copy, Debug, PartialEq, Eq, Structural)]
pub enum RecordError {
    /// The payload breaks the format: it ends within its header, or the
    /// sizes that the header declares do not add up to its length.
    Corruption,
    /// The header holds one of the two codes that the format keeps in
    /// reserve.
    Unsupported,
}

/// 256 to the power `n`.
pub open spec fn pow256(n: int) -> int
    decreases n,
{
    if n <= 0 {
        1
    } else {
        256 * pow256(n - 1)
    }
}

/// The number that the bytes write, the most significant first.
pub open spec fn be_value(s: Seq<u8>) -> int
    decreases s.len(),
{
    if s.len() == 0 {
        0
    } else {
        be_value(s.drop_last()) * 256 + s.last()
    }
}

/// The number that the bytes write in two's complement, the most
/// significant first.
pub open spec fn be_signed(s: Seq<u8>) -> int {
    if s.len() > 0 && s[0] >= 128 {
        be_value(s) - pow256(s.len() as int)
    } else {
        be_value(s)
    }
}

/// The `w` bytes that write `x`, the most significant first.
pub open spec fn be_bytes(x: int, w: int) -> Seq<u8>
    decreases w,
{
    if w <= 0 {
        Seq::<u8>::empty()
    } else {
        be_bytes(x / 256, w - 1).push((x % 256) as u8)
    }
}

/// The `w` bytes that write the integer `i` in two's complement.
pub open spec fn be_signed_bytes(i: int, w: int) -> Seq<u8> {
    be_bytes(
        if i < 0 {
            i + pow256(w)
        } else {
            i
        },
        w,
    )
}

/// The least number of bytes among 1, 2, 3, 4, 6 and 8 that hold the
/// integer in two's complement.
pub open spec fn integer_width(i: i64) -> int {
    if -0x80 <= i <= 0x7F {
        1
    } else if -0x8000 <= i <= 0x7FFF {
        2
    } else if -0x80_0000 <= i <= 0x7F_FFFF {
        3
    } else if -0x8000_0000 <= i <= 0x7FFF_FFFF {
        4
    } else if -0x8000_0000_0000 <= i <= 0x7FFF_FFFF_FFFF {
        6
    } else {
        8
    }
}

/// The code in a record's header for a value: its storage class and size.
/// NULL is 0; the integers 0 and 1 have the codes 8 and 9 and no content;
/// any other integer has the code of its least width; a real has 7; a blob of
/// `n` bytes has 12 plus twice `n`, and a text 13 plus twice `n`.
pub open spec fn serial_type(v: Option<ValueView>) -> int {
    match v {
        None => 0,
        Some(ValueView::Integer(i)) => if i == 0 {
            8
        } else if i == 1 {
            9
        } else if integer_width(i) <= 4 {
            integer_width(i)
        } else if integer_width(i) == 6 {
            5
        } else {
            6
        },
        Some(ValueView::Real(_)) => 7,
        Some(ValueView::Blob(b)) => 12 + 2 * (b.len() as int),
        Some(ValueView::Text(t)) => 13 + 2 * (t.len() as int),
    }
}

/// The bytes of a value in a record's body.
pub open spec fn content(v: Option<ValueView>) -> Seq<u8> {
    match v {
        None => Seq::<u8>::empty(),
        Some(ValueView::Integer(i)) => if i == 0 || i == 1 {
            Seq::<u8>::empty()
        } else {
            be_signed_bytes(i as int, integer_width(i))
        },
        Some(ValueView::Real(r)) => be_bytes(r.bits as int, 8),
        Some(ValueView::Blob(b)) => b,
        Some(ValueView::Text(t)) => t,
    }
}

/// The number of bytes that a code announces.
pub open spec fn content_len(t: int) -> int {
    if t <= 4 {
        if t < 0 {
            0
        } else {
            t
        }
    } else if t == 5 {
        6
    } else if t == 6 || t == 7 {
        8
    } else if t < 12 {
        0
    } else {
        (t - 12) / 2
    }
}

/// The value that a code and its bytes stand for. The bit pattern of a NaN
/// stands for NULL.
pub open spec fn value_of(t: int, bytes: Seq<u8>) -> Option<ValueView> {
    if t <= 0 {
        None
    } else if t <= 6 {
        Some(ValueView::Integer(be_signed(bytes) as i64))
    } else if t == 7 {
        let r = Real { bits: be_value(bytes) as u64 };
        if r.is_nan() {
            None
        } else {
            Some(ValueView::Real(r))
        }
    } else if t == 8 {
        Some(ValueView::Integer(0))
    } else if t == 9 {
        Some(ValueView::Integer(1))
    } else if t % 2 == 0 {
        Some(ValueView::Blob(bytes))
    } else {
        Some(ValueView::Text(bytes))
    }
}

/// The codes that a record's header holds behind its size, or why it holds
/// none: it ends within a code, or a code is one of the two in reserve.
pub open spec fn types_of(header: Seq<u8>) -> core::result::Result<Seq<int>, RecordError>
    decreases header.len(),
{
    if header.len() == 0 {
        Ok(Seq::<int>::empty())
    } else {
        match varint(header) {
            None => Err(RecordError::Corruption),
            Some((t, n)) => if n <= 0 || n > header.len() {
                Err(RecordError::Corruption)
            } else if t == 10 || t == 11 {
                Err(RecordError::Unsupported)
            } else {
                match types_of(header.skip(n)) {
                    Ok(ts) => Ok(seq![t] + ts),
                    Err(e) => Err(e),
                }
            },
        }
    }
}

/// The values that a record's body holds for the codes of its header. The
/// sizes that the codes announce must add up to the length of the body.
pub open spec fn values_of(types: Seq<int>, body: Seq<u8>) -> core::result::Result<
    Seq<Option<ValueView>>,
    RecordError,
>
    decreases types.len(),
{
    if types.len() == 0 {
        if body.len() == 0 {
            Ok(Seq::<Option<ValueView>>::empty())
        } else {
            Err(RecordError::Corruption)
        }
    } else {
        let w = content_len(types[0]);
        if w > body.len() {
            Err(RecordError::Corruption)
        } else {
            match values_of(types.skip(1), body.skip(w)) {
                Ok(vs) => Ok(seq![value_of(types[0], body.take(w))] + vs),
                Err(e) => Err(e),
            }
        }
    }
}

/// The values of a record, or why the payload is none. The payload begins
/// with the size of its header, which counts the size itself; the codes of
/// the values follow up to that size, and the bytes of the values fill the
/// rest.
pub open spec fn decoded(payload: Seq<u8>) -> core::result::Result<
    Seq<Option<ValueView>>,
    RecordError,
> {
    match varint(payload) {
        None => Err(RecordError::Corruption),
        Some((h, n)) => if h < n || h > payload.len() {
            Err(RecordError::Corruption)
        } else {
            match types_of(payload.subrange(n, h)) {
                Err(e) => Err(e),
                Ok(types) => values_of(types, payload.skip(h)),
            }
        },
    }
}

/// The codes of the values, one behind the other.
pub open spec fn types_bytes(values: Seq<Option<ValueView>>) -> Seq<u8>
    decreases values.len(),
{
    if values.len() == 0 {
        Seq::<u8>::empty()
    } else {
        types_bytes(values.drop_last()) + varint_bytes(serial_type(values.last()) as u64)
    }
}

/// The bytes of the values, one behind the other.
pub open spec fn body_bytes(values: Seq<Option<ValueView>>) -> Seq<u8>
    decreases values.len(),
{
    if values.len() == 0 {
        Seq::<u8>::empty()
    } else {
        body_bytes(values.drop_last()) + content(values.last())
    }
}

/// The size of a header whose codes take `types_len` bytes: that number
/// plus the bytes of the size itself.
pub open spec fn header_size(types_len: int) -> int {
    if types_len <= 126 {
        types_len + 1
    } else {
        let n = varint_len(types_len as u64);
        if varint_len((types_len + n) as u64) > n {
            types_len + n + 1
        } else {
            types_len + n
        }
    }
}

/// The record of the values: the size of the header, the code of each
/// value, the bytes of each value.
pub open spec fn encoded(values: Seq<Option<ValueView>>) -> Seq<u8> {
    varint_bytes(header_size(types_bytes(values).len() as int) as u64) + types_bytes(values)
        + body_bytes(values)
}

/// The longest text or blob that a record can hold: its code must fit the
/// 64 bits of a variable-length integer.
pub const LONGEST_CONTENT: u64 = 0x7FFF_FFFF_FFFF_FFF0;

/// Whether a record can hold the value and hand it back: a text or a blob
/// must not be longer than its code can say, and a real must be a number,
/// since a NaN is read back as NULL.
pub open spec fn representable(v: Option<ValueView>) -> bool {
    match v {
        Some(ValueView::Real(r)) => !r.is_nan(),
        Some(ValueView::Blob(b)) => b.len() <= LONGEST_CONTENT,
        Some(ValueView::Text(t)) => t.len() <= LONGEST_CONTENT,
        _ => true,
    }
}


/// A number written in `n` bytes lies between its first byte times the
/// weight of that byte and the next multiple of the weight.
pub proof fn lemma_be_bounds(s: Seq<u8>)
    requires
        s.len() >= 1,
    ensures
        s[0] * pow256(s.len() - 1) <= be_value(s) < (s[0] + 1) * pow256(s.len() - 1),
        pow256(s.len() - 1) >= 1,
    decreases s.len(),
{
    reveal_with_fuel(be_value, 2);
    if s.len() == 1 {
        assert(s.drop_last() =~= Seq::<u8>::empty());
        assert(pow256(0) == 1);
    } else {
        let t = s.drop_last();
        lemma_be_bounds(t);
        assert(t[0] == s[0]);
        let p = pow256(t.len() - 1);
        assert(pow256(s.len() - 1) == 256 * p);
        let b = be_value(t);
        assert(s[0] * (256 * p) <= b * 256 + s.last() < (s[0] + 1) * (256 * p))
            by (nonlinear_arith)
            requires
                s[0] * p <= b,
                b + 1 <= (s[0] + 1) * p,
                0 <= s.last() < 256,
        ;
    }
}

/// The bytes that write a number below 256 to the `w` are `w` in number,
/// write that number, and begin with its quotient by the weight of the first
/// byte.
pub proof fn lemma_be_round_trip(x: int, w: int)
    requires
        0 <= w,
        0 <= x < pow256(w),
    ensures
        be_bytes(x, w).len() == w,
        be_value(be_bytes(x, w)) == x,
        w >= 1 ==> be_bytes(x, w)[0] == x / pow256(w - 1),
    decreases w,
{
    if w > 0 {
        lemma_be_round_trip(x / 256, w - 1);
        let t = be_bytes(x / 256, w - 1);
        let s = be_bytes(x, w);
        assert(s.drop_last() =~= t);
        if w == 1 {
            assert(pow256(1) == 256) by {
                reveal_with_fuel(pow256, 2);
            }
            assert(pow256(0) == 1);
            assert(t =~= Seq::<u8>::empty());
            assert(s[0] == (x % 256) as u8);
            assert(x / 1 == x);
            assert(s[0] == x / pow256(w - 1));
        } else {
            let p = pow256(w - 2);
            assert(t.len() == w - 1);
            assert(s[0] == t[0]);
            lemma_pow256_positive(w - 2);
            assert(pow256(w - 1) == 256 * p);
            assert(t[0] == (x / 256) / p);
            vstd::arithmetic::div_mod::lemma_div_denominator(x, 256, p);
            assert((x / 256) / p == x / (256 * p));
            assert(s[0] == x / pow256(w - 1));
        }
    }
}

pub proof fn lemma_pow256_positive(n: int)
    ensures
        pow256(n) >= 1,
    decreases n,
{
    if n > 0 {
        lemma_pow256_positive(n - 1);
    }
}

/// The powers of 256 that the widths of integers need.
pub proof fn lemma_pow256_values()
    ensures
        pow256(0) == 1,
        pow256(1) == 0x100,
        pow256(2) == 0x1_0000,
        pow256(3) == 0x100_0000,
        pow256(4) == 0x1_0000_0000,
        pow256(5) == 0x100_0000_0000,
        pow256(6) == 0x1_0000_0000_0000,
        pow256(7) == 0x100_0000_0000_0000,
        pow256(8) == 0x1_0000_0000_0000_0000,
{
    reveal_with_fuel(pow256, 10);
}

/// Reads the `w` bytes from place `from` as a number, the most significant
/// first.
pub(crate) fn read_be(s: &[u8], from: usize, w: usize) -> (r: u64)
    requires
        w <= 8,
        from + w <= s@.len(),
    ensures
        r == be_value(s@.subrange(from as int, from + w)),
        r < pow256(w as int),
{
    let mut acc: u64 = 0;
    let mut j: usize = 0;
    assert(s.len() <= usize::MAX);
    assert(s@.subrange(from as int, from as int) =~= Seq::<u8>::empty());
    proof {
        lemma_pow256_values();
    }
    while j < w
        invariant
            j <= w <= 8,
            from + w <= s@.len() <= usize::MAX,
            acc == be_value(s@.subrange(from as int, from + j)),
            acc < pow256(j as int),
        decreases w - j,
    {
        proof {
            lemma_pow256_values();
            let next = s@.subrange(from as int, from + j + 1);
            assert(next.drop_last() =~= s@.subrange(from as int, from + j));
            assert(next.last() == s@[from + j]);
            assert(pow256(j + 1) == 256 * pow256(j as int));
        }
        acc = acc * 256 + s[from + j] as u64;
        j = j + 1;
    }
    acc
}

/// The number of bytes that a code announces; see [`content_len`].
fn content_length(t: u64) -> (r: u64)
    ensures
        r == content_len(t as int),
{
    if t <= 4 {
        t
    } else if t == 5 {
        6
    } else if t == 6 || t == 7 {
        8
    } else if t < 12 {
        0
    } else {
        (t - 12) / 2
    }
}

/// The value that a code and the bytes from `from` on stand for; see
/// [`value_of`].
fn read_value(t: u64, s: &[u8], from: usize, w: usize) -> (r: Option<Value>)
    requires
        from + w <= s@.len(),
        w == content_len(t as int),
    ensures
        nullable_view(r) == value_of(
            t as int,
            s@.subrange(from as int, from + w),
        ),
{
    let ghost bytes = s@.subrange(from as int, from + w);
    assert(s.len() <= usize::MAX);
    if t == 0 {
        None
    } else if t <= 6 {
        let raw: u64 = read_be(s, from, w);
        proof {
            lemma_pow256_values();
            lemma_be_bounds(bytes);
        }
        let first: u8 = s[from];
        assert(first == bytes[0]);
        if first >= 128 {
            let limit: i128 = if w == 1 {
                0x100
            } else if w == 2 {
                0x1_0000
            } else if w == 3 {
                0x100_0000
            } else if w == 4 {
                0x1_0000_0000
            } else if w == 6 {
                0x1_0000_0000_0000
            } else {
                0x1_0000_0000_0000_0000
            };
            assert(limit == pow256(w as int));
            assert(raw >= 128 * pow256(w - 1)) by (nonlinear_arith)
                requires
                    raw >= first * pow256(w - 1),
                    first >= 128,
                    pow256(w - 1) >= 1,
            ;
            Some(Value::Integer((raw as i128 - limit) as i64))
        } else {
            assert(raw < 128 * pow256(w - 1)) by (nonlinear_arith)
                requires
                    raw < (first + 1) * pow256(w - 1),
                    first + 1 <= 128,
                    pow256(w - 1) >= 1,
            ;
            Some(Value::Integer(raw as i64))
        }
    } else if t == 7 {
        let bits: u64 = read_be(s, from, w);
        let r = Real::from_bits(bits);
        if r.nan() {
            None
        } else {
            Some(Value::Real(r))
        }
    } else if t == 8 {
        Some(Value::Integer(0))
    } else if t == 9 {
        Some(Value::Integer(1))
    } else if t % 2 == 0 {
        Some(Value::Blob(slice_to_vec(slice_subrange(s, from, from + w))))
    } else {
        Some(Value::Text(slice_to_vec(slice_subrange(s, from, from + w))))
    }
}

/// What the values of a record hold.
pub open spec fn values_view(values: Seq<Option<Value>>) -> Seq<Option<ValueView>> {
    Seq::new(values.len(), |i: int| nullable_view(values[i]))
}

/// What the result of decoding holds.
pub open spec fn decode_view(
    r: core::result::Result<Vec<Option<Value>>, RecordError>,
) -> core::result::Result<Seq<Option<ValueView>>, RecordError> {
    match r {
        Ok(values) => Ok(values_view(values@)),
        Err(e) => Err(e),
    }
}

/// `r` with `acc` written before what it holds.
pub open spec fn prepended<T>(
    acc: Seq<T>,
    r: core::result::Result<Seq<T>, RecordError>,
) -> core::result::Result<Seq<T>, RecordError> {
    match r {
        Ok(rest) => Ok(acc + rest),
        Err(e) => Err(e),
    }
}

/// The codes as integers.
pub open spec fn codes(types: Seq<u64>) -> Seq<int> {
    Seq::new(types.len(), |i: int| types[i] as int)
}

/// The codes that a record's header holds; see [`types_of`].
fn read_types(header: &[u8]) -> (r: core::result::Result<Vec<u64>, RecordError>)
    ensures
        match r {
            Ok(types) => types_of(header@) == Ok::<Seq<int>, RecordError>(codes(types@)),
            Err(e) => types_of(header@) == Err::<Seq<int>, RecordError>(e),
        },
{
    let mut types: Vec<u64> = Vec::new();
    let mut i: usize = 0;
    assert(header@.skip(0) =~= header@);
    assert(codes(types@) + Seq::<int>::empty() =~= codes(types@));
    while i < header.len()
        invariant
            i <= header@.len(),
            prepended(codes(types@), types_of(header@.skip(i as int))) == types_of(header@),
        decreases header@.len() - i,
    {
        let ghost rest = header@.skip(i as int);
        match read_varint(header, i) {
            None => {
                return Err(RecordError::Corruption);
            },
            Some((t, n)) => {
                if t == 10 || t == 11 {
                    return Err(RecordError::Unsupported);
                }
                let ghost before = codes(types@);
                types.push(t);
                proof {
                    assert(rest.skip(n as int) =~= header@.skip(i + n));
                    assert(codes(types@) =~= before + seq![t as int]);
                    match types_of(header@.skip(i + n)) {
                        Ok(ts) => {
                            assert(before + (seq![t as int] + ts) =~= codes(types@) + ts);
                        },
                        Err(_) => {},
                    }
                }
                i = i + n;
            },
        }
    }
    proof {
        assert(codes(types@) + Seq::<int>::empty() =~= codes(types@));
    }
    Ok(types)
}

/// The values of a record, or why the payload is none; see [`decoded`].
pub fn decode(payload: &[u8]) -> (r: core::result::Result<Vec<Option<Value>>, RecordError>)
    ensures
        decode_view(r) == decoded(payload@),
{
    let len: usize = payload.len();
    assert(payload@.skip(0) =~= payload@);
    let (h, n) = match read_varint(payload, 0) {
        None => {
            return Err(RecordError::Corruption);
        },
        Some(x) => x,
    };
    if h < n as u64 || h > len as u64 {
        return Err(RecordError::Corruption);
    }
    let h: usize = h as usize;
    let types: Vec<u64> = match read_types(slice_subrange(payload, n, h)) {
        Err(e) => {
            return Err(e);
        },
        Ok(t) => t,
    };
    let ghost all = codes(types@);
    let ghost body = payload@.skip(h as int);
    let mut out: Vec<Option<Value>> = Vec::new();
    let mut offset: usize = h;
    let mut k: usize = 0;
    assert(all.skip(0) =~= all);
    assert(values_view(out@) =~= Seq::<Option<ValueView>>::empty());
    proof {
        match values_of(all, body) {
            Ok(vs) => {
                assert(values_view(out@) + vs =~= vs);
            },
            Err(_) => {},
        }
    }
    while k < types.len()
        invariant
            k <= types@.len(),
            h <= offset <= len,
            len == payload@.len(),
            all == codes(types@),
            body == payload@.skip(h as int),
            decoded(payload@) == values_of(all, body),
            prepended(values_view(out@), values_of(all.skip(k as int), payload@.skip(offset as int)))
                == values_of(all, body),
        decreases types@.len() - k,
    {
        let t: u64 = types[k];
        let w: u64 = content_length(t);
        assert(all.skip(k as int)[0] == t);
        if w > (len - offset) as u64 {
            proof {
                let rest = payload@.skip(offset as int);
                assert(rest.len() == len - offset);
                assert(content_len(all.skip(k as int)[0]) > rest.len());
                assert(values_of(all.skip(k as int), rest) == Err::<
                    Seq<Option<ValueView>>,
                    RecordError,
                >(RecordError::Corruption));
            }
            return Err(RecordError::Corruption);
        }
        let w: usize = w as usize;
        let value: Option<Value> = read_value(t, payload, offset, w);
        let ghost before = values_view(out@);
        out.push(value);
        proof {
            let rest = payload@.skip(offset as int);
            assert(rest.take(w as int) =~= payload@.subrange(offset as int, offset + w));
            assert(rest.skip(w as int) =~= payload@.skip(offset + w));
            assert(all.skip(k as int).skip(1) =~= all.skip(k + 1));
            let item = value_of(t as int, rest.take(w as int));
            assert(values_view(out@) =~= before + seq![item]);
            match values_of(all.skip(k + 1), payload@.skip(offset + w)) {
                Ok(vs) => {
                    assert(before + (seq![item] + vs) =~= values_view(out@) + vs);
                },
                Err(_) => {},
            }
        }
        offset = offset + w;
        k = k + 1;
    }
    assert(all.skip(k as int) =~= Seq::<int>::empty());
    if offset != len {
        return Err(RecordError::Corruption);
    }
    assert(values_view(out@) + Seq::<Option<ValueView>>::empty() =~= values_view(out@));
    Ok(out)
}


pub proof fn lemma_be_len(x: int, w: int)
    requires
        0 <= w,
    ensures
        be_bytes(x, w).len() == w,
    decreases w,
{
    if w > 0 {
        lemma_be_len(x / 256, w - 1);
    }
}

/// The bytes of a value are as many as its code announces, and its code is
/// none of the two in reserve.
pub proof fn lemma_content_len(v: Option<ValueView>)
    ensures
        content(v).len() == content_len(serial_type(v)),
        serial_type(v) != 10,
        serial_type(v) != 11,
        serial_type(v) >= 0,
{
    match v {
        Some(ValueView::Integer(i)) => {
            lemma_be_len(
                if i < 0 {
                    i + pow256(integer_width(i))
                } else {
                    i as int
                },
                integer_width(i),
            );
        },
        Some(ValueView::Real(r)) => {
            lemma_be_len(r.bits as int, 8);
        },
        _ => {},
    }
}

/// The size of a header counts the bytes of the size itself.
pub proof fn lemma_header_size(types_len: int)
    requires
        0 <= types_len <= LONGEST_CONTENT,
    ensures
        header_size(types_len) == types_len + varint_len(header_size(types_len) as u64),
        header_size(types_len) <= types_len + 10,
{
}

/// What the values handed to the encoder hold.
pub open spec fn record_view(values: Seq<Option<&Value>>) -> Seq<Option<ValueView>> {
    Seq::new(
        values.len(),
        |i: int|
            match values[i] {
                Some(v) => Some(v@),
                None => None,
            },
    )
}

/// Whether the values can be written as a record in memory: no text or blob
/// is longer than its code can say, and neither is the record, nor longer
/// than an address can reach.
pub open spec fn encodable(values: Seq<Option<ValueView>>) -> bool {
    &&& forall|i: int| 0 <= i < values.len() ==> content(#[trigger] values[i]).len() <= LONGEST_CONTENT
    &&& encoded(values).len() <= LONGEST_CONTENT
    &&& encoded(values).len() <= usize::MAX
}

fn integer_width_of(i: i64) -> (r: usize)
    ensures
        r == integer_width(i),
{
    if -0x80 <= i && i <= 0x7F {
        1
    } else if -0x8000 <= i && i <= 0x7FFF {
        2
    } else if -0x80_0000 <= i && i <= 0x7F_FFFF {
        3
    } else if -0x8000_0000 <= i && i <= 0x7FFF_FFFF {
        4
    } else if -0x8000_0000_0000 <= i && i <= 0x7FFF_FFFF_FFFF {
        6
    } else {
        8
    }
}

/// The code of a value, where its bytes are few enough to have one.
fn serial_type_of(v: &Option<&Value>) -> (r: Option<u64>)
    ensures
        match r {
            Some(t) => t == serial_type(record_view(seq![*v])[0]) && content(
                record_view(seq![*v])[0],
            ).len() <= LONGEST_CONTENT,
            None => content(record_view(seq![*v])[0]).len() > LONGEST_CONTENT,
        },
{
    proof {
        lemma_content_len(record_view(seq![*v])[0]);
    }
    match v {
        None => Some(0),
        Some(Value::Integer(i)) => {
            if *i == 0 {
                Some(8)
            } else if *i == 1 {
                Some(9)
            } else {
                let w: usize = integer_width_of(*i);
                if w <= 4 {
                    Some(w as u64)
                } else if w == 6 {
                    Some(5)
                } else {
                    Some(6)
                }
            }
        },
        Some(Value::Real(_)) => Some(7),
        Some(Value::Blob(b)) => {
            if b.len() as u64 > LONGEST_CONTENT {
                None
            } else {
                Some(12 + 2 * (b.len() as u64))
            }
        },
        Some(Value::Text(t)) => {
            if t.len() as u64 > LONGEST_CONTENT {
                None
            } else {
                Some(13 + 2 * (t.len() as u64))
            }
        },
    }
}

/// Appends the `w` bytes that write `x` to `out`.
fn push_be(out: &mut Vec<u8>, x: u64, w: usize)
    requires
        w <= 8,
    ensures
        final(out)@ == old(out)@ + be_bytes(x as int, w as int),
    decreases w,
{
    if w > 0 {
        push_be(out, x / 256, w - 1);
        out.push((x % 256) as u8);
    }
    assert(final(out)@ =~= old(out)@ + be_bytes(x as int, w as int));
}

/// Appends the bytes of a value to `out`.
fn push_content(out: &mut Vec<u8>, v: &Option<&Value>)
    ensures
        final(out)@ == old(out)@ + content(record_view(seq![*v])[0]),
{
    match v {
        None => {
            assert(out@ =~= old(out)@ + Seq::<u8>::empty());
        },
        Some(Value::Integer(i)) => {
            if *i == 0 || *i == 1 {
                assert(out@ =~= old(out)@ + Seq::<u8>::empty());
            } else {
                let w: usize = integer_width_of(*i);
                proof {
                    lemma_pow256_values();
                }
                let limit: i128 = if w == 1 {
                    0x100
                } else if w == 2 {
                    0x1_0000
                } else if w == 3 {
                    0x100_0000
                } else if w == 4 {
                    0x1_0000_0000
                } else if w == 6 {
                    0x1_0000_0000_0000
                } else {
                    0x1_0000_0000_0000_0000
                };
                let x: u64 = if *i < 0 {
                    (*i as i128 + limit) as u64
                } else {
                    *i as u64
                };
                push_be(out, x, w);
            }
        },
        Some(Value::Real(r)) => {
            push_be(out, r.to_bits(), 8);
        },
        Some(Value::Blob(b)) => {
            out.extend_from_slice(b.as_slice());
            assert(out@ =~= old(out)@ + b@);
        },
        Some(Value::Text(t)) => {
            out.extend_from_slice(t.as_slice());
            assert(out@ =~= old(out)@ + t@);
        },
    }
}

/// The record of the values, where they can be written as one; see
/// [`encoded`] and [`encodable`].
pub fn encode(values: &[Option<&Value>]) -> (r: Option<Vec<u8>>)
    ensures
        r is Some == encodable(record_view(values@)),
        r is Some ==> r->0@ == encoded(record_view(values@)),
{
    let ghost view = record_view(values@);
    let count: usize = values.len();
    let mut types_len: u128 = 0;
    let mut body_len: u128 = 0;
    let mut i: usize = 0;
    assert(view.take(0) =~= Seq::<Option<ValueView>>::empty());
    while i < count
        invariant
            i <= count,
            count == values@.len(),
            view == record_view(values@),
            types_len == types_bytes(view.take(i as int)).len(),
            body_len == body_bytes(view.take(i as int)).len(),
            types_len <= 9 * i,
            body_len <= LONGEST_CONTENT * i,
            forall|k: int| 0 <= k < i ==> content(#[trigger] view[k]).len() <= LONGEST_CONTENT,
        decreases count - i,
    {
        let ghost item = view[i as int];
        proof {
            assert(record_view(seq![values@[i as int]])[0] == item);
            assert(view.take(i + 1).drop_last() =~= view.take(i as int));
            assert(view.take(i + 1).last() == item);
            lemma_content_len(item);
            lemma_varint_round_trip(serial_type(item) as u64, Seq::<u8>::empty());
        }
        match serial_type_of(&values[i]) {
            None => {
                return None;
            },
            Some(t) => {
                assert(LONGEST_CONTENT * i + content_len(t as int) <= LONGEST_CONTENT * (i + 1))
                    by (nonlinear_arith)
                    requires
                        content_len(t as int) <= LONGEST_CONTENT,
                ;
                types_len = types_len + varint_length(t) as u128;
                body_len = body_len + content_length(t) as u128;
            },
        }
        i = i + 1;
    }
    assert(view.take(count as int) =~= view);
    if types_len > usize::MAX as u128 || types_len > LONGEST_CONTENT as u128 {
        return None;
    }
    proof {
        lemma_header_size(types_len as int);
        lemma_varint_round_trip(header_size(types_len as int) as u64, Seq::<u8>::empty());
    }
    let h: u64 = if types_len <= 126 {
        types_len as u64 + 1
    } else {
        let n: u64 = varint_length(types_len as u64) as u64;
        if varint_length(types_len as u64 + n) as u64 > n {
            types_len as u64 + n + 1
        } else {
            types_len as u64 + n
        }
    };
    if h as u128 + body_len > usize::MAX as u128 || h as u128 + body_len > LONGEST_CONTENT as u128 {
        return None;
    }
    let mut out: Vec<u8> = Vec::new();
    push_varint(&mut out, h);
    let ghost head = out@;
    let mut j: usize = 0;
    assert(out@ =~= head + types_bytes(view.take(0)));
    while j < count
        invariant
            j <= count,
            count == values@.len(),
            view == record_view(values@),
            out@ == head + types_bytes(view.take(j as int)),
            forall|k: int| 0 <= k < count ==> content(#[trigger] view[k]).len() <= LONGEST_CONTENT,
        decreases count - j,
    {
        let ghost item = view[j as int];
        proof {
            assert(record_view(seq![values@[j as int]])[0] == item);
            assert(view.take(j + 1).drop_last() =~= view.take(j as int));
            assert(view.take(j + 1).last() == item);
        }
        match serial_type_of(&values[j]) {
            None => {},
            Some(t) => {
                push_varint(&mut out, t);
                assert(out@ =~= head + types_bytes(view.take(j + 1)));
            },
        }
        j = j + 1;
    }
    let ghost header = out@;
    let mut k: usize = 0;
    assert(out@ =~= header + body_bytes(view.take(0)));
    while k < count
        invariant
            k <= count,
            count == values@.len(),
            view == record_view(values@),
            out@ == header + body_bytes(view.take(k as int)),
        decreases count - k,
    {
        let ghost item = view[k as int];
        proof {
            assert(record_view(seq![values@[k as int]])[0] == item);
            assert(view.take(k + 1).drop_last() =~= view.take(k as int));
            assert(view.take(k + 1).last() == item);
        }
        push_content(&mut out, &values[k]);
        assert(out@ =~= header + body_bytes(view.take(k + 1)));
        k = k + 1;
    }
    assert(out@ =~= encoded(view));
    Some(out)
}


/// The codes of the values.
pub open spec fn serial_types(values: Seq<Option<ValueView>>) -> Seq<int> {
    Seq::new(values.len(), |i: int| serial_type(values[i]))
}

/// Whether a record can hold the values and hand them back: each of them
/// can be held (see [`representable`]), and their codes are not longer than
/// the size of a header can say.
pub open spec fn representable_record(values: Seq<Option<ValueView>>) -> bool {
    &&& forall|i: int| 0 <= i < values.len() ==> representable(#[trigger] values[i])
    &&& types_bytes(values).len() <= LONGEST_CONTENT
}

proof fn lemma_types_bytes_head(values: Seq<Option<ValueView>>)
    requires
        values.len() >= 1,
    ensures
        types_bytes(values) == varint_bytes(serial_type(values[0]) as u64) + types_bytes(
            values.skip(1),
        ),
    decreases values.len(),
{
    reveal_with_fuel(types_bytes, 2);
    if values.len() == 1 {
        assert(values.drop_last() =~= Seq::<Option<ValueView>>::empty());
        assert(values.skip(1) =~= Seq::<Option<ValueView>>::empty());
        assert(types_bytes(values) =~= varint_bytes(serial_type(values[0]) as u64)
            + types_bytes(values.skip(1)));
    } else {
        lemma_types_bytes_head(values.drop_last());
        assert(values.drop_last().skip(1) =~= values.skip(1).drop_last());
        assert(values.skip(1).last() == values.last());
        assert(types_bytes(values) =~= varint_bytes(serial_type(values[0]) as u64)
            + types_bytes(values.skip(1)));
    }
}

proof fn lemma_body_bytes_head(values: Seq<Option<ValueView>>)
    requires
        values.len() >= 1,
    ensures
        body_bytes(values) == content(values[0]) + body_bytes(values.skip(1)),
    decreases values.len(),
{
    reveal_with_fuel(body_bytes, 2);
    if values.len() == 1 {
        assert(values.drop_last() =~= Seq::<Option<ValueView>>::empty());
        assert(values.skip(1) =~= Seq::<Option<ValueView>>::empty());
        assert(body_bytes(values) =~= content(values[0]) + body_bytes(values.skip(1)));
    } else {
        lemma_body_bytes_head(values.drop_last());
        assert(values.drop_last().skip(1) =~= values.skip(1).drop_last());
        assert(values.skip(1).last() == values.last());
        assert(body_bytes(values) =~= content(values[0]) + body_bytes(values.skip(1)));
    }
}

/// The codes of values read back as they were written.
proof fn lemma_types_round_trip(values: Seq<Option<ValueView>>)
    requires
        forall|i: int| 0 <= i < values.len() ==> representable(#[trigger] values[i]),
    ensures
        types_of(types_bytes(values)) == Ok::<Seq<int>, RecordError>(serial_types(values)),
    decreases values.len(),
{
    if values.len() == 0 {
        assert(serial_types(values) =~= Seq::<int>::empty());
    } else {
        let t = serial_type(values[0]);
        let rest = types_bytes(values.skip(1));
        lemma_types_bytes_head(values);
        lemma_content_len(values[0]);
        assert(representable(values[0]));
        assert(0 <= t <= u64::MAX);
        lemma_varint_round_trip(t as u64, rest);
        let n = varint_len(t as u64);
        assert((varint_bytes(t as u64) + rest).skip(n) =~= rest);
        assert forall|i: int| 0 <= i < values.skip(1).len() implies representable(
            #[trigger] values.skip(1)[i],
        ) by {
            assert(values.skip(1)[i] == values[i + 1]);
        }
        lemma_types_round_trip(values.skip(1));
        assert(seq![t] + serial_types(values.skip(1)) =~= serial_types(values));
    }
}

/// A value that a record can hold is read back from its code and its bytes
/// as it was written.
pub proof fn lemma_value_round_trip(v: Option<ValueView>)
    requires
        representable(v),
    ensures
        value_of(serial_type(v), content(v)) == v,
{
    lemma_pow256_values();
    match v {
        Some(ValueView::Integer(i)) => {
            if i != 0 && i != 1 {
                let w = integer_width(i);
                let x = if i < 0 {
                    i + pow256(w)
                } else {
                    i as int
                };
                lemma_be_round_trip(x, w);
                let half = pow256(w - 1);
                assert(pow256(w) == 256 * half);
                assert((x >= 128 * half) == (x / half >= 128)) by (nonlinear_arith)
                    requires
                        half >= 1,
                        x >= 0,
                ;
            }
        },
        Some(ValueView::Real(r)) => {
            lemma_be_round_trip(r.bits as int, 8);
        },
        _ => {},
    }
}

/// The bytes of values read back as they were written.
proof fn lemma_values_round_trip(values: Seq<Option<ValueView>>)
    requires
        forall|i: int| 0 <= i < values.len() ==> representable(#[trigger] values[i]),
    ensures
        values_of(serial_types(values), body_bytes(values)) == Ok::<
            Seq<Option<ValueView>>,
            RecordError,
        >(values),
    decreases values.len(),
{
    if values.len() == 0 {
        assert(values =~= Seq::<Option<ValueView>>::empty());
    } else {
        let first = content(values[0]);
        let rest = body_bytes(values.skip(1));
        lemma_body_bytes_head(values);
        lemma_content_len(values[0]);
        lemma_value_round_trip(values[0]);
        assert((first + rest).take(first.len() as int) =~= first);
        assert((first + rest).skip(first.len() as int) =~= rest);
        assert(serial_types(values).skip(1) =~= serial_types(values.skip(1)));
        assert forall|i: int| 0 <= i < values.skip(1).len() implies representable(
            #[trigger] values.skip(1)[i],
        ) by {
            assert(values.skip(1)[i] == values[i + 1]);
        }
        lemma_values_round_trip(values.skip(1));
        assert(seq![values[0]] + values.skip(1) =~= values);
    }
}

/// Decoding the record of values hands back the values: whatever values a
/// record can hold, in whatever number.
pub proof fn lemma_round_trip(values: Seq<Option<ValueView>>)
    requires
        representable_record(values),
    ensures
        decoded(encoded(values)) == Ok::<Seq<Option<ValueView>>, RecordError>(values),
{
    let types = types_bytes(values);
    let body = body_bytes(values);
    let h = header_size(types.len() as int);
    let e = encoded(values);
    lemma_header_size(types.len() as int);
    lemma_varint_round_trip(h as u64, types + body);
    let n = varint_len(h as u64);
    assert(e =~= varint_bytes(h as u64) + (types + body));
    assert(e.subrange(n, h) =~= types);
    assert(e.skip(h) =~= body);
    lemma_types_round_trip(values);
    lemma_values_round_trip(values);
}

} // verus!
