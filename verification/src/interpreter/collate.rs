use vstd::arithmetic::power2::lemma_pow2_pos;
use vstd::prelude::*;

use crate::interpreter::binary64::unit_scale;
use crate::interpreter::value::{nullable_view, Value, ValueView};

verus! {

/// A named way of ordering texts.
#[derive(Clone, Copy, Debug, PartialEq, Eq, Structural)]
pub enum Collation {
    /// Byte by byte.
    Binary,
    /// Byte by byte, the ASCII capital letters counting as their small ones.
    NoCase,
    /// Byte by byte, without the spaces at the end.
    RTrim,
}

/// The collation of a comparison in which neither side names one.
pub const DEFAULT_COLLATION: Collation = Collation::Binary;

/// An ASCII capital letter as its small letter, any other byte as itself.
pub open spec fn lower(b: u8) -> u8 {
    if 65 <= b <= 90 {
        (b + 32) as u8
    } else {
        b
    }
}

/// The text with its ASCII capital letters made small.
pub open spec fn folded(s: Seq<u8>) -> Seq<u8> {
    Seq::new(s.len(), |i: int| lower(s[i]))
}

/// The length of the text without the spaces at its end.
pub open spec fn trimmed_len(s: Seq<u8>) -> nat
    decreases s.len(),
{
    if s.len() > 0 && s.last() == 32 {
        trimmed_len(s.drop_last())
    } else {
        s.len()
    }
}

/// The bytes by which a collation orders a text.
pub open spec fn collation_key(c: Collation, s: Seq<u8>) -> Seq<u8> {
    match c {
        Collation::Binary => s,
        Collation::NoCase => folded(s),
        Collation::RTrim => s.take(trimmed_len(s) as int),
    }
}

/// The order of two byte strings, as -1, 0 or 1: the first place where they
/// differ decides, and a string that ends before that place comes first.
pub open spec fn bytes_order(a: Seq<u8>, b: Seq<u8>) -> int
    decreases a.len(),
{
    if a.len() == 0 {
        if b.len() == 0 {
            0
        } else {
            -1
        }
    } else if b.len() == 0 {
        1
    } else if a[0] < b[0] {
        -1
    } else if a[0] > b[0] {
        1
    } else {
        bytes_order(a.skip(1), b.skip(1))
    }
}

/// The order of two texts under a collation, as -1, 0 or 1.
pub open spec fn text_order(c: Collation, a: Seq<u8>, b: Seq<u8>) -> int {
    bytes_order(collation_key(c, a), collation_key(c, b))
}

/// The place of a storage class in the order of values: numbers come before
/// texts, and texts before blobs.
pub open spec fn rank(v: ValueView) -> int {
    match v {
        ValueView::Integer(_) => 1,
        ValueView::Real(_) => 1,
        ValueView::Text(_) => 2,
        ValueView::Blob(_) => 3,
    }
}

/// A number in units of two to the minus 1074, in which integers and reals
/// are both whole: the larger number has the larger key.
pub open spec fn numeric_key(v: ValueView) -> int {
    match v {
        ValueView::Integer(i) => i * unit_scale(),
        ValueView::Real(r) => r.scaled(),
        _ => 0,
    }
}

pub open spec fn sign(x: int) -> int {
    if x < 0 {
        -1
    } else if x == 0 {
        0
    } else {
        1
    }
}

/// The order of two values, as -1, 0 or 1. Numbers are ordered by what they
/// denote, whether integer or real; texts by the collation; blobs byte by
/// byte whatever the collation.
pub open spec fn value_order(a: ValueView, b: ValueView, c: Collation) -> int {
    if rank(a) != rank(b) {
        sign(rank(a) - rank(b))
    } else {
        match (a, b) {
            (ValueView::Text(x), ValueView::Text(y)) => text_order(c, x, y),
            (ValueView::Blob(x), ValueView::Blob(y)) => bytes_order(x, y),
            _ => sign(numeric_key(a) - numeric_key(b)),
        }
    }
}

/// The order of two values that may be NULL: NULL comes before every value.
pub open spec fn nullable_order(a: Option<ValueView>, b: Option<ValueView>, c: Collation) -> int {
    match (a, b) {
        (None, None) => 0,
        (None, Some(_)) => -1,
        (Some(_), None) => 1,
        (Some(x), Some(y)) => value_order(x, y, c),
    }
}

fn lower_byte(b: u8) -> (r: u8)
    ensures
        r == lower(b),
{
    if 65 <= b && b <= 90 {
        b + 32
    } else {
        b
    }
}

fn trimmed_length(s: &[u8]) -> (r: usize)
    ensures
        r == trimmed_len(s@),
        r <= s@.len(),
{
    let mut n: usize = s.len();
    assert(s@.take(n as int) =~= s@);
    while n > 0 && s[n - 1] == 32
        invariant
            n <= s@.len(),
            trimmed_len(s@.take(n as int)) == trimmed_len(s@),
        decreases n,
    {
        assert(s@.take(n as int).drop_last() =~= s@.take(n - 1));
        n = n - 1;
    }
    proof {
        lemma_trimmed_len_bound(s@.take(n as int));
    }
    n
}

proof fn lemma_trimmed_len_bound(s: Seq<u8>)
    ensures
        trimmed_len(s) <= s.len(),
    decreases s.len(),
{
    if s.len() > 0 && s.last() == 32 {
        lemma_trimmed_len_bound(s.drop_last());
    }
}

/// The order of two texts under a collation; see [`text_order`].
pub fn compare_text(c: Collation, a: &[u8], b: &[u8]) -> (r: i8)
    ensures
        r == text_order(c, a@, b@),
{
    let trim: bool = match c {
        Collation::RTrim => true,
        _ => false,
    };
    let fold: bool = match c {
        Collation::NoCase => true,
        _ => false,
    };
    let la: usize = if trim {
        trimmed_length(a)
    } else {
        a.len()
    };
    let lb: usize = if trim {
        trimmed_length(b)
    } else {
        b.len()
    };
    let ghost ka = collation_key(c, a@);
    let ghost kb = collation_key(c, b@);
    proof {
        lemma_trimmed_len_bound(a@);
        lemma_trimmed_len_bound(b@);
    }
    let mut i: usize = 0;
    assert(ka.skip(0) =~= ka);
    assert(kb.skip(0) =~= kb);
    while i < la && i < lb
        invariant
            i <= la <= a@.len(),
            i <= lb <= b@.len(),
            ka.len() == la,
            kb.len() == lb,
            ka == collation_key(c, a@),
            kb == collation_key(c, b@),
            forall|k: int|
                0 <= k < la ==> ka[k] == if fold {
                    lower(a@[k])
                } else {
                    a@[k]
                },
            forall|k: int|
                0 <= k < lb ==> kb[k] == if fold {
                    lower(b@[k])
                } else {
                    b@[k]
                },
            bytes_order(ka.skip(i as int), kb.skip(i as int)) == bytes_order(ka, kb),
        decreases la - i,
    {
        let x: u8 = if fold {
            lower_byte(a[i])
        } else {
            a[i]
        };
        let y: u8 = if fold {
            lower_byte(b[i])
        } else {
            b[i]
        };
        proof {
            assert(ka.skip(i as int)[0] == x);
            assert(kb.skip(i as int)[0] == y);
            assert(ka.skip(i as int).skip(1) =~= ka.skip(i + 1));
            assert(kb.skip(i as int).skip(1) =~= kb.skip(i + 1));
        }
        if x < y {
            return -1;
        }
        if x > y {
            return 1;
        }
        i = i + 1;
    }
    if i < lb {
        -1
    } else if i < la {
        1
    } else {
        0
    }
}

/// The order of two values under a collation; see [`value_order`].
pub fn compare_values(a: &Value, b: &Value, c: Collation) -> (r: i8)
    ensures
        r == value_order(a@, b@, c),
{
    proof {
        lemma_pow2_pos(1074);
    }
    match (a, b) {
        (Value::Integer(x), Value::Integer(y)) => {
            proof {
                let s = unit_scale();
                assert((*x < *y) == (*x * s < *y * s)) by (nonlinear_arith)
                    requires
                        s > 0,
                ;
                assert((*x == *y) == (*x * s == *y * s)) by (nonlinear_arith)
                    requires
                        s > 0,
                ;
            }
            if *x < *y {
                -1
            } else if *x == *y {
                0
            } else {
                1
            }
        },
        (Value::Integer(x), Value::Real(y)) => y.compare_integer(*x),
        (Value::Real(x), Value::Integer(y)) => -x.compare_integer(*y),
        (Value::Real(x), Value::Real(y)) => {
            if x.less_than(*y) {
                -1
            } else if y.less_than(*x) {
                1
            } else {
                0
            }
        },
        (Value::Integer(_), _) => -1,
        (Value::Real(_), _) => -1,
        (Value::Text(_), Value::Integer(_)) => 1,
        (Value::Text(_), Value::Real(_)) => 1,
        (Value::Text(x), Value::Text(y)) => compare_text(c, x.as_slice(), y.as_slice()),
        (Value::Text(_), Value::Blob(_)) => -1,
        (Value::Blob(x), Value::Blob(y)) => compare_text(
            Collation::Binary,
            x.as_slice(),
            y.as_slice(),
        ),
        (Value::Blob(_), _) => 1,
    }
}

/// The order of two values that may be NULL; see [`nullable_order`].
pub fn compare_nullable(a: &Option<Value>, b: &Option<Value>, c: Collation) -> (r: i8)
    ensures
        r == nullable_order(nullable_view(*a), nullable_view(*b), c),
{
    match (a, b) {
        (None, None) => 0,
        (None, Some(_)) => -1,
        (Some(_), None) => 1,
        (Some(x), Some(y)) => compare_values(x, y, c),
    }
}


/// Two byte strings are in neither order exactly where they are the same.
pub proof fn lemma_bytes_order_equal(a: Seq<u8>, b: Seq<u8>)
    ensures
        (bytes_order(a, b) == 0) == (a == b),
        -1 <= bytes_order(a, b) <= 1,
    decreases a.len(),
{
    if a.len() > 0 && b.len() > 0 {
        lemma_bytes_order_equal(a.skip(1), b.skip(1));
        if a[0] == b[0] {
            if a.skip(1) == b.skip(1) {
                assert(a =~= seq![a[0]] + a.skip(1));
                assert(b =~= seq![b[0]] + b.skip(1));
            }
        }
    } else if a.len() == 0 && b.len() == 0 {
        assert(a =~= b);
    }
}

/// Turning two byte strings round turns their order round.
pub proof fn lemma_bytes_order_reverses(a: Seq<u8>, b: Seq<u8>)
    ensures
        bytes_order(b, a) == -bytes_order(a, b),
    decreases a.len(),
{
    if a.len() > 0 && b.len() > 0 && a[0] == b[0] {
        lemma_bytes_order_reverses(a.skip(1), b.skip(1));
    }
}

/// Where `a` is not behind `b` and `b` not behind `c`, `a` is not behind
/// `c`; and `a` is before `c` where it is before `b` or `b` is before `c`.
pub proof fn lemma_bytes_order_chains(a: Seq<u8>, b: Seq<u8>, c: Seq<u8>)
    requires
        bytes_order(a, b) <= 0,
        bytes_order(b, c) <= 0,
    ensures
        bytes_order(a, c) <= 0,
        bytes_order(a, b) < 0 || bytes_order(b, c) < 0 ==> bytes_order(a, c) < 0,
    decreases a.len(),
{
    if a.len() > 0 && b.len() > 0 && c.len() > 0 {
        if a[0] == b[0] && b[0] == c[0] {
            lemma_bytes_order_chains(a.skip(1), b.skip(1), c.skip(1));
        }
    }
}

/// The order of values is an order. Turning two values round turns their
/// order round, so that no two values are each before the other. Where `a`
/// is not behind `b` and `b` not behind `d`, `a` is not behind `d`, and is
/// before it where either of the two steps is strict. This holds across the
/// storage classes and under every collation. NULL is before every value,
/// and a blob is behind every value that is none.
pub proof fn lemma_value_order_is_total(
    a: Option<ValueView>,
    b: Option<ValueView>,
    d: Option<ValueView>,
    c: Collation,
)
    ensures
        -1 <= nullable_order(a, b, c) <= 1,
        nullable_order(b, a, c) == -nullable_order(a, b, c),
        nullable_order(a, a, c) == 0,
        nullable_order(a, b, c) <= 0 && nullable_order(b, d, c) <= 0 ==> nullable_order(a, d, c)
            <= 0,
        nullable_order(a, b, c) <= 0 && nullable_order(b, d, c) <= 0 && (nullable_order(a, b, c) < 0
            || nullable_order(b, d, c) < 0) ==> nullable_order(a, d, c) < 0,
        a is None && b is Some ==> nullable_order(a, b, c) == -1,
        a is Some && a->0 is Blob && !(b is Some && b->0 is Blob) ==> nullable_order(a, b, c) == 1,
{
    match (a, b) {
        (Some(x), Some(y)) => {
            lemma_value_order_reverses(x, y, c);
        },
        _ => {},
    }
    match a {
        Some(x) => {
            lemma_value_order_reverses(x, x, c);
        },
        None => {},
    }
    match (a, b, d) {
        (Some(x), Some(y), Some(z)) => {
            if value_order(x, y, c) <= 0 && value_order(y, z, c) <= 0 {
                lemma_value_order_chains(x, y, z, c);
            }
        },
        _ => {},
    }
}

/// Turning two values round turns their order round.
pub proof fn lemma_value_order_reverses(a: ValueView, b: ValueView, c: Collation)
    ensures
        value_order(b, a, c) == -value_order(a, b, c),
        -1 <= value_order(a, b, c) <= 1,
{
    match (a, b) {
        (ValueView::Text(x), ValueView::Text(y)) => {
            lemma_bytes_order_reverses(collation_key(c, x), collation_key(c, y));
            lemma_bytes_order_equal(collation_key(c, x), collation_key(c, y));
        },
        (ValueView::Blob(x), ValueView::Blob(y)) => {
            lemma_bytes_order_reverses(x, y);
            lemma_bytes_order_equal(x, y);
        },
        _ => {},
    }
}

/// The order of values carries over from two steps to their sum.
pub proof fn lemma_value_order_chains(a: ValueView, b: ValueView, d: ValueView, c: Collation)
    requires
        value_order(a, b, c) <= 0,
        value_order(b, d, c) <= 0,
    ensures
        value_order(a, d, c) <= 0,
        value_order(a, b, c) < 0 || value_order(b, d, c) < 0 ==> value_order(a, d, c) < 0,
{
    match (a, b, d) {
        (ValueView::Text(x), ValueView::Text(y), ValueView::Text(z)) => {
            lemma_bytes_order_chains(
                collation_key(c, x),
                collation_key(c, y),
                collation_key(c, z),
            );
        },
        (ValueView::Blob(x), ValueView::Blob(y), ValueView::Blob(z)) => {
            lemma_bytes_order_chains(x, y, z);
        },
        _ => {},
    }
}

} // verus!
