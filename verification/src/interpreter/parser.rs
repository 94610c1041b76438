use vstd::prelude::*;

use crate::interpreter::binary64::Real;

verus! {

#[derive(Clone, Copy, Debug, PartialEq, Eq, Structural)]
pub enum UnaryOp {
    /// `~`
    BitNot,
    /// `-`
    Minus,
}

#[derive(Clone, Copy, Debug, PartialEq, Eq, Structural)]
pub enum CompareOp {
    Eq,
    Ne,
    Lt,
    Le,
    Gt,
    Ge,
}

#[derive(Clone, Copy, Debug, PartialEq, Eq, Structural)]
pub enum BinaryOp {
    Compare(CompareOp),
    /// `||`
    Concat,
}

/// An expression as the parser hands it over. Names and text literals are
/// the bytes of their tokens, with the quotes where they had any; a blob
/// literal is the hexadecimal digits between its quotes.
#[derive(Debug, PartialEq, Eq)]
pub enum Expr {
    Column(Vec<u8>),
    UnaryOperator { operator: UnaryOp, expr: Box<Expr> },
    Collate { expr: Box<Expr>, collation_name: Vec<u8> },
    BinaryOperator { operator: BinaryOp, left: Box<Expr>, right: Box<Expr> },
    Cast { expr: Box<Expr>, declared_type: Vec<u8> },
    Null,
    Integer(i64),
    Real(Real),
    Text(Vec<u8>),
    Blob(Vec<u8>),
}

/// The three characters that quote a name or a text.
pub open spec fn is_quote(b: u8) -> bool {
    b == 34 || b == 39 || b == 96
}

/// The bytes from `i` up to `end` of a quoted token, each doubled quote
/// taken as one.
pub open spec fn unquoted(s: Seq<u8>, quote: u8, i: int, end: int) -> Seq<u8>
    decreases end + 1 - i,
{
    if i >= end || i < 0 || i >= s.len() {
        Seq::<u8>::empty()
    } else if s[i] == quote {
        seq![quote] + unquoted(s, quote, i + 2, end)
    } else {
        seq![s[i]] + unquoted(s, quote, i + 1, end)
    }
}

/// What a token stands for: where it begins with a quote, the bytes between
/// its first and its last byte with each doubled quote taken as one; the
/// token itself elsewhere.
pub open spec fn dequoted(s: Seq<u8>) -> Seq<u8> {
    if s.len() >= 2 && is_quote(s[0]) {
        unquoted(s, s[0], 1, s.len() - 1)
    } else {
        s
    }
}

/// What a token stands for; see [`dequoted`].
pub fn dequote(token: &[u8]) -> (r: Vec<u8>)
    ensures
        r@ == dequoted(token@),
{
    let n: usize = token.len();
    let mut out: Vec<u8> = Vec::new();
    if n >= 2 && (token[0] == 34 || token[0] == 39 || token[0] == 96) {
        let quote: u8 = token[0];
        let end: usize = n - 1;
        let mut i: usize = 1;
        assert(out@ + unquoted(token@, quote, 1, end as int) =~= unquoted(
            token@,
            quote,
            1,
            end as int,
        ));
        while i < end
            invariant
                1 <= i <= end + 1,
                end == n - 1,
                n == token@.len(),
                out@ + unquoted(token@, quote, i as int, end as int) == unquoted(
                    token@,
                    quote,
                    1,
                    end as int,
                ),
            decreases end + 1 - i,
        {
            let b: u8 = token[i];
            let ghost before = out@;
            out.push(b);
            if b == quote {
                assert(out@ + unquoted(token@, quote, i + 2, end as int) =~= before + unquoted(
                    token@,
                    quote,
                    i as int,
                    end as int,
                ));
                i = i + 2;
            } else {
                assert(out@ + unquoted(token@, quote, i + 1, end as int) =~= before + unquoted(
                    token@,
                    quote,
                    i as int,
                    end as int,
                ));
                i = i + 1;
            }
        }
        assert(out@ =~= out@ + unquoted(token@, quote, i as int, end as int));
        out
    } else {
        out.extend_from_slice(token);
        assert(out@ =~= token@);
        out
    }
}

/// The worth of a hexadecimal digit; zero for a byte that is none.
pub open spec fn hex_value(b: u8) -> int {
    if 48 <= b <= 57 {
        b - 48
    } else if 97 <= b <= 102 {
        b - 87
    } else if 65 <= b <= 70 {
        b - 55
    } else {
        0
    }
}

/// The bytes that pairs of hexadecimal digits write. A digit left over at
/// the end is not read.
pub open spec fn hex_decoded(s: Seq<u8>) -> Seq<u8> {
    Seq::new(s.len() / 2, |i: int| (hex_value(s[2 * i]) * 16 + hex_value(s[2 * i + 1])) as u8)
}

fn hex_digit(b: u8) -> (r: u8)
    ensures
        r == hex_value(b),
        r < 16,
{
    if 48 <= b && b <= 57 {
        b - 48
    } else if 97 <= b && b <= 102 {
        b - 87
    } else if 65 <= b && b <= 70 {
        b - 55
    } else {
        0
    }
}

/// The bytes that the hexadecimal digits write; see [`hex_decoded`].
pub fn decode_hex(digits: &[u8]) -> (r: Vec<u8>)
    ensures
        r@ == hex_decoded(digits@),
{
    let n: usize = digits.len() / 2;
    let mut out: Vec<u8> = Vec::new();
    let mut i: usize = 0;
    while i < n
        invariant
            i <= n,
            n == digits@.len() / 2,
            digits@.len() <= usize::MAX,
            out@.len() == i,
            forall|k: int| 0 <= k < i ==> out@[k] == hex_decoded(digits@)[k],
        decreases n - i,
    {
        assert(2 * i + 1 < digits@.len());
        let high: u8 = hex_digit(digits[2 * i]);
        let low: u8 = hex_digit(digits[2 * i + 1]);
        out.push(high * 16 + low);
        i = i + 1;
    }
    assert(out@ =~= hex_decoded(digits@));
    out
}

} // verus!
