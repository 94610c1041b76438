use vstd::prelude::*;

use crate::interpreter::binary64::Real;
use crate::interpreter::decimal::{integer_text, integer_to_text};
use crate::interpreter::numeric::{
    leading_integer, leading_number, parse_integer, parse_number, Number,
};

verus! {

/// The storage class that a column prefers. It never changes what is stored;
/// it decides how values are converted before they are compared or cast.
#[derive(Clone, Copy, Debug, PartialEq, Eq, Structural)]
pub enum TypeAffinity {
    Integer,
    Text,
    Blob,
    Real,
    Numeric,
}

/// A value as a cell stores it. The absence of a value, NULL, is the `None`
/// of an `Option<Value>`.
#[derive(Clone, Debug, PartialEq, Eq)]
pub enum Value {
    Integer(i64),
    Real(Real),
    Text(Vec<u8>),
    Blob(Vec<u8>),
}

/// What a [`Value`] holds.
pub enum ValueView {
    Integer(i64),
    Real(Real),
    Text(Seq<u8>),
    Blob(Seq<u8>),
}

impl View for Value {
    type V = ValueView;

    open spec fn view(&self) -> ValueView {
        match self {
            Value::Integer(i) => ValueView::Integer(*i),
            Value::Real(r) => ValueView::Real(*r),
            Value::Text(t) => ValueView::Text(t@),
            Value::Blob(b) => ValueView::Blob(b@),
        }
    }
}

/// What a value that may be NULL holds.
pub open spec fn nullable_view(v: Option<Value>) -> Option<ValueView> {
    match v {
        Some(x) => Some(x@),
        None => None,
    }
}

/// A value written in an expression.
#[derive(Clone, Debug, PartialEq, Eq)]
pub enum ConstantValue {
    Integer(i64),
    Real(Real),
    Text(Vec<u8>),
    Blob(Vec<u8>),
}

impl View for ConstantValue {
    type V = ValueView;

    open spec fn view(&self) -> ValueView {
        match self {
            ConstantValue::Integer(i) => ValueView::Integer(*i),
            ConstantValue::Real(r) => ValueView::Real(*r),
            ConstantValue::Text(t) => ValueView::Text(t@),
            ConstantValue::Blob(b) => ValueView::Blob(b@),
        }
    }
}

/// A copy of `bytes`.
pub fn copy_bytes(bytes: &Vec<u8>) -> (r: Vec<u8>)
    ensures
        r@ == bytes@,
{
    let mut out: Vec<u8> = Vec::new();
    out.extend_from_slice(bytes.as_slice());
    assert(out@ =~= bytes@);
    out
}

impl ConstantValue {
    /// The constant as a value.
    pub fn as_value(&self) -> (r: Value)
        ensures
            r@ == self@,
    {
        match self {
            ConstantValue::Integer(i) => Value::Integer(*i),
            ConstantValue::Real(r) => Value::Real(*r),
            ConstantValue::Text(t) => Value::Text(copy_bytes(t)),
            ConstantValue::Blob(b) => Value::Blob(copy_bytes(b)),
        }
    }
}

impl ValueView {
    /// The value after conversion towards a number: a text or a blob that
    /// begins with a number becomes that number, whatever follows it; every
    /// other value stays what it is.
    pub open spec fn with_numeric_affinity(self) -> ValueView {
        match self {
            ValueView::Text(t) | ValueView::Blob(t) => match leading_number(t) {
                Some(Number::Integer(i)) => ValueView::Integer(i),
                Some(Number::Real(r)) => ValueView::Real(r),
                None => self,
            },
            _ => self,
        }
    }

    /// The value after conversion towards text: a number becomes its decimal
    /// text; every other value stays what it is.
    pub open spec fn with_text_affinity(self) -> ValueView {
        match self {
            ValueView::Integer(i) => ValueView::Text(integer_text(i)),
            ValueView::Real(r) => ValueView::Text(r.text()),
            _ => self,
        }
    }

    /// The bytes of the value as text: the decimal text of a number, the
    /// bytes of a text or a blob.
    pub open spec fn text_bytes(self) -> Seq<u8> {
        match self {
            ValueView::Integer(i) => integer_text(i),
            ValueView::Real(r) => r.text(),
            ValueView::Text(t) => t,
            ValueView::Blob(b) => b,
        }
    }

    /// The value as an integer: a real without its fraction, a text or a blob
    /// as far as it begins with an integer.
    pub open spec fn integer_value(self) -> int {
        match self {
            ValueView::Integer(i) => i as int,
            ValueView::Real(r) => r.truncated(),
            ValueView::Text(t) => leading_integer(t),
            ValueView::Blob(b) => leading_integer(b),
        }
    }

    /// The value as a real: the real nearest to an integer, the number that
    /// a text or a blob begins with, zero where it begins with none.
    pub open spec fn real_value(self) -> Real {
        match self {
            ValueView::Integer(i) => Real::nearest_to_integer(i),
            ValueView::Real(r) => r,
            ValueView::Text(t) | ValueView::Blob(t) => match leading_number(t) {
                Some(Number::Integer(i)) => Real::nearest_to_integer(i),
                Some(Number::Real(r)) => r,
                None => Real { bits: 0 },
            },
        }
    }

    /// The value as a number of either kind: an integer wherever that loses
    /// nothing, and a real elsewhere. A text or a blob counts as the number
    /// that it begins with, and as zero where it begins with none.
    pub open spec fn numeric(self) -> ValueView {
        match self {
            ValueView::Integer(i) => self,
            ValueView::Real(r) => lossless(r),
            ValueView::Text(t) | ValueView::Blob(t) => match leading_number(t) {
                Some(Number::Integer(i)) => ValueView::Integer(i),
                Some(Number::Real(r)) => lossless(r),
                None => ValueView::Integer(0),
            },
        }
    }

    /// The value forced into the storage class of `affinity`, as a cast
    /// does. No input is refused.
    pub open spec fn cast(self, affinity: TypeAffinity) -> ValueView {
        match affinity {
            TypeAffinity::Integer => ValueView::Integer(self.integer_value() as i64),
            TypeAffinity::Real => ValueView::Real(self.real_value()),
            TypeAffinity::Text => ValueView::Text(self.text_bytes()),
            TypeAffinity::Blob => ValueView::Blob(self.text_bytes()),
            TypeAffinity::Numeric => self.numeric(),
        }
    }
}

/// The integer that `r` equals, where it equals one in the range of `i64`;
/// `r` itself elsewhere.
pub open spec fn lossless(r: Real) -> ValueView {
    if r.integer_order(r.truncated() as i64) == 0 {
        ValueView::Integer(r.truncated() as i64)
    } else {
        ValueView::Real(r)
    }
}

fn lossless_value(r: Real) -> (v: Value)
    ensures
        v@ == lossless(r),
{
    let t: i64 = r.to_integer();
    if r.compare_integer(t) == 0 {
        Value::Integer(t)
    } else {
        Value::Real(r)
    }
}

impl Value {
    /// A copy of the value.
    pub fn duplicate(&self) -> (r: Value)
        ensures
            r@ == self@,
    {
        match self {
            Value::Integer(i) => Value::Integer(*i),
            Value::Real(r) => Value::Real(*r),
            Value::Text(t) => Value::Text(copy_bytes(t)),
            Value::Blob(b) => Value::Blob(copy_bytes(b)),
        }
    }

    /// Converts the value towards a number, as a comparison with a numeric
    /// column does.
    pub fn apply_numeric_affinity(self) -> (r: Value)
        ensures
            r@ == self@.with_numeric_affinity(),
    {
        match self {
            Value::Text(t) => match parse_number(t.as_slice()) {
                Some(Number::Integer(i)) => Value::Integer(i),
                Some(Number::Real(r)) => Value::Real(r),
                None => Value::Text(t),
            },
            Value::Blob(t) => match parse_number(t.as_slice()) {
                Some(Number::Integer(i)) => Value::Integer(i),
                Some(Number::Real(r)) => Value::Real(r),
                None => Value::Blob(t),
            },
            other => other,
        }
    }

    /// Converts the value towards text, as a comparison with a text column
    /// does.
    pub fn apply_text_affinity(self) -> (r: Value)
        ensures
            r@ == self@.with_text_affinity(),
    {
        match self {
            Value::Integer(i) => Value::Text(integer_to_text(i)),
            Value::Real(r) => Value::Text(r.to_text()),
            other => other,
        }
    }

    /// The bytes of the value as text.
    pub fn force_text_buffer(self) -> (r: Vec<u8>)
        ensures
            r@ == self@.text_bytes(),
    {
        match self {
            Value::Integer(i) => integer_to_text(i),
            Value::Real(r) => r.to_text(),
            Value::Text(t) => t,
            Value::Blob(b) => b,
        }
    }

    /// The value as an integer.
    pub fn as_integer(&self) -> (r: i64)
        ensures
            r == self@.integer_value(),
    {
        match self {
            Value::Integer(i) => *i,
            Value::Real(r) => r.to_integer(),
            Value::Text(t) => parse_integer(t.as_slice()),
            Value::Blob(b) => parse_integer(b.as_slice()),
        }
    }

    /// Forces the value into the storage class of `type_affinity`.
    pub fn force_apply_type_affinity(self, type_affinity: TypeAffinity) -> (r: Value)
        ensures
            r@ == self@.cast(type_affinity),
    {
        match type_affinity {
            TypeAffinity::Integer => Value::Integer(self.as_integer()),
            TypeAffinity::Real => match self {
                Value::Integer(i) => Value::Real(Real::from_integer(i)),
                Value::Real(r) => Value::Real(r),
                Value::Text(t) => Value::Real(leading_real(t.as_slice())),
                Value::Blob(t) => Value::Real(leading_real(t.as_slice())),
            },
            TypeAffinity::Text => Value::Text(self.force_text_buffer()),
            TypeAffinity::Blob => Value::Blob(self.force_text_buffer()),
            TypeAffinity::Numeric => match self {
                Value::Integer(i) => Value::Integer(i),
                Value::Real(r) => lossless_value(r),
                Value::Text(t) => leading_numeric(t.as_slice()),
                Value::Blob(t) => leading_numeric(t.as_slice()),
            },
        }
    }
}

fn leading_real(t: &[u8]) -> (r: Real)
    ensures
        r == ValueView::Text(t@).real_value(),
{
    match parse_number(t) {
        Some(Number::Integer(i)) => Real::from_integer(i),
        Some(Number::Real(r)) => r,
        None => Real::from_bits(0),
    }
}

fn leading_numeric(t: &[u8]) -> (v: Value)
    ensures
        v@ == ValueView::Text(t@).numeric(),
{
    match parse_number(t) {
        Some(Number::Integer(i)) => Value::Integer(i),
        Some(Number::Real(r)) => lossless_value(r),
        None => Value::Integer(0),
    }
}

} // verus!
