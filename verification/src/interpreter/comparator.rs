use std::cmp::Ordering;
use vstd::prelude::*;

use crate::interpreter::collate::{compare_values, value_order, Collation};
use crate::interpreter::value::Value;

verus! {

/// A value together with the collation under which it is compared with
/// others.
#[derive(Debug)]
pub struct ValueCmp<'a> {
    pub value: &'a Value,
    pub collation: &'a Collation,
}

/// The order that a sign stands for.
pub open spec fn ordering_of(order: int) -> Ordering {
    if order < 0 {
        Ordering::Less
    } else if order == 0 {
        Ordering::Equal
    } else {
        Ordering::Greater
    }
}

impl<'a> ValueCmp<'a> {
    pub fn new(value: &'a Value, collation: &'a Collation) -> (r: Self)
        ensures
            r.value == value,
            r.collation == collation,
    {
        ValueCmp { value, collation }
    }

    /// How the value stands to `other` in the order of values, under the
    /// collation; see [`value_order`].
    pub fn compare(&self, other: &Value) -> (r: Ordering)
        ensures
            r == ordering_of(value_order(self.value@, other@, *self.collation)),
    {
        let order: i8 = compare_values(self.value, other, *self.collation);
        if order < 0 {
            Ordering::Less
        } else if order == 0 {
            Ordering::Equal
        } else {
            Ordering::Greater
        }
    }
}

} // verus!
