//! Scalar payloads: the value that one tree node can carry.

use vstd::prelude::*;

verus! {

/// A scalar carried by one node: null, boolean, integer, floating point
/// (stored by its bit pattern, so that comparison is exact), or string.
#[derive(Debug, PartialEq)]
pub enum Value {
    Null,
    Bool(bool),
    I64(i64),
    U64(u64),
    F64Bits(u64),
    Str(String),
}

/// Equality of two scalars, comparing strings by their contents.
pub open spec fn val_eq(a: Value, b: Value) -> bool {
    match (a, b) {
        (Value::Null, Value::Null) => true,
        (Value::Bool(x), Value::Bool(y)) => x == y,
        (Value::I64(x), Value::I64(y)) => x == y,
        (Value::U64(x), Value::U64(y)) => x == y,
        (Value::F64Bits(x), Value::F64Bits(y)) => x == y,
        (Value::Str(x), Value::Str(y)) => x@ == y@,
        _ => false,
    }
}

impl Clone for Value {
    fn clone(&self) -> (r: Value)
        ensures
            r == *self,
    {
        match self {
            Value::Null => Value::Null,
            Value::Bool(b) => Value::Bool(*b),
            Value::I64(v) => Value::I64(*v),
            Value::U64(v) => Value::U64(*v),
            Value::F64Bits(v) => Value::F64Bits(*v),
            Value::Str(s) => Value::Str(s.clone()),
        }
    }
}

impl Value {
    /// Compares two scalars for conflict detection; strings compare by
    /// contents.
    pub fn eq_value(&self, other: &Value) -> (r: bool)
        ensures
            r == val_eq(*self, *other),
    {
        match (self, other) {
            (Value::Null, Value::Null) => true,
            (Value::Bool(x), Value::Bool(y)) => x == y,
            (Value::I64(x), Value::I64(y)) => x == y,
            (Value::U64(x), Value::U64(y)) => x == y,
            (Value::F64Bits(x), Value::F64Bits(y)) => x == y,
            (Value::Str(x), Value::Str(y)) => x.eq(y),
            _ => false,
        }
    }

    /// Returns true if this scalar is null.
    pub fn is_null(&self) -> (r: bool)
        ensures
            r == (*self matches Value::Null),
    {
        match self {
            Value::Null => true,
            _ => false,
        }
    }
}

} // verus!
