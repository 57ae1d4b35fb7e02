//! Runtime values. Numbers are IEEE-754 single-precision floats, held as
//! their 32-bit encoding.
use vstd::prelude::*;
use crate::object::{object_chars, ObjectValue};

verus! {

/// The kind of a value.
#[derive(Debug, Clone, Copy, PartialEq, Eq, Structural)]
pub enum ValueType {
    Bool,
    Nil,
    Number,
    Object,
}

/// A runtime value. A number is the bit pattern of an `f32`; an object is
/// the string it holds.
#[derive(Debug)]
pub enum Value {
    Bool(bool),
    Nil,
    Number(u32),
    Object(ObjectValue),
}

/// The sign bit of an `f32` encoding.
pub const SIGN_BIT: u32 = 0x8000_0000;

/// Whether the encoding `b` is a NaN: exponent all ones, fraction not zero.
pub open spec fn is_nan_bits(b: u32) -> bool {
    &&& (b / 0x80_0000) % 0x100 == 0xff
    &&& b % 0x80_0000 != 0
}

/// A key that orders the non-NaN encodings as the floats they stand for;
/// both zeros get key 0.
pub open spec fn order_key(b: u32) -> int {
    if b < SIGN_BIT {
        b as int
    } else {
        -((b - SIGN_BIT) as int)
    }
}

/// Float equality on encodings: no NaN is equal to anything, `0 == -0`.
pub open spec fn num_eq(a: u32, b: u32) -> bool {
    !is_nan_bits(a) && !is_nan_bits(b) && order_key(a) == order_key(b)
}

/// Float `<` on encodings: false whenever a NaN is involved.
pub open spec fn num_lt(a: u32, b: u32) -> bool {
    !is_nan_bits(a) && !is_nan_bits(b) && order_key(a) < order_key(b)
}

/// Float negation on encodings: the sign bit flips.
pub open spec fn num_neg(b: u32) -> u32 {
    if b < SIGN_BIT {
        (b + SIGN_BIT) as u32
    } else {
        (b - SIGN_BIT) as u32
    }
}

/// Whether `b` encodes a NaN.
pub fn number_is_nan(b: u32) -> (r: bool)
    ensures
        r == is_nan_bits(b),
{
    (b / 0x80_0000) % 0x100 == 0xff && b % 0x80_0000 != 0
}

/// The float `-b`.
pub fn number_neg(b: u32) -> (r: u32)
    ensures
        r == num_neg(b),
{
    if b < SIGN_BIT {
        b + SIGN_BIT
    } else {
        b - SIGN_BIT
    }
}

/// Float `a == b`.
pub fn number_eq(a: u32, b: u32) -> (r: bool)
    ensures
        r == num_eq(a, b),
{
    if number_is_nan(a) || number_is_nan(b) {
        false
    } else if a < SIGN_BIT && b < SIGN_BIT || a >= SIGN_BIT && b >= SIGN_BIT {
        a == b
    } else {
        // opposite signs: equal only as the two zeros
        a % SIGN_BIT == 0 && b % SIGN_BIT == 0
    }
}

/// Float `a < b`.
pub fn number_lt(a: u32, b: u32) -> (r: bool)
    ensures
        r == num_lt(a, b),
{
    if number_is_nan(a) || number_is_nan(b) {
        false
    } else if a < SIGN_BIT && b < SIGN_BIT {
        a < b
    } else if a >= SIGN_BIT && b >= SIGN_BIT {
        a > b
    } else if a >= SIGN_BIT {
        // a negative, b positive: only -0 < +0 fails
        !(a == SIGN_BIT && b == 0)
    } else {
        false
    }
}

/// The kind of a value.
pub open spec fn kind_of(v: Value) -> ValueType {
    match v {
        Value::Bool(_) => ValueType::Bool,
        Value::Nil => ValueType::Nil,
        Value::Number(_) => ValueType::Number,
        Value::Object(_) => ValueType::Object,
    }
}

/// `nil` and `false` are falsey; every other value is truthy.
pub open spec fn falsey(v: Value) -> bool {
    v is Nil || v == Value::Bool(false)
}

/// Equality of values: different kinds are unequal, `nil == nil`, numbers
/// compare as floats, booleans by value, strings by their characters.
pub open spec fn values_equal(a: Value, b: Value) -> bool {
    match (a, b) {
        (Value::Bool(x), Value::Bool(y)) => x == y,
        (Value::Nil, Value::Nil) => true,
        (Value::Number(x), Value::Number(y)) => num_eq(x, y),
        (Value::Object(x), Value::Object(y)) => object_chars(x) == object_chars(y),
        _ => false,
    }
}

/// Whether `v` is a number that encodes NaN.
pub open spec fn is_nan_value(v: Value) -> bool {
    match v {
        Value::Number(b) => is_nan_bits(b),
        _ => false,
    }
}

/// Value equality is reflexive on every value but a NaN, symmetric, and
/// false between values of different kinds.
pub proof fn lemma_is_equal_laws(a: Value, b: Value)
    ensures
        !is_nan_value(a) ==> values_equal(a, a),
        values_equal(a, b) == values_equal(b, a),
        kind_of(a) != kind_of(b) ==> !values_equal(a, b),
{
}

impl Value {
    /// The boolean `value`.
    pub fn bool(value: bool) -> (r: Value)
        ensures
            r == Value::Bool(value),
    {
        Value::Bool(value)
    }

    /// `nil`.
    pub fn nil() -> (r: Value)
        ensures
            r == Value::Nil,
    {
        Value::Nil
    }

    /// The number whose `f32` encoding is `bits`.
    pub fn number(bits: u32) -> (r: Value)
        ensures
            r == Value::Number(bits),
    {
        Value::Number(bits)
    }

    /// The string object `object`.
    pub fn object(object: ObjectValue) -> (r: Value)
        ensures
            r == Value::Object(object),
    {
        Value::Object(object)
    }

    /// The kind of this value.
    pub fn ty(&self) -> (r: ValueType)
        ensures
            r == kind_of(*self),
    {
        match self {
            Value::Bool(_) => ValueType::Bool,
            Value::Nil => ValueType::Nil,
            Value::Number(_) => ValueType::Number,
            Value::Object(_) => ValueType::Object,
        }
    }

    /// The same value again; strings are copied.
    pub fn duplicate(&self) -> (r: Value)
        ensures
            r == *self,
    {
        match self {
            Value::Bool(b) => Value::Bool(*b),
            Value::Nil => Value::Nil,
            Value::Number(n) => Value::Number(*n),
            Value::Object(o) => Value::Object(
                match o {
                    ObjectValue::Str(s) => ObjectValue::Str(s.clone()),
                    ObjectValue::String(s) => ObjectValue::String(s.clone()),
                },
            ),
        }
    }

    /// The payload of a boolean.
    pub fn as_bool(&self) -> (r: bool)
        requires
            self is Bool,
        ensures
            r == self->Bool_0,
    {
        match self {
            Value::Bool(b) => *b,
            _ => false,
        }
    }

    /// The `f32` encoding of a number.
    pub fn as_number(&self) -> (r: u32)
        requires
            self is Number,
        ensures
            r == self->Number_0,
    {
        match self {
            Value::Number(n) => *n,
            _ => 0,
        }
    }

    /// The payload of an object.
    pub fn as_object(&self) -> (r: &ObjectValue)
        requires
            self is Object,
        ensures
            *r == self->Object_0,
    {
        match self {
            Value::Object(o) => o,
            _ => unreached(),
        }
    }

    /// The characters of a string value.
    pub fn as_string(&self) -> (r: &String)
        requires
            self is Object,
        ensures
            r@ == object_chars(self->Object_0),
    {
        self.as_object().string()
    }

    /// Whether this is a number.
    pub fn is_number(&self) -> (r: bool)
        ensures
            r == (*self is Number),
    {
        matches!(self, Value::Number(_))
    }

    /// Whether this is a boolean.
    pub fn is_bool(&self) -> (r: bool)
        ensures
            r == (*self is Bool),
    {
        matches!(self, Value::Bool(_))
    }

    /// Whether this is `nil`.
    pub fn is_nil(&self) -> (r: bool)
        ensures
            r == (*self is Nil),
    {
        matches!(self, Value::Nil)
    }

    /// Whether this is `nil` or `false`.
    pub fn is_falsey(&self) -> (r: bool)
        ensures
            r == falsey(*self),
    {
        self.is_nil() || self.is_bool() && !self.as_bool()
    }

    /// Whether this is an object.
    pub fn is_object(&self) -> (r: bool)
        ensures
            r == (*self is Object),
    {
        matches!(self, Value::Object(_))
    }

    /// Whether this is a string object; every object is one.
    pub fn is_string(&self) -> (r: bool)
        ensures
            r == (*self is Object),
    {
        self.is_object()
    }

    /// Equality of values; see `values_equal`.
    pub fn is_equal(&self, other: &Value) -> (r: bool)
        ensures
            r == values_equal(*self, *other),
    {
        match (self, other) {
            (Value::Bool(x), Value::Bool(y)) => *x == *y,
            (Value::Nil, Value::Nil) => true,
            (Value::Number(x), Value::Number(y)) => number_eq(*x, *y),
            (Value::Object(x), Value::Object(y)) => *x.string() == *y.string(),
            _ => false,
        }
    }
}

} // verus!
