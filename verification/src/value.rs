//! Values, and the pool of constants a chunk refers to.
//!
//! A number is carried as the 64 bits of an IEEE-754 binary64 value. Equality,
//! ordering and negation are decided on those bits; nothing here computes
//! with the number itself.
use vstd::prelude::*;
use vstd::string::*;
use crate::object::Obj;
use crate::object::ObjString;
use crate::object::ObjTrait;
use crate::object::printObject;
use crate::text::Fragment;
use crate::text::FragmentView;

verus! {

/// The bit that holds a number's sign.
pub const SIGN_BIT: u64 = 0x8000_0000_0000_0000;

/// The bits of positive infinity: every exponent bit set, no fraction bit.
pub const INFINITY_BITS: u64 = 0x7ff0_0000_0000_0000;

/// A number's bits without the sign.
pub open spec fn magnitude(bits: u64) -> int {
    if bits >= SIGN_BIT {
        bits - SIGN_BIT
    } else {
        bits as int
    }
}

/// Whether the bits encode no number at all: all exponent bits set and a
/// fraction that is not zero.
pub open spec fn is_nan(bits: u64) -> bool {
    magnitude(bits) > INFINITY_BITS
}

/// Where a number stands on the number line, for numbers that are not NaN:
/// the magnitudes of binary64 values grow with their bits, and the sign bit
/// mirrors them. Both zeros stand at 0.
pub open spec fn rank(bits: u64) -> int {
    if bits >= SIGN_BIT {
        -magnitude(bits)
    } else {
        magnitude(bits)
    }
}

/// IEEE equality: NaN equals nothing, the two zeros are equal.
pub open spec fn number_eq(a: u64, b: u64) -> bool {
    !is_nan(a) && !is_nan(b) && rank(a) == rank(b)
}

/// IEEE `<`: false wherever an operand is NaN.
pub open spec fn number_lt(a: u64, b: u64) -> bool {
    !is_nan(a) && !is_nan(b) && rank(a) < rank(b)
}

/// IEEE `>`: false wherever an operand is NaN.
pub open spec fn number_gt(a: u64, b: u64) -> bool {
    number_lt(b, a)
}

/// The bits of the negated number: the sign bit flipped.
pub open spec fn negated(bits: u64) -> u64 {
    if bits >= SIGN_BIT {
        (bits - SIGN_BIT) as u64
    } else {
        (bits + SIGN_BIT) as u64
    }
}

/// A Lox value.
#[derive(Debug)]
pub enum Value {
    BOOL(bool),
    NIL,
    /// The bits of an IEEE-754 binary64 number.
    NUMBER(u64),
    OBJ(Obj),
}

/// What a value is in contracts: a string is its characters.
pub enum ValueView {
    Bool(bool),
    Nil,
    Number(u64),
    Text(Seq<char>),
}

impl View for Value {
    type V = ValueView;

    open spec fn view(&self) -> ValueView {
        match self {
            Value::BOOL(b) => ValueView::Bool(*b),
            Value::NIL => ValueView::Nil,
            Value::NUMBER(bits) => ValueView::Number(*bits),
            Value::OBJ(obj) => ValueView::Text(obj@),
        }
    }
}

impl Clone for Value {
    fn clone(&self) -> (copy: Self)
        ensures
            copy@ == self@,
    {
        match self {
            Value::BOOL(b) => Value::BOOL(*b),
            Value::NIL => Value::NIL,
            Value::NUMBER(bits) => Value::NUMBER(*bits),
            Value::OBJ(obj) => Value::OBJ(obj.clone()),
        }
    }
}

impl PartialEq for Value {
    fn eq(&self, other: &Self) -> (equal: bool) {
        valuesEqual(self, other)
    }
}

impl vstd::std_specs::cmp::PartialEqSpecImpl for Value {
    open spec fn obeys_eq_spec() -> bool {
        true
    }

    open spec fn eq_spec(&self, other: &Self) -> bool {
        values_equal(self@, other@)
    }
}

/// Equality of values: the same variant and equal payloads. Numbers compare
/// as IEEE numbers, strings by content.
pub open spec fn values_equal(a: ValueView, b: ValueView) -> bool {
    match (a, b) {
        (ValueView::Bool(x), ValueView::Bool(y)) => x == y,
        (ValueView::Nil, ValueView::Nil) => true,
        (ValueView::Number(x), ValueView::Number(y)) => number_eq(x, y),
        (ValueView::Text(x), ValueView::Text(y)) => x == y,
        _ => false,
    }
}

/// `nil` and `false` are falsey; every other value is truthy.
pub open spec fn is_falsey(value: ValueView) -> bool {
    value == ValueView::Nil || value == ValueView::Bool(false)
}

/// Whether the bits encode NaN.
pub fn numberIsNan(bits: u64) -> (yes: bool)
    ensures
        yes == is_nan(bits),
{
    let unsigned: u64 = if bits >= SIGN_BIT {
        bits - SIGN_BIT
    } else {
        bits
    };
    unsigned > INFINITY_BITS
}

/// IEEE equality of two numbers.
pub fn numbersEqual(a: u64, b: u64) -> (yes: bool)
    ensures
        yes == number_eq(a, b),
{
    if numberIsNan(a) || numberIsNan(b) {
        false
    } else {
        let a_size: u64 = if a >= SIGN_BIT {
            a - SIGN_BIT
        } else {
            a
        };
        let b_size: u64 = if b >= SIGN_BIT {
            b - SIGN_BIT
        } else {
            b
        };
        a == b || (a_size == 0 && b_size == 0)
    }
}

/// IEEE `a < b`.
pub fn numberLess(a: u64, b: u64) -> (yes: bool)
    ensures
        yes == number_lt(a, b),
{
    if numberIsNan(a) || numberIsNan(b) {
        false
    } else if a >= SIGN_BIT {
        if b >= SIGN_BIT {
            b < a
        } else {
            a > SIGN_BIT || b > 0
        }
    } else {
        b < SIGN_BIT && a < b
    }
}

/// IEEE `a > b`.
pub fn numberGreater(a: u64, b: u64) -> (yes: bool)
    ensures
        yes == number_gt(a, b),
{
    numberLess(b, a)
}

/// The negated number.
pub fn numberNegate(bits: u64) -> (flipped: u64)
    ensures
        flipped == negated(bits),
{
    if bits >= SIGN_BIT {
        bits - SIGN_BIT
    } else {
        bits + SIGN_BIT
    }
}

/// The boolean inside a value, if the value is one.
pub fn AS_BOOL(value: &Value) -> (b: Option<bool>)
    ensures
        match b {
            Some(inner) => value@ == ValueView::Bool(inner),
            None => !(value@ is Bool),
        },
{
    if let Value::BOOL(b) = value {
        Some(*b)
    } else {
        None
    }
}

/// Whether a value is `nil`.
pub fn IS_NIL(value: &Value) -> (yes: bool)
    ensures
        yes == (value@ is Nil),
{
    if let Value::NIL = value {
        true
    } else {
        false
    }
}

/// The bits of the number inside a value, if the value is a number.
pub fn AS_NUMBER(value: &Value) -> (n: Option<u64>)
    ensures
        match n {
            Some(bits) => value@ == ValueView::Number(bits),
            None => !(value@ is Number),
        },
{
    if let Value::NUMBER(n) = value {
        Some(*n)
    } else {
        None
    }
}

/// Whether a value is a number.
pub fn IS_NUMBER(value: &Value) -> (yes: bool)
    ensures
        yes == (value@ is Number),
{
    AS_NUMBER(value).is_some()
}

/// The object inside a value, if the value is one.
pub fn AS_OBJ(value: &Value) -> (obj: Option<&Obj>)
    ensures
        match obj {
            Some(found) => value@ == ValueView::Text(found@) && *value == Value::OBJ(*found),
            None => !(value@ is Text),
        },
{
    if let Value::OBJ(obj) = value {
        Some(obj)
    } else {
        None
    }
}

/// Whether a value is an object.
pub fn IS_OBJ(value: &Value) -> (yes: bool)
    ensures
        yes == (value@ is Text),
{
    AS_OBJ(value).is_some()
}

impl ObjTrait<ObjString> for Obj {
    fn VAL(object: ObjString) -> (value: Value)
        ensures
            value@ == ValueView::Text(object@),
            value == Value::OBJ(Obj::STRING(object)),
    {
        Value::OBJ(Obj::STRING(object))
    }
}

/// A growable sequence of values.
#[derive(Debug)]
pub struct ValueArray {
    pub values: Vec<Value>,
}

/// The views of a run of values, in order.
pub open spec fn value_views(values: Seq<Value>) -> Seq<ValueView> {
    values.map_values(|v: Value| v@)
}

impl View for ValueArray {
    type V = Seq<ValueView>;

    open spec fn view(&self) -> Seq<ValueView> {
        value_views(self.values@)
    }
}

impl ValueArray {
    /// The number of values held.
    pub fn count(&self) -> (n: usize)
        ensures
            n == self@.len(),
    {
        self.values.len()
    }
}

/// Whether two values are equal.
pub fn valuesEqual(a: &Value, b: &Value) -> (yes: bool)
    ensures
        yes == values_equal(a@, b@),
{
    match (a, b) {
        (Value::BOOL(x), Value::BOOL(y)) => *x == *y,
        (Value::NIL, Value::NIL) => true,
        (Value::NUMBER(x), Value::NUMBER(y)) => numbersEqual(*x, *y),
        (Value::OBJ(Obj::STRING(x)), Value::OBJ(Obj::STRING(y))) => x.s == y.s,
        _ => false,
    }
}

/// An empty array.
pub fn initValueArray() -> (array: ValueArray)
    ensures
        array@ == Seq::<ValueView>::empty(),
        array.values@.len() == 0,
{
    let array = ValueArray { values: Vec::new() };
    assert(array@ =~= Seq::<ValueView>::empty());
    array
}

/// Appends `value`.
pub fn writeValueArray(array: &mut ValueArray, value: Value)
    ensures
        final(array)@ == old(array)@.push(value@),
        final(array).values@ == old(array).values@.push(value),
{
    array.values.push(value);
    assert(array@ =~= old(array)@.push(value@));
}

/// What printing a value shows: `true` or `false`, `nil`, a string's raw
/// contents. A number comes back as its bits, for the caller to format.
pub fn printValue(value: &Value) -> (shown: Fragment)
    ensures
        shown@ == shown_value(value@),
{
    proof {
        reveal_strlit("true");
        reveal_strlit("false");
        reveal_strlit("nil");
    }
    match value {
        Value::BOOL(b) => {
            if *b {
                Fragment::Text(String::from_str("true"))
            } else {
                Fragment::Text(String::from_str("false"))
            }
        },
        Value::NIL => Fragment::Text(String::from_str("nil")),
        Value::NUMBER(n) => Fragment::Number(*n),
        Value::OBJ(obj) => Fragment::Text(printObject(obj)),
    }
}

/// The fragment that shows a value.
pub open spec fn shown_value(value: ValueView) -> FragmentView {
    match value {
        ValueView::Bool(b) => FragmentView::Text(
            if b {
                "true"@
            } else {
                "false"@
            },
        ),
        ValueView::Nil => FragmentView::Text("nil"@),
        ValueView::Number(bits) => FragmentView::Number(bits),
        ValueView::Text(chars) => FragmentView::Text(chars),
    }
}

} // verus!
