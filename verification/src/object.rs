//! Heap objects. Strings are the only kind.
use vstd::prelude::*;
use vstd::string::*;
use vstd::utf8::*;
use crate::value::Value;
use crate::value::ValueView;

verus! {

/// A string object, which owns its text.
#[derive(Debug)]
pub struct ObjString {
    pub s: String,
}

impl View for ObjString {
    type V = Seq<char>;

    open spec fn view(&self) -> Seq<char> {
        self.s@
    }
}

impl Clone for ObjString {
    fn clone(&self) -> (copy: Self)
        ensures
            copy@ == self@,
    {
        ObjString { s: self.s.clone() }
    }
}

impl PartialEq for ObjString {
    fn eq(&self, other: &Self) -> (equal: bool) {
        self.s == other.s
    }
}

impl vstd::std_specs::cmp::PartialEqSpecImpl for ObjString {
    open spec fn obeys_eq_spec() -> bool {
        true
    }

    open spec fn eq_spec(&self, other: &Self) -> bool {
        self@ == other@
    }
}

impl ObjString {
    /// The text of the string.
    pub fn str(&self) -> (text: &str)
        ensures
            text@ == self@,
    {
        self.s.as_str()
    }
}

/// A heap object.
#[derive(Debug)]
pub enum Obj {
    STRING(ObjString),
}

impl View for Obj {
    type V = Seq<char>;

    open spec fn view(&self) -> Seq<char> {
        match self {
            Obj::STRING(string) => string@,
        }
    }
}

impl Clone for Obj {
    fn clone(&self) -> (copy: Self)
        ensures
            copy@ == self@,
    {
        match self {
            Obj::STRING(string) => Obj::STRING(string.clone()),
        }
    }
}

impl PartialEq for Obj {
    fn eq(&self, other: &Self) -> (equal: bool) {
        match (self, other) {
            (Obj::STRING(left), Obj::STRING(right)) => left.s == right.s,
        }
    }
}

impl vstd::std_specs::cmp::PartialEqSpecImpl for Obj {
    open spec fn obeys_eq_spec() -> bool {
        true
    }

    open spec fn eq_spec(&self, other: &Self) -> bool {
        self@ == other@
    }
}

/// Wraps an object of kind `T` into a value.
pub trait ObjTrait<T> {
    fn VAL(object: T) -> Value;
}

/// The string inside a value, if the value is a string.
pub fn AS_STRING(value: &Value) -> (string: Option<&ObjString>)
    ensures
        match string {
            Some(found) => value@ == ValueView::Text(found@) && *value == Value::OBJ(
                Obj::STRING(*found),
            ),
            None => !(value@ is Text),
        },
{
    match value {
        Value::OBJ(Obj::STRING(string)) => Some(string),
        _ => None,
    }
}

/// The string inside a value, to be changed in place, if the value is a
/// string.
pub fn AS_STRING_MUT(value: &mut Value) -> (string: Option<&mut ObjString>)
    ensures
        match string {
            Some(found) => *old(value) == Value::OBJ(Obj::STRING(*found)) && *final(value)
                == Value::OBJ(Obj::STRING(*final(found))),
            None => !(old(value)@ is Text) && *final(value) == *old(value),
        },
{
    match value {
        Value::OBJ(Obj::STRING(string)) => Some(string),
        _ => None,
    }
}

/// Whether a value is a string.
pub fn IS_STRING(value: &Value) -> (yes: bool)
    ensures
        yes == (value@ is Text),
{
    AS_STRING(value).is_some()
}

/// A string object holding the first `length` bytes of `chars`.
pub fn copyString(chars: &str, length: usize) -> (string: ObjString)
    requires
        is_char_boundary(chars.spec_bytes(), length as int),
    ensures
        string@ == decode_utf8(chars.spec_bytes().subrange(0, length as int)),
{
    proof {
        encode_utf8_valid_utf8(chars@);
    }
    let (head, _) = chars.split_at(length);
    proof {
        encode_utf8_decode_utf8(head@);
    }
    allocateString(String::from_str(head))
}

/// A string object that takes over `string`.
pub fn takeString(string: String) -> (object: ObjString)
    ensures
        object@ == string@,
{
    allocateString(string)
}

/// Makes the string object for `string`.
pub fn allocateString(string: String) -> (object: ObjString)
    ensures
        object@ == string@,
        object.s == string,
{
    ObjString { s: string }
}

/// The text that printing an object shows: a string's raw contents.
pub fn printObject(obj: &Obj) -> (text: String)
    ensures
        text@ == obj@,
{
    match obj {
        Obj::STRING(string) => String::from_str(string.str()),
    }
}

} // verus!
