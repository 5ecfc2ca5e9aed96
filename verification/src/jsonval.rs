//! The library's model of a JSON document.
//!
//! A JSON number is carried at every width its producer knows: its integer
//! value when the token was integral and fits a 64-bit integer, its IEEE
//! double bits, and its IEEE float bits when a float-width rendering exists.
//! The boundary that parses JSON text fills these in; the core never performs
//! floating-point arithmetic.

use vstd::prelude::*;

verus! {

broadcast use vstd::std_specs::vec::group_vec_axioms;

/// A JSON number, at the widths its producer supplied.
#[derive(Clone, Copy, Debug, PartialEq, Eq, Structural)]
pub struct JsonNumber {
    /// The value as an integer, when the token was integral and fits.
    pub int_val: Option<i64>,
    /// Whether the token was a float (had a decimal point or exponent).
    pub is_float: bool,
    /// The IEEE bits of the value at double width, when known.
    pub f64_bits: Option<u64>,
    /// The IEEE bits of the value at float width, when known.
    pub f32_bits: Option<u32>,
}

impl JsonNumber {
    /// A number standing for an integer value.
    pub fn from_int(v: i64) -> (r: JsonNumber)
        ensures
            r == spec_int_number(v),
    {
        JsonNumber { int_val: Some(v), is_float: false, f64_bits: None, f32_bits: None }
    }
}

/// The number the projector emits for an integer value.
pub open spec fn spec_int_number(v: i64) -> JsonNumber {
    JsonNumber { int_val: Some(v), is_float: false, f64_bits: None, f32_bits: None }
}

/// The number the projector emits for a float value, giving its bits.
pub open spec fn spec_float_number(bits: u32) -> JsonNumber {
    JsonNumber { int_val: None, is_float: true, f64_bits: None, f32_bits: Some(bits) }
}

/// The number the projector emits for a double value, giving its bits.
pub open spec fn spec_double_number(bits: u64) -> JsonNumber {
    JsonNumber { int_val: None, is_float: true, f64_bits: Some(bits), f32_bits: None }
}

/// A JSON value.
#[derive(Debug, PartialEq)]
pub enum JsonValue {
    Null,
    Bool(bool),
    Num(JsonNumber),
    Str(String),
    Array(Vec<JsonValue>),
    Object(Vec<(String, JsonValue)>),
}

/// The mathematical model of a JSON value.
pub enum JsonV {
    Null,
    Bool(bool),
    Num(JsonNumber),
    Str(Seq<char>),
    Array(Seq<JsonV>),
    Object(Seq<(Seq<char>, JsonV)>),
}

/// The model value that a `JsonValue` stands for.
pub open spec fn json_view(j: JsonValue) -> JsonV
    decreases j,
{
    match j {
        JsonValue::Null => JsonV::Null,
        JsonValue::Bool(b) => JsonV::Bool(b),
        JsonValue::Num(n) => JsonV::Num(n),
        JsonValue::Str(s) => JsonV::Str(s@),
        JsonValue::Array(v) => JsonV::Array(
            Seq::new(
                v@.len(),
                |i: int|
                    if 0 <= i < v@.len() {
                        json_view(v[i])
                    } else {
                        JsonV::Null
                    },
            ),
        ),
        JsonValue::Object(v) => JsonV::Object(
            Seq::new(
                v@.len(),
                |i: int|
                    if 0 <= i < v@.len() {
                        (v[i].0@, json_view(v[i].1))
                    } else {
                        (Seq::empty(), JsonV::Null)
                    },
            ),
        ),
    }
}

/// The model values of a vector of array elements.
pub open spec fn jelems_view(v: Seq<JsonValue>) -> Seq<JsonV> {
    Seq::new(v.len(), |i: int| json_view(v[i]))
}

/// The model values of a vector of object members.
pub open spec fn jmembers_view(v: Seq<(String, JsonValue)>) -> Seq<(Seq<char>, JsonV)> {
    Seq::new(v.len(), |i: int| (v[i].0@, json_view(v[i].1)))
}

/// An array's model is the model of its element vector.
pub proof fn lemma_json_view_array(v: Vec<JsonValue>)
    ensures
        json_view(JsonValue::Array(v)) == JsonV::Array(jelems_view(v@)),
{
    assert(json_view(JsonValue::Array(v))->Array_0 =~= jelems_view(v@));
}

/// An object's model is the model of its member vector.
pub proof fn lemma_json_view_object(v: Vec<(String, JsonValue)>)
    ensures
        json_view(JsonValue::Object(v)) == JsonV::Object(jmembers_view(v@)),
{
    assert(json_view(JsonValue::Object(v))->Object_0 =~= jmembers_view(v@));
}

} // verus!
