//! The values that the store holds.

use vstd::prelude::*;

verus! {

/// A stored value.
#[derive(Clone, Debug, PartialEq)]
pub enum Value {
    /// No value.
    Empty,
    /// A text.
    String(String),
    /// Raw bytes.
    Binary(Vec<u8>),
    /// A signed integer.
    Integer(i64),
    /// A floating-point number, held as its IEEE 754 bit pattern.
    Float(u64),
    /// A boolean.
    Bool(bool),
}

impl Default for Value {
    /// The empty value.
    fn default() -> (v: Self)
        ensures
            v == Value::Empty,
    {
        Value::Empty
    }
}

/// A key with its value.
#[derive(Clone, Debug, PartialEq)]
pub struct Kvpair {
    pub key: String,
    pub value: Value,
}

impl Kvpair {
    /// Pairs `key` with `value`.
    pub fn new(key: String, value: Value) -> (p: Self)
        ensures
            p.key == key,
            p.value == value,
    {
        Kvpair { key, value }
    }
}

impl From<(String, Value)> for Kvpair {
    fn from(data: (String, Value)) -> (p: Self) {
        Kvpair::new(data.0, data.1)
    }
}

impl vstd::std_specs::convert::FromSpecImpl<(String, Value)> for Kvpair {
    open spec fn obeys_from_spec() -> bool {
        true
    }

    open spec fn from_spec(data: (String, Value)) -> Self {
        Kvpair { key: data.0, value: data.1 }
    }
}

} // verus!
