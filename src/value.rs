//! Source values: the logical shape that a value presents for encoding.
use vstd::prelude::*;

verus! {

/// A value to encode, by its logical shape. Numbers are held in the widest
/// type of their signedness; their encoding depends only on their value.
#[derive(Debug)]
pub enum Value {
    Bool(bool),
    /// A character, encoded as its 32-bit code point.
    Char(char),
    Str(String),
    /// An unsigned number.
    UInt(u128),
    /// A signed number.
    Int(i128),
    /// An ordered sequence of values of known length.
    Sequence(Vec<Value>),
    /// A struct-like or tuple-like value: an ordered list of optionally
    /// named fields.
    Composite(Composite),
    /// A named variant of a sum type with its fields.
    Variant(Variant),
    /// A map keyed by strings: its entries are named by their keys, in
    /// ascending key order (see `keys_ascending`), as a `BTreeMap` walks
    /// them. Entries are encoded in the order held. It encodes as the
    /// sequence of its values into an array or sequence type, and as a
    /// composite with named fields into any other type.
    StringMap(Composite),
    /// A sequence of bits.
    Bits(Vec<bool>),
}

/// One field of a composite value.
#[derive(Debug)]
pub struct CompositeField {
    pub val: Value,
}

/// An ordered list of optionally named fields, each holding a value. The
/// order is kept: it decides matching by position.
#[derive(Debug)]
pub struct Composite {
    pub vals: Vec<(Option<String>, CompositeField)>,
}

/// A variant: its name and its fields.
#[derive(Debug)]
pub struct Variant {
    /// The name of the variant to encode into.
    pub name: String,
    /// The fields of the variant.
    pub fields: Composite,
}

impl CompositeField {
    /// A composite field holding `val`.
    pub fn new(val: Value) -> (r: CompositeField)
        ensures
            r.val == val,
    {
        CompositeField { val }
    }
}

impl Composite {
    /// A composite value from its fields, in order.
    pub fn new(vals: Vec<(Option<String>, CompositeField)>) -> (r: Composite)
        ensures
            r.vals == vals,
    {
        Composite { vals }
    }
}

impl Value {
    /// The unit value: a composite without fields.
    pub fn unit() -> (r: Value)
        ensures
            r matches Value::Composite(c) && c.vals@.len() == 0,
    {
        Value::Composite(Composite { vals: Vec::new() })
    }

    /// An optional value, as the variant `None` without fields or the
    /// variant `Some` with one unnamed field.
    pub fn option(o: Option<Value>) -> (r: Value)
        ensures
            r matches Value::Variant(v) && match o {
                Some(x) => v.name@ == "Some"@ && v.fields.vals@.len() == 1
                    && v.fields.vals@[0].0 is None && v.fields.vals@[0].1.val == x,
                None => v.name@ == "None"@ && v.fields.vals@.len() == 0,
            },
    {
        match o {
            Some(x) => {
                let mut vals = Vec::new();
                vals.push((None, CompositeField { val: x }));
                Value::Variant(Variant { name: "Some".to_owned(), fields: Composite { vals } })
            },
            None => Value::Variant(
                Variant { name: "None".to_owned(), fields: Composite { vals: Vec::new() } },
            ),
        }
    }

    /// A result, as the variant `Ok` or `Err` with one unnamed field.
    pub fn result(res: Result<Value, Value>) -> (r: Value)
        ensures
            r matches Value::Variant(v) && v.fields.vals@.len() == 1 && v.fields.vals@[0].0 is None
                && match res {
                Ok(x) => v.name@ == "Ok"@ && v.fields.vals@[0].1.val == x,
                Err(x) => v.name@ == "Err"@ && v.fields.vals@[0].1.val == x,
            },
    {
        let (name, x) = match res {
            Ok(x) => ("Ok".to_owned(), x),
            Err(x) => ("Err".to_owned(), x),
        };
        let mut vals = Vec::new();
        vals.push((None, CompositeField { val: x }));
        Value::Variant(Variant { name, fields: Composite { vals } })
    }
}

} // verus!
