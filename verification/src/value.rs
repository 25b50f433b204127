//! The values that messages are built from and decoded into.

use crate::text::owned;
use vstd::prelude::*;

verus! {

/// A floating-point number, held as the bits of its `f64` value and of that
/// value rounded to `f32`.
#[derive(Clone, Copy, Debug)]
pub struct FloatValue {
    pub f64_bits: u64,
    pub f32_bits: u32,
}

/// An integer: its value where it fits in an `i128`, and its value as a
/// floating-point number where it has one.
#[derive(Clone, Copy, Debug)]
pub struct IntValue {
    pub exact: Option<i128>,
    pub as_float: Option<FloatValue>,
}

/// A value handed in to be serialized, as the serializer reads it.
#[derive(Debug)]
pub enum Value {
    Bool(bool),
    Int(IntValue),
    Float(FloatValue),
    Str(String),
    Bytes(Vec<u8>),
    List(Vec<Value>),
    /// A sequence that is not a list (such as a tuple); its items are never read.
    Sequence,
    /// A mapping with string keys, each key once.
    Dict(Vec<(String, Value)>),
    Other,
}

/// The bits of the `f64` value `1.0`.
pub open spec fn one_f64_bits() -> u64 {
    0x3FF0_0000_0000_0000
}

/// The bits of the `f32` value `1.0`.
pub open spec fn one_f32_bits() -> u32 {
    0x3F80_0000
}

/// The integer a value stands for, where it stands for one: booleans count as
/// 0 and 1; floating-point numbers do not count.
pub open spec fn int_of(v: Value) -> Option<int> {
    match v {
        Value::Bool(b) => Some(if b {
            1int
        } else {
            0int
        }),
        Value::Int(i) => match i.exact {
            Some(x) => Some(x as int),
            None => None,
        },
        _ => None,
    }
}

/// The `f64` bits of the floating-point number a value stands for.
pub open spec fn f64_bits_of(v: Value) -> Option<u64> {
    match v {
        Value::Bool(b) => Some(if b {
            one_f64_bits()
        } else {
            0u64
        }),
        Value::Int(i) => match i.as_float {
            Some(f) => Some(f.f64_bits),
            None => None,
        },
        Value::Float(f) => Some(f.f64_bits),
        _ => None,
    }
}

/// The `f32` bits of the floating-point number a value stands for.
pub open spec fn f32_bits_of(v: Value) -> Option<u32> {
    match v {
        Value::Bool(b) => Some(if b {
            one_f32_bits()
        } else {
            0u32
        }),
        Value::Int(i) => match i.as_float {
            Some(f) => Some(f.f32_bits),
            None => None,
        },
        Value::Float(f) => Some(f.f32_bits),
        _ => None,
    }
}

/// The short type name of a value that type mismatches report.
pub open spec fn kind_name(v: Value) -> Seq<char> {
    match v {
        Value::Bool(_) => "bool"@,
        Value::Int(i) => match i.exact {
            Some(x) if -0x8000_0000_0000_0000 <= x <= 0x7fff_ffff_ffff_ffff => "int"@,
            Some(x) if 0 <= x <= 0xffff_ffff_ffff_ffff => "uint"@,
            _ => if i.as_float is Some {
                "float"@
            } else {
                "unknown"@
            },
        },
        Value::Float(_) => "float"@,
        Value::Str(_) => "string"@,
        Value::Bytes(_) => "bytes"@,
        Value::List(_) | Value::Sequence => "list"@,
        Value::Dict(_) => "dict"@,
        Value::Other => "unknown"@,
    }
}

/// The integer `v` stands for.
pub fn int_value(v: &Value) -> (r: Option<i128>)
    ensures
        match int_of(*v) {
            Some(x) => r matches Some(y) && y == x,
            None => r is None,
        },
{
    match v {
        Value::Bool(b) => Some(
            if *b {
                1
            } else {
                0
            },
        ),
        Value::Int(i) => i.exact,
        _ => None,
    }
}

/// The `f64` bits of the floating-point number `v` stands for.
pub fn f64_bits(v: &Value) -> (r: Option<u64>)
    ensures
        r == f64_bits_of(*v),
{
    match v {
        Value::Bool(b) => Some(
            if *b {
                0x3FF0_0000_0000_0000
            } else {
                0
            },
        ),
        Value::Int(i) => match i.as_float {
            Some(f) => Some(f.f64_bits),
            None => None,
        },
        Value::Float(f) => Some(f.f64_bits),
        _ => None,
    }
}

/// The `f32` bits of the floating-point number `v` stands for.
pub fn f32_bits(v: &Value) -> (r: Option<u32>)
    ensures
        r == f32_bits_of(*v),
{
    match v {
        Value::Bool(b) => Some(
            if *b {
                0x3F80_0000
            } else {
                0
            },
        ),
        Value::Int(i) => match i.as_float {
            Some(f) => Some(f.f32_bits),
            None => None,
        },
        Value::Float(f) => Some(f.f32_bits),
        _ => None,
    }
}

/// The short type name of `v` (see [`kind_name`]).
pub fn type_name_for_value(v: &Value) -> (r: String)
    ensures
        r@ == kind_name(*v),
{
    match v {
        Value::Bool(_) => owned("bool"),
        Value::Int(i) => {
            match i.exact {
                Some(x) => {
                    if -0x8000_0000_0000_0000 <= x && x <= 0x7fff_ffff_ffff_ffff {
                        return owned("int");
                    }
                    if 0 <= x && x <= 0xffff_ffff_ffff_ffff {
                        return owned("uint");
                    }
                },
                None => {},
            }
            if i.as_float.is_some() {
                owned("float")
            } else {
                owned("unknown")
            }
        },
        Value::Float(_) => owned("float"),
        Value::Str(_) => owned("string"),
        Value::Bytes(_) => owned("bytes"),
        Value::List(_) | Value::Sequence => owned("list"),
        Value::Dict(_) => owned("dict"),
        Value::Other => owned("unknown"),
    }
}

/// A value that deserialization produces.
#[derive(Debug)]
pub enum Decoded {
    Bool(bool),
    Int(i128),
    /// A floating-point number read from 4 bytes: the bits of its `f32` value.
    Float32(u32),
    /// A floating-point number read from 8 bytes: the bits of its `f64` value.
    Float64(u64),
    Str(String),
    Bytes(Vec<u8>),
    List(Vec<Decoded>),
    /// A mapping with string keys, each key once, in insertion order.
    Dict(Vec<(String, Decoded)>),
}

/// The mathematical value of a [`Decoded`].
pub enum DecodedSpec {
    Bool(bool),
    Int(int),
    Float32(u32),
    Float64(u64),
    Str(Seq<char>),
    Bytes(Seq<u8>),
    List(Seq<DecodedSpec>),
    Dict(Seq<(Seq<char>, DecodedSpec)>),
}

/// The mathematical values of a sequence of decoded values.
pub open spec fn decoded_list_view(items: Seq<Decoded>) -> Seq<DecodedSpec>
    decreases items,
{
    if items.len() == 0 {
        Seq::empty()
    } else {
        decoded_list_view(items.drop_last()).push(items.last().view())
    }
}

/// The mathematical values of the entries of a decoded mapping.
pub open spec fn decoded_dict_view(entries: Seq<(String, Decoded)>) -> Seq<(Seq<char>, DecodedSpec)>
    decreases entries,
{
    if entries.len() == 0 {
        Seq::empty()
    } else {
        decoded_dict_view(entries.drop_last()).push((entries.last().0@, entries.last().1.view()))
    }
}

impl View for Decoded {
    type V = DecodedSpec;

    open spec fn view(&self) -> DecodedSpec
        decreases self,
    {
        match self {
            Decoded::Bool(b) => DecodedSpec::Bool(*b),
            Decoded::Int(x) => DecodedSpec::Int(*x as int),
            Decoded::Float32(b) => DecodedSpec::Float32(*b),
            Decoded::Float64(b) => DecodedSpec::Float64(*b),
            Decoded::Str(s) => DecodedSpec::Str(s@),
            Decoded::Bytes(b) => DecodedSpec::Bytes(b@),
            Decoded::List(items) => DecodedSpec::List(decoded_list_view(items@)),
            Decoded::Dict(entries) => DecodedSpec::Dict(decoded_dict_view(entries@)),
        }
    }
}

/// The view of a sequence of decoded values, item by item.
pub proof fn lemma_list_view(items: Seq<Decoded>)
    ensures
        decoded_list_view(items).len() == items.len(),
        forall|j: int| 0 <= j < items.len() ==> #[trigger] decoded_list_view(items)[j] == items[j]@,
    decreases items.len(),
{
    if items.len() > 0 {
        lemma_list_view(items.drop_last());
        assert(decoded_list_view(items) == decoded_list_view(items.drop_last()).push(items.last()@));
    } else {
        assert(decoded_list_view(items) == Seq::<DecodedSpec>::empty());
    }
}

/// The view of a decoded mapping's entries, entry by entry.
pub proof fn lemma_dict_view(entries: Seq<(String, Decoded)>)
    ensures
        decoded_dict_view(entries).len() == entries.len(),
        forall|j: int|
            0 <= j < entries.len() ==> #[trigger] decoded_dict_view(entries)[j] == (
                entries[j].0@,
                entries[j].1@,
            ),
    decreases entries.len(),
{
    if entries.len() > 0 {
        lemma_dict_view(entries.drop_last());
        assert(decoded_dict_view(entries) == decoded_dict_view(entries.drop_last()).push(
            (entries.last().0@, entries.last().1@),
        ));
    } else {
        assert(decoded_dict_view(entries) == Seq::<(Seq<char>, DecodedSpec)>::empty());
    }
}

} // verus!
