//! Field types of message schemas and their textual names.

use crate::error::{ErrorSpec, MessageError};
use crate::text::{join2, join3, owned, str_equal, strip_prefix, strip_suffix_char, trim, trim_spec};
use vstd::prelude::*;

verus! {

/// The type of one field of a message schema.
#[derive(Debug)]
pub enum FieldType {
    Bool,
    Int8,
    Int16,
    Int32,
    Int64,
    UInt8,
    UInt16,
    UInt32,
    UInt64,
    Float32,
    Float64,
    RosString,
    RosBytes,
    Array(Box<FieldType>),
    Struct(String),
    Time,
    Duration,
}

/// The mathematical value of a [`FieldType`].
pub enum TypeSpec {
    Bool,
    Int8,
    Int16,
    Int32,
    Int64,
    UInt8,
    UInt16,
    UInt32,
    UInt64,
    Float32,
    Float64,
    RosString,
    RosBytes,
    Array(Box<TypeSpec>),
    Struct(Seq<char>),
    Time,
    Duration,
}

impl View for FieldType {
    type V = TypeSpec;

    open spec fn view(&self) -> TypeSpec
        decreases self,
    {
        match self {
            FieldType::Bool => TypeSpec::Bool,
            FieldType::Int8 => TypeSpec::Int8,
            FieldType::Int16 => TypeSpec::Int16,
            FieldType::Int32 => TypeSpec::Int32,
            FieldType::Int64 => TypeSpec::Int64,
            FieldType::UInt8 => TypeSpec::UInt8,
            FieldType::UInt16 => TypeSpec::UInt16,
            FieldType::UInt32 => TypeSpec::UInt32,
            FieldType::UInt64 => TypeSpec::UInt64,
            FieldType::Float32 => TypeSpec::Float32,
            FieldType::Float64 => TypeSpec::Float64,
            FieldType::RosString => TypeSpec::RosString,
            FieldType::RosBytes => TypeSpec::RosBytes,
            FieldType::Array(inner) => TypeSpec::Array(Box::new((**inner).view())),
            FieldType::Struct(name) => TypeSpec::Struct(name@),
            FieldType::Time => TypeSpec::Time,
            FieldType::Duration => TypeSpec::Duration,
        }
    }
}

/// The name of a type, as schemas are written and read back.
pub open spec fn name_of_type(t: TypeSpec) -> Seq<char>
    decreases t,
{
    match t {
        TypeSpec::Bool => "bool"@,
        TypeSpec::Int8 => "int8"@,
        TypeSpec::Int16 => "int16"@,
        TypeSpec::Int32 => "int32"@,
        TypeSpec::Int64 => "int64"@,
        TypeSpec::UInt8 => "uint8"@,
        TypeSpec::UInt16 => "uint16"@,
        TypeSpec::UInt32 => "uint32"@,
        TypeSpec::UInt64 => "uint64"@,
        TypeSpec::Float32 => "float32"@,
        TypeSpec::Float64 => "float64"@,
        TypeSpec::RosString => "string"@,
        TypeSpec::RosBytes => "bytes"@,
        TypeSpec::Array(inner) => "array<"@ + name_of_type(*inner) + ">"@,
        TypeSpec::Struct(name) => "struct:"@ + name,
        TypeSpec::Time => "time"@,
        TypeSpec::Duration => "duration"@,
    }
}

/// The type of a primitive (non-array, non-struct) type name, if it is one.
pub open spec fn primitive_type(s: Seq<char>) -> Option<TypeSpec> {
    if s == "bool"@ {
        Some(TypeSpec::Bool)
    } else if s == "int8"@ {
        Some(TypeSpec::Int8)
    } else if s == "int16"@ {
        Some(TypeSpec::Int16)
    } else if s == "int32"@ {
        Some(TypeSpec::Int32)
    } else if s == "int64"@ {
        Some(TypeSpec::Int64)
    } else if s == "uint8"@ {
        Some(TypeSpec::UInt8)
    } else if s == "uint16"@ {
        Some(TypeSpec::UInt16)
    } else if s == "uint32"@ {
        Some(TypeSpec::UInt32)
    } else if s == "uint64"@ {
        Some(TypeSpec::UInt64)
    } else if s == "float32"@ {
        Some(TypeSpec::Float32)
    } else if s == "float64"@ {
        Some(TypeSpec::Float64)
    } else if s == "string"@ || s == "ros_string"@ {
        Some(TypeSpec::RosString)
    } else if s == "bytes"@ || s == "ros_bytes"@ {
        Some(TypeSpec::RosBytes)
    } else if s == "time"@ {
        Some(TypeSpec::Time)
    } else if s == "duration"@ {
        Some(TypeSpec::Duration)
    } else {
        None
    }
}

/// The type that a type name denotes: `array<T>` is an array of `T`,
/// `struct:NAME` refers to the schema registered as `NAME` (white space around
/// the name dropped, which must leave something), and the rest are the
/// primitive names; anything else is unsupported.
pub open spec fn type_from_name(s: Seq<char>) -> Result<TypeSpec, ErrorSpec>
    decreases s.len(),
{
    let a = "array<"@;
    if a.is_prefix_of(s) && s.len() > a.len() && s.last() == '>' {
        match type_from_name(s.subrange(a.len() as int, s.len() - 1)) {
            Ok(inner) => Ok(TypeSpec::Array(Box::new(inner))),
            Err(e) => Err(e),
        }
    } else if "struct:"@.is_prefix_of(s) {
        let name = trim_spec(s.skip("struct:"@.len() as int));
        if name.len() == 0 {
            Err(ErrorSpec::SchemaDefinition("Struct type must include a schema name"@))
        } else {
            Ok(TypeSpec::Struct(name))
        }
    } else {
        match primitive_type(s) {
            Some(t) => Ok(t),
            None => Err(ErrorSpec::SerializationError("Unsupported field type '"@ + s + "'"@)),
        }
    }
}

/// The mathematical value of a parsed type, or of its error.
pub open spec fn type_result_view(r: Result<FieldType, MessageError>) -> Result<
    TypeSpec,
    ErrorSpec,
> {
    match r {
        Ok(t) => Ok(t@),
        Err(e) => Err(e@),
    }
}

/// Whether every schema name inside `t` is non-empty and free of surrounding
/// white space, as the names that [`type_from_name`] produces are.
pub open spec fn names_canonical(t: TypeSpec) -> bool
    decreases t,
{
    match t {
        TypeSpec::Array(inner) => names_canonical(*inner),
        TypeSpec::Struct(name) => name.len() > 0 && trim_spec(name) == name,
        _ => true,
    }
}

proof fn lemma_seq_ne_at(a: Seq<char>, b: Seq<char>, k: int)
    requires
        0 <= k < a.len(),
        k < b.len(),
        a[k] != b[k],
    ensures
        a != b,
{
}

proof fn lemma_not_prefix_at(p: Seq<char>, s: Seq<char>, k: int)
    requires
        0 <= k < p.len(),
        k < s.len(),
        p[k] != s[k],
    ensures
        !p.is_prefix_of(s),
{
    if p.is_prefix_of(s) {
        assert(p[k] == s.subrange(0, p.len() as int)[k]);
    }
}

/// A type's name parses back to the type: the names that a schema is listed
/// with register the same schema again.
pub proof fn law_type_name_roundtrip(t: TypeSpec)
    requires
        names_canonical(t),
    ensures
        type_from_name(name_of_type(t)) == Ok::<TypeSpec, ErrorSpec>(t),
    decreases t,
{
    reveal_strlit("array<");
    reveal_strlit(">");
    reveal_strlit("struct:");
    reveal_strlit("bool");
    reveal_strlit("int8");
    reveal_strlit("int16");
    reveal_strlit("int32");
    reveal_strlit("int64");
    reveal_strlit("uint8");
    reveal_strlit("uint16");
    reveal_strlit("uint32");
    reveal_strlit("uint64");
    reveal_strlit("float32");
    reveal_strlit("float64");
    reveal_strlit("string");
    reveal_strlit("ros_string");
    reveal_strlit("bytes");
    reveal_strlit("ros_bytes");
    reveal_strlit("time");
    reveal_strlit("duration");
    let s = name_of_type(t);
    match t {
        TypeSpec::Array(inner) => {
            law_type_name_roundtrip(*inner);
            let n = name_of_type(*inner);
            assert(s.subrange(0, 6) =~= "array<"@);
            assert("array<"@.is_prefix_of(s));
            assert(s.len() > 6);
            assert(s.last() == '>');
            assert(s.subrange(6, s.len() - 1) =~= n);
        },
        TypeSpec::Struct(name) => {
            lemma_not_prefix_at("array<"@, s, 0);
            assert(s.subrange(0, 7) =~= "struct:"@);
            assert(s.skip(7) =~= name);
        },
        TypeSpec::Bool => {
        },
        TypeSpec::Int8 => {
            lemma_seq_ne_at(s, "bool"@, 0);
        },
        TypeSpec::Int16 => {
        },
        TypeSpec::Int32 => {
            lemma_seq_ne_at(s, "int16"@, 3);
        },
        TypeSpec::Int64 => {
            lemma_seq_ne_at(s, "int16"@, 3);
            lemma_seq_ne_at(s, "int32"@, 3);
        },
        TypeSpec::UInt8 => {
            lemma_seq_ne_at(s, "int16"@, 0);
            lemma_seq_ne_at(s, "int32"@, 0);
            lemma_seq_ne_at(s, "int64"@, 0);
        },
        TypeSpec::UInt16 => {
        },
        TypeSpec::UInt32 => {
            lemma_seq_ne_at(s, "uint16"@, 4);
        },
        TypeSpec::UInt64 => {
            lemma_seq_ne_at(s, "uint16"@, 4);
            lemma_seq_ne_at(s, "uint32"@, 4);
        },
        TypeSpec::Float32 => {
        },
        TypeSpec::Float64 => {
            lemma_seq_ne_at(s, "float32"@, 5);
        },
        TypeSpec::RosString => {
            lemma_seq_ne_at(s, "uint16"@, 0);
            lemma_seq_ne_at(s, "uint32"@, 0);
            lemma_seq_ne_at(s, "uint64"@, 0);
        },
        TypeSpec::RosBytes => {
            lemma_seq_ne_at(s, "int16"@, 0);
            lemma_seq_ne_at(s, "int32"@, 0);
            lemma_seq_ne_at(s, "int64"@, 0);
            lemma_seq_ne_at(s, "uint8"@, 0);
        },
        TypeSpec::Time => {
            lemma_seq_ne_at(s, "bool"@, 0);
            lemma_seq_ne_at(s, "int8"@, 0);
        },
        TypeSpec::Duration => {
        },
    }
    match t {
        TypeSpec::Array(_) | TypeSpec::Struct(_) => {},
        _ => {
            lemma_not_prefix_at("array<"@, s, 0);
            if s.len() >= 7 {
                lemma_not_prefix_at("struct:"@, s, 0);
            }
        },
    }
}

fn primitive_from_name(name: &str) -> (r: Option<FieldType>)
    ensures
        match primitive_type(name@) {
            Some(t) => r matches Some(x) && x@ == t,
            None => r is None,
        },
{
    if str_equal(name, "bool") {
        Some(FieldType::Bool)
    } else if str_equal(name, "int8") {
        Some(FieldType::Int8)
    } else if str_equal(name, "int16") {
        Some(FieldType::Int16)
    } else if str_equal(name, "int32") {
        Some(FieldType::Int32)
    } else if str_equal(name, "int64") {
        Some(FieldType::Int64)
    } else if str_equal(name, "uint8") {
        Some(FieldType::UInt8)
    } else if str_equal(name, "uint16") {
        Some(FieldType::UInt16)
    } else if str_equal(name, "uint32") {
        Some(FieldType::UInt32)
    } else if str_equal(name, "uint64") {
        Some(FieldType::UInt64)
    } else if str_equal(name, "float32") {
        Some(FieldType::Float32)
    } else if str_equal(name, "float64") {
        Some(FieldType::Float64)
    } else if str_equal(name, "string") || str_equal(name, "ros_string") {
        Some(FieldType::RosString)
    } else if str_equal(name, "bytes") || str_equal(name, "ros_bytes") {
        Some(FieldType::RosBytes)
    } else if str_equal(name, "time") {
        Some(FieldType::Time)
    } else if str_equal(name, "duration") {
        Some(FieldType::Duration)
    } else {
        None
    }
}

impl FieldType {
    /// Parses a type name (see [`type_from_name`]).
    pub fn from_name(name: &str) -> (r: Result<FieldType, MessageError>)
        ensures
            type_result_view(r) == type_from_name(name@),
        decreases name@.len(),
    {
        proof {
            reveal_strlit("array<");
            reveal_strlit("struct:");
        }
        if let Some(rest) = strip_prefix(name, "array<") {
            if let Some(inner) = strip_suffix_char(rest, '>') {
                assert(inner@ =~= name@.subrange(6, name@.len() - 1));
                return match FieldType::from_name(inner) {
                    Ok(t) => Ok(FieldType::Array(Box::new(t))),
                    Err(e) => Err(e),
                };
            }
        }
        if let Some(rest) = strip_prefix(name, "struct:") {
            let trimmed = trim(rest);
            if trimmed.is_empty() {
                return Err(
                    MessageError::SchemaDefinition(owned("Struct type must include a schema name")),
                );
            }
            return Ok(FieldType::Struct(owned(trimmed)));
        }
        match primitive_from_name(name) {
            Some(t) => Ok(t),
            None => Err(MessageError::SerializationError(join3("Unsupported field type '", name, "'"))),
        }
    }

    /// The name of this type (see [`name_of_type`]).
    pub fn as_name(&self) -> (r: String)
        ensures
            r@ == name_of_type(self@),
        decreases self,
    {
        match self {
            FieldType::Bool => owned("bool"),
            FieldType::Int8 => owned("int8"),
            FieldType::Int16 => owned("int16"),
            FieldType::Int32 => owned("int32"),
            FieldType::Int64 => owned("int64"),
            FieldType::UInt8 => owned("uint8"),
            FieldType::UInt16 => owned("uint16"),
            FieldType::UInt32 => owned("uint32"),
            FieldType::UInt64 => owned("uint64"),
            FieldType::Float32 => owned("float32"),
            FieldType::Float64 => owned("float64"),
            FieldType::RosString => owned("string"),
            FieldType::RosBytes => owned("bytes"),
            FieldType::Array(inner) => {
                let inner_name = inner.as_name();
                join3("array<", inner_name.as_str(), ">")
            },
            FieldType::Struct(name) => join2("struct:", name.as_str()),
            FieldType::Time => owned("time"),
            FieldType::Duration => owned("duration"),
        }
    }

    /// A copy of this type.
    pub fn duplicate(&self) -> (r: FieldType)
        ensures
            r@ == self@,
        decreases self,
    {
        match self {
            FieldType::Bool => FieldType::Bool,
            FieldType::Int8 => FieldType::Int8,
            FieldType::Int16 => FieldType::Int16,
            FieldType::Int32 => FieldType::Int32,
            FieldType::Int64 => FieldType::Int64,
            FieldType::UInt8 => FieldType::UInt8,
            FieldType::UInt16 => FieldType::UInt16,
            FieldType::UInt32 => FieldType::UInt32,
            FieldType::UInt64 => FieldType::UInt64,
            FieldType::Float32 => FieldType::Float32,
            FieldType::Float64 => FieldType::Float64,
            FieldType::RosString => FieldType::RosString,
            FieldType::RosBytes => FieldType::RosBytes,
            FieldType::Array(inner) => FieldType::Array(Box::new(inner.duplicate())),
            FieldType::Struct(name) => FieldType::Struct(name.clone()),
            FieldType::Time => FieldType::Time,
            FieldType::Duration => FieldType::Duration,
        }
    }
}

} // verus!
