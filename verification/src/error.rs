//! The errors of schema handling and (de)serialization.

use crate::text::join2;
use vstd::prelude::*;

verus! {

/// What can go wrong when registering schemas or (de)serializing messages.
#[derive(Debug)]
pub enum MessageError {
    UnknownSchema(String),
    TypeMismatch { field: String, expected: String, got: String },
    SerializationError(String),
    DeserializationError(String),
    DuplicateSchema(String),
    SchemaDefinition(String),
}

/// The mathematical value of a [`MessageError`].
pub enum ErrorSpec {
    UnknownSchema(Seq<char>),
    TypeMismatch { field: Seq<char>, expected: Seq<char>, got: Seq<char> },
    SerializationError(Seq<char>),
    DeserializationError(Seq<char>),
    DuplicateSchema(Seq<char>),
    SchemaDefinition(Seq<char>),
}

impl View for MessageError {
    type V = ErrorSpec;

    open spec fn view(&self) -> ErrorSpec {
        match self {
            MessageError::UnknownSchema(s) => ErrorSpec::UnknownSchema(s@),
            MessageError::TypeMismatch { field, expected, got } => ErrorSpec::TypeMismatch {
                field: field@,
                expected: expected@,
                got: got@,
            },
            MessageError::SerializationError(s) => ErrorSpec::SerializationError(s@),
            MessageError::DeserializationError(s) => ErrorSpec::DeserializationError(s@),
            MessageError::DuplicateSchema(s) => ErrorSpec::DuplicateSchema(s@),
            MessageError::SchemaDefinition(s) => ErrorSpec::SchemaDefinition(s@),
        }
    }
}

/// The text that describes an error.
pub open spec fn error_text(e: ErrorSpec) -> Seq<char> {
    match e {
        ErrorSpec::UnknownSchema(s) => "Unknown custom message schema: "@ + s,
        ErrorSpec::TypeMismatch { field, expected, got } => "Field type mismatch on '"@ + field
            + "': expected "@ + expected + ", got "@ + got,
        ErrorSpec::SerializationError(s) => "Serialization failed: "@ + s,
        ErrorSpec::DeserializationError(s) => "Deserialization failed: "@ + s,
        ErrorSpec::DuplicateSchema(s) => "Schema already registered: "@ + s,
        ErrorSpec::SchemaDefinition(s) => "Schema definition error: "@ + s,
    }
}

/// The Python exception class that an error is raised as.
#[derive(PartialEq, Eq, Structural, Clone, Copy, Debug)]
pub enum ExceptionKind {
    KeyError,
    TypeError,
    ValueError,
}

/// An error of a library call as Python sees it: a message error, or a
/// payload that is refused before any schema is consulted.
#[derive(Debug)]
pub enum CallError {
    Message(MessageError),
    InvalidPayload(String),
}

/// The mathematical value of a [`CallError`].
pub enum CallErrorSpec {
    Message(ErrorSpec),
    InvalidPayload(Seq<char>),
}

impl View for CallError {
    type V = CallErrorSpec;

    open spec fn view(&self) -> CallErrorSpec {
        match self {
            CallError::Message(e) => CallErrorSpec::Message(e@),
            CallError::InvalidPayload(s) => CallErrorSpec::InvalidPayload(s@),
        }
    }
}

/// The exception class and argument that an error is raised with: an
/// unknown schema is a `KeyError` carrying the schema's name; mismatches and
/// (de)serialization failures are `TypeError`s and schema definition problems
/// `ValueError`s, each carrying the error's text.
pub open spec fn exception_of(e: ErrorSpec) -> (ExceptionKind, Seq<char>) {
    match e {
        ErrorSpec::UnknownSchema(name) => (ExceptionKind::KeyError, name),
        ErrorSpec::TypeMismatch { .. } | ErrorSpec::SerializationError(_)
        | ErrorSpec::DeserializationError(_) => (ExceptionKind::TypeError, error_text(e)),
        ErrorSpec::DuplicateSchema(_) | ErrorSpec::SchemaDefinition(_) => (
            ExceptionKind::ValueError,
            error_text(e),
        ),
    }
}

impl MessageError {
    /// The text that describes this error.
    pub fn message(&self) -> (r: String)
        ensures
            r@ == error_text(self@),
    {
        match self {
            MessageError::UnknownSchema(s) => join2("Unknown custom message schema: ", s.as_str()),
            MessageError::TypeMismatch { field, expected, got } => {
                let mut out = join2("Field type mismatch on '", field.as_str());
                out.append("': expected ");
                out.append(expected.as_str());
                out.append(", got ");
                out.append(got.as_str());
                out
            },
            MessageError::SerializationError(s) => join2("Serialization failed: ", s.as_str()),
            MessageError::DeserializationError(s) => join2("Deserialization failed: ", s.as_str()),
            MessageError::DuplicateSchema(s) => join2("Schema already registered: ", s.as_str()),
            MessageError::SchemaDefinition(s) => join2("Schema definition error: ", s.as_str()),
        }
    }

    /// The Python exception this error is raised as, with its argument.
    pub fn to_exception(&self) -> (r: (ExceptionKind, String))
        ensures
            r.0 == exception_of(self@).0,
            r.1@ == exception_of(self@).1,
    {
        match self {
            MessageError::UnknownSchema(name) => (ExceptionKind::KeyError, name.clone()),
            MessageError::TypeMismatch { .. } | MessageError::SerializationError(_)
            | MessageError::DeserializationError(_) => (ExceptionKind::TypeError, self.message()),
            MessageError::DuplicateSchema(_) | MessageError::SchemaDefinition(_) => (
                ExceptionKind::ValueError,
                self.message(),
            ),
        }
    }
}

impl CallError {
    /// The Python exception this error is raised as, with its argument: a
    /// refused payload is a `ValueError` carrying its text.
    pub fn to_exception(&self) -> (r: (ExceptionKind, String))
        ensures
            match self@ {
                CallErrorSpec::Message(e) => r.0 == exception_of(e).0 && r.1@ == exception_of(
                    e,
                ).1,
                CallErrorSpec::InvalidPayload(s) => r.0 == ExceptionKind::ValueError && r.1@ == s,
            },
    {
        match self {
            CallError::Message(e) => e.to_exception(),
            CallError::InvalidPayload(s) => (ExceptionKind::ValueError, s.clone()),
        }
    }
}

} // verus!
