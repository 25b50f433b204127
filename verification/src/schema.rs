//! Message schemas: ordered, named, typed fields.

use crate::error::{ErrorSpec, MessageError};
use crate::field_type::{type_from_name, FieldType, TypeSpec};
use crate::text::owned;
use vstd::prelude::*;

verus! {

/// One named, typed field of a message schema.
#[derive(Debug)]
pub struct FieldSchema {
    pub name: String,
    pub field_type: FieldType,
}

/// A message schema: its fields in wire order.
#[derive(Debug)]
pub struct MessageSchema {
    pub fields: Vec<FieldSchema>,
}

/// The mathematical value of a field: its name and type.
pub type FieldSpec = (Seq<char>, TypeSpec);

/// The mathematical value of a schema: its fields in order.
pub type SchemaSpec = Seq<FieldSpec>;

impl View for FieldSchema {
    type V = FieldSpec;

    open spec fn view(&self) -> FieldSpec {
        (self.name@, self.field_type@)
    }
}

impl View for MessageSchema {
    type V = SchemaSpec;

    open spec fn view(&self) -> SchemaSpec {
        self.fields@.map_values(|f: FieldSchema| f@)
    }
}

/// One entry of a schema definition as the caller handed it over: a
/// sequence (a list or tuple), with each of its items read as a string or,
/// where that failed, the text of the failure; or something else.
#[derive(Debug)]
pub enum SchemaItem {
    Sequence(Vec<Result<String, String>>),
    Other,
}

/// The field that one schema entry defines.
pub open spec fn field_from_item(item: SchemaItem) -> Result<FieldSpec, ErrorSpec> {
    match item {
        SchemaItem::Sequence(parts) => {
            if parts@.len() != 2 {
                Err(ErrorSpec::SchemaDefinition("Each field entry must contain exactly 2 items"@))
            } else {
                match parts@[0] {
                    Err(msg) => Err(ErrorSpec::SchemaDefinition(msg@)),
                    Ok(name) => match parts@[1] {
                        Err(msg) => Err(ErrorSpec::SchemaDefinition(msg@)),
                        Ok(type_text) => match type_from_name(type_text@) {
                            Ok(t) => Ok((name@, t)),
                            Err(e) => Err(e),
                        },
                    },
                }
            }
        },
        SchemaItem::Other => Err(
            ErrorSpec::SchemaDefinition("Fields must be provided as list[tuple[str, str]]"@),
        ),
    }
}

/// The schema that the first `n` entries define, or the error of the first
/// entry among them that fails.
pub open spec fn schema_from_items(items: Seq<SchemaItem>, n: int) -> Result<SchemaSpec, ErrorSpec>
    decreases n,
{
    if n <= 0 {
        Ok(Seq::empty())
    } else {
        match schema_from_items(items, n - 1) {
            Err(e) => Err(e),
            Ok(fields) => match field_from_item(items[n - 1]) {
                Err(e) => Err(e),
                Ok(f) => Ok(fields.push(f)),
            },
        }
    }
}

/// Once an entry fails, the definition fails with that entry's error.
proof fn lemma_schema_error_persists(items: Seq<SchemaItem>, m: int, n: int)
    requires
        0 <= m <= n,
        schema_from_items(items, m) is Err,
    ensures
        schema_from_items(items, n) == schema_from_items(items, m),
    decreases n - m,
{
    if n > m {
        lemma_schema_error_persists(items, m, n - 1);
    }
}

impl FieldSchema {
    /// A copy of this field.
    pub fn duplicate(&self) -> (r: FieldSchema)
        ensures
            r@ == self@,
    {
        FieldSchema { name: self.name.clone(), field_type: self.field_type.duplicate() }
    }
}

impl MessageSchema {
    /// A copy of this schema.
    pub fn duplicate(&self) -> (r: MessageSchema)
        ensures
            r@ == self@,
    {
        let mut fields: Vec<FieldSchema> = Vec::new();
        let mut i: usize = 0;
        while i < self.fields.len()
            invariant
                i <= self.fields@.len(),
                fields@.len() == i,
                forall|j: int| 0 <= j < i ==> #[trigger] fields@[j]@ == self.fields@[j]@,
            decreases self.fields@.len() - i,
        {
            fields.push(self.fields[i].duplicate());
            i = i + 1;
        }
        let r = MessageSchema { fields };
        assert(r@ =~= self@);
        r
    }
}

fn field_from_entry(item: &SchemaItem) -> (r: Result<FieldSchema, MessageError>)
    ensures
        match field_from_item(*item) {
            Ok(f) => r matches Ok(x) && x@ == f,
            Err(e) => r matches Err(x) && x@ == e,
        },
{
    match item {
        SchemaItem::Sequence(parts) => {
            if parts.len() != 2 {
                return Err(
                    MessageError::SchemaDefinition(
                        owned("Each field entry must contain exactly 2 items"),
                    ),
                );
            }
            let name = match &parts[0] {
                Err(msg) => {
                    return Err(MessageError::SchemaDefinition(msg.clone()));
                },
                Ok(name) => name.clone(),
            };
            let type_text = match &parts[1] {
                Err(msg) => {
                    return Err(MessageError::SchemaDefinition(msg.clone()));
                },
                Ok(t) => t,
            };
            match FieldType::from_name(type_text.as_str()) {
                Ok(field_type) => Ok(FieldSchema { name, field_type }),
                Err(e) => Err(e),
            }
        },
        SchemaItem::Other => Err(
            MessageError::SchemaDefinition(owned("Fields must be provided as list[tuple[str, str]]")),
        ),
    }
}

/// Builds a schema from its definition entries, in order: each must be a
/// sequence of exactly a field name and a type name (see
/// [`crate::field_type::type_from_name`]); the first entry that is not gives
/// the error.
pub fn parse_schema(items: &Vec<SchemaItem>) -> (r: Result<MessageSchema, MessageError>)
    ensures
        match schema_from_items(items@, items@.len() as int) {
            Ok(s) => r matches Ok(x) && x@ == s,
            Err(e) => r matches Err(x) && x@ == e,
        },
{
    let mut fields: Vec<FieldSchema> = Vec::new();
    let mut i: usize = 0;
    while i < items.len()
        invariant
            i <= items@.len(),
            schema_from_items(items@, i as int) matches Ok(s) && s == fields@.map_values(
                |f: FieldSchema| f@,
            ),
        decreases items@.len() - i,
    {
        let field = match field_from_entry(&items[i]) {
            Ok(f) => f,
            Err(e) => {
                proof {
                    lemma_schema_error_persists(items@, i + 1, items@.len() as int);
                }
                return Err(e);
            },
        };
        let ghost before = fields@;
        fields.push(field);
        assert(fields@.map_values(|f: FieldSchema| f@) =~= before.map_values(|f: FieldSchema| f@).push(
            field@,
        ));
        i = i + 1;
    }
    Ok(MessageSchema { fields })
}

} // verus!
