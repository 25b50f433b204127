//! The registry of named message schemas.

use crate::error::{ErrorSpec, MessageError};
use crate::field_type::name_of_type;
use crate::schema::{parse_schema, schema_from_items, MessageSchema, SchemaItem, SchemaSpec};
use crate::text::owned;
use vstd::prelude::*;

verus! {

/// Message schemas by name; a name is registered at most once.
pub struct SchemaRegistry {
    entries: Vec<(String, MessageSchema)>,
}

/// The mathematical value of a registry: schemas by name.
pub type RegistrySpec = Map<Seq<char>, SchemaSpec>;

/// The names of the registry's entries, in order.
pub open spec fn entry_names(entries: Seq<(String, MessageSchema)>) -> Seq<Seq<char>> {
    entries.map_values(|e: (String, MessageSchema)| e.0@)
}

/// The schemas of the entries by name; where a name occurs twice, the one
/// of either occurrence (the registry never lets that happen).
pub open spec fn entries_map(entries: Seq<(String, MessageSchema)>) -> RegistrySpec {
    Map::new(
        |k: Seq<char>| entry_names(entries).contains(k),
        |k: Seq<char>| entries[entry_names(entries).index_of(k)].1@,
    )
}

/// The field names and type names of a schema, as the registry lists them.
pub open spec fn schema_listing(s: SchemaSpec) -> Seq<(Seq<char>, Seq<char>)> {
    s.map_values(|f: (Seq<char>, crate::field_type::TypeSpec)| (f.0, name_of_type(f.1)))
}

/// In a sequence without duplicates, the position of an element is the one it is at.
proof fn lemma_index_of_unique(s: Seq<Seq<char>>, k: Seq<char>, j: int)
    requires
        s.no_duplicates(),
        0 <= j < s.len(),
        s[j] == k,
    ensures
        s.index_of(k) == j,
{
    assert(s.contains(k));
}

impl View for SchemaRegistry {
    type V = RegistrySpec;

    closed spec fn view(&self) -> RegistrySpec {
        entries_map(self.entries@)
    }
}

impl SchemaRegistry {
    #[verifier::type_invariant]
    spec fn names_unique(&self) -> bool {
        entry_names(self.entries@).no_duplicates()
    }

    /// The registry holds finitely many schemas.
    pub proof fn lemma_finite(&self)
        ensures
            self@.dom().finite(),
    {
        let names = entry_names(self.entries@);
        assert(self@.dom() =~= names.to_set());
        vstd::seq_lib::seq_to_set_is_finite(names);
    }

    /// An empty registry.
    pub fn new() -> (r: SchemaRegistry)
        ensures
            r@ == Map::<Seq<char>, SchemaSpec>::empty(),
    {
        let r = SchemaRegistry { entries: Vec::new() };
        assert(r@ =~= Map::<Seq<char>, SchemaSpec>::empty());
        r
    }

    /// The position of the entry named `name`, if there is one.
    fn find(&self, name: &str) -> (r: Option<usize>)
        ensures
            match r {
                Some(i) => i < self.entries@.len() && self.entries@[i as int].0@ == name@
                    && self@.contains_key(name@) && self@[name@] == self.entries@[i as int].1@,
                None => !self@.contains_key(name@),
            },
    {
        proof {
            use_type_invariant(self);
        }
        let ghost names = entry_names(self.entries@);
        let mut i: usize = 0;
        while i < self.entries.len()
            invariant
                i <= self.entries@.len(),
                names == entry_names(self.entries@),
                names.no_duplicates(),
                forall|j: int| 0 <= j < i ==> names[j] != name@,
            decreases self.entries@.len() - i,
        {
            if crate::text::str_equal(self.entries[i].0.as_str(), name) {
                proof {
                    assert(names[i as int] == name@);
                    assert(names.contains(name@));
                    lemma_index_of_unique(names, name@, i as int);
                }
                return Some(i);
            }
            i = i + 1;
        }
        proof {
            assert(!names.contains(name@));
        }
        None
    }

    /// Whether a schema is registered under `name`.
    pub fn schema_exists(&self, name: &str) -> (r: bool)
        ensures
            r == self@.contains_key(name@),
    {
        self.find(name).is_some()
    }

    /// The schema registered under `name`; an unknown name is an
    /// `UnknownSchema` error.
    pub fn schema(&self, name: &str) -> (r: Result<MessageSchema, MessageError>)
        ensures
            self@.contains_key(name@) ==> (r matches Ok(s) && s@ == self@[name@]),
            !self@.contains_key(name@) ==> (r matches Err(e) && e@ == ErrorSpec::UnknownSchema(
                name@,
            )),
    {
        match self.find(name) {
            Some(i) => Ok(self.entries[i].1.duplicate()),
            None => Err(MessageError::UnknownSchema(owned(name))),
        }
    }

    /// The schema registered under `name`, borrowed.
    pub(crate) fn schema_ref(&self, name: &str) -> (r: Option<&MessageSchema>)
        ensures
            self@.contains_key(name@) ==> (r matches Some(s) && s@ == self@[name@]),
            !self@.contains_key(name@) ==> r is None,
    {
        match self.find(name) {
            Some(i) => Some(&self.entries[i].1),
            None => None,
        }
    }

    /// Registers an already built schema under `name`, which must be free.
    pub fn register_parsed(&mut self, name: &str, schema: MessageSchema) -> (r: Result<
        (),
        MessageError,
    >)
        ensures
            old(self)@.contains_key(name@) ==> (r matches Err(e) && e@ == ErrorSpec::DuplicateSchema(
                name@,
            ) && final(self)@ == old(self)@),
            !old(self)@.contains_key(name@) ==> (r is Ok && final(self)@ == old(self)@.insert(
                name@,
                schema@,
            )),
    {
        proof {
            use_type_invariant(&*self);
        }
        if self.find(name).is_some() {
            return Err(MessageError::DuplicateSchema(owned(name)));
        }
        let ghost old_entries = self.entries@;
        let ghost schema_view = schema@;
        let entry = (owned(name), schema);
        let mut entries = Vec::new();
        std::mem::swap(&mut entries, &mut self.entries);
        entries.push(entry);
        proof {
            let names = entry_names(old_entries);
            let new_names = entry_names(entries@);
            assert(new_names =~= names.push(name@));
            assert(!names.contains(name@));
            assert(new_names.no_duplicates()) by {
                assert forall|a: int, b: int|
                    0 <= a < new_names.len() && 0 <= b < new_names.len() && a != b implies new_names[a]
                    != new_names[b] by {
                    if a < names.len() && b < names.len() {
                    } else if a == names.len() {
                        assert(names[b] == new_names[b]);
                    } else {
                        assert(names[a] == new_names[a]);
                    }
                }
            }
            assert forall|k: Seq<char>| new_names.contains(k) implies entries@[new_names.index_of(
                k,
            )].1@ == (if k == name@ {
                schema_view
            } else {
                old_entries[names.index_of(k)].1@
            }) by {
                if k == name@ {
                    lemma_index_of_unique(new_names, k, names.len() as int);
                } else {
                    let j = new_names.index_of(k);
                    assert(new_names[j] == k);
                    assert(j < names.len());
                    assert(names.contains(k));
                    lemma_index_of_unique(names, k, j);
                }
            }
            assert forall|k: Seq<char>| #![auto] new_names.contains(k) <==> (names.contains(k) || k
                == name@) by {
                if new_names.contains(k) {
                    let j = choose|j: int| 0 <= j < new_names.len() && new_names[j] == k;
                    if j < names.len() {
                        assert(names[j] == k);
                    }
                }
                if names.contains(k) {
                    let j = choose|j: int| 0 <= j < names.len() && names[j] == k;
                    assert(new_names[j] == k);
                }
                if k == name@ {
                    assert(new_names[names.len() as int] == k);
                }
            }
            assert(entries_map(entries@) =~= entries_map(old_entries).insert(name@, schema_view));
        }
        self.entries = entries;
        Ok(())
    }

    /// Parses a schema definition (see [`parse_schema`]) and registers it under
    /// `name`: a definition error comes first, then a name already taken.
    pub fn register_schema(&mut self, name: &str, items: &Vec<SchemaItem>) -> (r: Result<
        (),
        MessageError,
    >)
        ensures
            match schema_from_items(items@, items@.len() as int) {
                Err(e) => r matches Err(x) && x@ == e && final(self)@ == old(self)@,
                Ok(s) => if old(self)@.contains_key(name@) {
                    r matches Err(x) && x@ == ErrorSpec::DuplicateSchema(name@) && final(self)@
                        == old(self)@
                } else {
                    r is Ok && final(self)@ == old(self)@.insert(name@, s)
                },
            },
    {
        let schema = parse_schema(items)?;
        self.register_parsed(name, schema)
    }

    /// The field names and type names of the schema registered under `name`.
    pub fn get_schema(&self, name: &str) -> (r: Result<Vec<(String, String)>, MessageError>)
        ensures
            self@.contains_key(name@) ==> (r matches Ok(v) && v@.map_values(
                |p: (String, String)| (p.0@, p.1@),
            ) == schema_listing(self@[name@])),
            !self@.contains_key(name@) ==> (r matches Err(e) && e@ == ErrorSpec::UnknownSchema(
                name@,
            )),
    {
        let schema = match self.schema_ref(name) {
            Some(s) => s,
            None => {
                return Err(MessageError::UnknownSchema(owned(name)));
            },
        };
        let mut out: Vec<(String, String)> = Vec::new();
        let mut i: usize = 0;
        while i < schema.fields.len()
            invariant
                i <= schema.fields@.len(),
                out@.len() == i,
                forall|j: int|
                    0 <= j < i ==> (#[trigger] out@[j]).0@ == schema.fields@[j].name@ && out@[j].1@
                        == name_of_type(schema.fields@[j].field_type@),
            decreases schema.fields@.len() - i,
        {
            let f = &schema.fields[i];
            out.push((f.name.clone(), f.field_type.as_name()));
            i = i + 1;
        }
        assert(out@.map_values(|p: (String, String)| (p.0@, p.1@)) =~= schema_listing(schema@));
        Ok(out)
    }

    /// Removes the schema registered under `name`; an unknown name is an
    /// `UnknownSchema` error.
    pub fn unregister_schema(&mut self, name: &str) -> (r: Result<(), MessageError>)
        ensures
            old(self)@.contains_key(name@) ==> (r is Ok && final(self)@ == old(self)@.remove(
                name@,
            )),
            !old(self)@.contains_key(name@) ==> (r matches Err(e) && e@ == ErrorSpec::UnknownSchema(
                name@,
            ) && final(self)@ == old(self)@),
    {
        proof {
            use_type_invariant(&*self);
        }
        let i = match self.find(name) {
            Some(i) => i,
            None => {
                return Err(MessageError::UnknownSchema(owned(name)));
            },
        };
        let ghost old_entries = self.entries@;
        let mut entries = Vec::new();
        std::mem::swap(&mut entries, &mut self.entries);
        let _ = entries.remove(i);
        proof {
            let names = entry_names(old_entries);
            let new_names = entry_names(entries@);
            assert(names[i as int] == name@);
            assert(new_names =~= names.remove(i as int));
            assert(new_names.no_duplicates()) by {
                assert forall|a: int, b: int|
                    0 <= a < new_names.len() && 0 <= b < new_names.len() && a != b implies new_names[a]
                    != new_names[b] by {
                    let a2 = if a < i { a } else { a + 1 };
                    let b2 = if b < i { b } else { b + 1 };
                    assert(new_names[a] == names[a2]);
                    assert(new_names[b] == names[b2]);
                }
            }
            assert forall|k: Seq<char>| #![auto] new_names.contains(k) <==> (names.contains(k) && k
                != name@) by {
                if new_names.contains(k) {
                    let j = choose|j: int| 0 <= j < new_names.len() && new_names[j] == k;
                    let j2 = if j < i { j } else { j + 1 };
                    assert(names[j2] == k);
                    assert(j2 != i);
                }
                if names.contains(k) && k != name@ {
                    let j = choose|j: int| 0 <= j < names.len() && names[j] == k;
                    assert(j != i);
                    let j2 = if j < i { j } else { j - 1 };
                    assert(new_names[j2] == k);
                }
            }
            assert forall|k: Seq<char>| new_names.contains(k) implies entries@[new_names.index_of(
                k,
            )].1@ == old_entries[names.index_of(k)].1@ by {
                let j = new_names.index_of(k);
                assert(new_names[j] == k);
                let j2 = if j < i { j } else { j + 1 };
                assert(names[j2] == k);
                lemma_index_of_unique(names, k, j2);
            }
            assert(entries_map(entries@) =~= entries_map(old_entries).remove(name@));
        }
        self.entries = entries;
        Ok(())
    }
}

} // verus!
