//! Serialization of messages to little-endian CDR.

use crate::error::{ErrorSpec, MessageError};
use crate::field_type::{name_of_type, FieldType, TypeSpec};
use crate::le::{lemma_pow256_values, le_bytes, pow256, push_u16_le, push_u32_le, push_u64_le, twos};
use crate::registry::{RegistrySpec, SchemaRegistry};
use crate::schema::SchemaSpec;
use crate::text::{join2, join3, owned};
use crate::value::{f32_bits, f32_bits_of, f64_bits, f64_bits_of, int_of, int_value, kind_name, type_name_for_value, Value};
use vstd::prelude::*;
use vstd::utf8::encode_utf8;

verus! {

/// The encapsulation header of little-endian CDR that every payload starts with.
pub open spec fn cdr_le_header() -> Seq<u8> {
    seq![0x00u8, 0x01u8, 0x00u8, 0x00u8]
}

/// `buf` padded with zero bytes to a multiple of `align` bytes.
pub open spec fn pad_to(buf: Seq<u8>, align: nat) -> Seq<u8> {
    if align == 0 || buf.len() % align == 0 {
        buf
    } else {
        buf + Seq::new((align - buf.len() % align) as nat, |i: int| 0u8)
    }
}

/// The position of the first entry whose key is `key`, from position `i` on.
pub open spec fn find_key_from<V>(entries: Seq<(String, V)>, key: Seq<char>, i: int) -> Option<int>
    decreases entries.len() - i,
{
    if i < 0 || i >= entries.len() {
        None
    } else if entries[i].0@ == key {
        Some(i)
    } else {
        find_key_from(entries, key, i + 1)
    }
}

/// A position found is the position of an entry with that key.
pub proof fn lemma_find_key_from<V>(entries: Seq<(String, V)>, key: Seq<char>, i: int)
    ensures
        find_key_from(entries, key, i) matches Some(k) ==> 0 <= i <= k < entries.len()
            && entries[k].0@ == key,
    decreases entries.len() - i,
{
    if 0 <= i < entries.len() && entries[i].0@ != key {
        lemma_find_key_from(entries, key, i + 1);
    }
}

/// The position of the first entry whose key is `key`.
pub open spec fn find_key<V>(entries: Seq<(String, V)>, key: Seq<char>) -> Option<int> {
    find_key_from(entries, key, 0)
}

/// The type mismatch reported for the field labelled `label` whose value has
/// the short type name `got`.
pub open spec fn mismatch(label: Seq<char>, expected: Seq<char>, got: Seq<char>) -> ErrorSpec {
    ErrorSpec::TypeMismatch { field: label, expected, got }
}

/// A four-byte CDR length: the count modulo 2^32.
pub open spec fn length_word(n: nat) -> Seq<u8> {
    le_bytes((n % 0x1_0000_0000) as int, 4)
}

/// An integer field of `n` bytes aligned to `n` bytes, whose value must lie
/// in `lo..=hi`.
pub open spec fn write_int(
    v: Value,
    n: nat,
    lo: int,
    hi: int,
    expected: Seq<char>,
    label: Seq<char>,
    got: Seq<char>,
    buf: Seq<u8>,
) -> Result<Seq<u8>, ErrorSpec> {
    let b = pad_to(buf, n);
    match int_of(v) {
        Some(x) => if lo <= x && x <= hi {
            Ok(b + le_bytes(twos(x, n), n))
        } else {
            Err(mismatch(label, expected, got))
        },
        None => Err(mismatch(label, expected, got)),
    }
}

/// A time or duration field: a mapping with an `i32` `sec` and a `u32`
/// `nanosec`, each aligned to 4 bytes.
pub open spec fn write_stamp(
    v: Value,
    tname: Seq<char>,
    path: Seq<char>,
    label: Seq<char>,
    got: Seq<char>,
    buf: Seq<u8>,
) -> Result<Seq<u8>, ErrorSpec> {
    match v {
        Value::Dict(entries) => {
            let b = pad_to(buf, 4);
            match find_key(entries@, "sec"@) {
                None => Err(ErrorSpec::SerializationError("Missing field '"@ + path + ".sec'"@)),
                Some(k) => match int_of(entries@[k].1) {
                    Some(sec) if -0x8000_0000 <= sec && sec <= 0x7fff_ffff => {
                        let b2 = pad_to(b + le_bytes(twos(sec, 4), 4), 4);
                        match find_key(entries@, "nanosec"@) {
                            None => Err(
                                ErrorSpec::SerializationError(
                                    "Missing field '"@ + path + ".nanosec'"@,
                                ),
                            ),
                            Some(k2) => match int_of(entries@[k2].1) {
                                Some(ns) if 0 <= ns && ns <= 0xffff_ffff => Ok(
                                    b2 + le_bytes(ns, 4),
                                ),
                                _ => Err(mismatch(label, tname + " with uint32 nanosec"@, got)),
                            },
                        }
                    },
                    _ => Err(mismatch(label, tname + " with int32 sec"@, got)),
                },
            }
        },
        _ => Err(mismatch(label, tname, got)),
    }
}

/// The alignment of a type that holds no other type and is written as one
/// aligned item (a number, a string or a byte string); 0 for arrays,
/// structures, times and durations.
pub open spec fn scalar_align(t: TypeSpec) -> nat {
    match t {
        TypeSpec::Bool | TypeSpec::Int8 | TypeSpec::UInt8 => 1,
        TypeSpec::Int16 | TypeSpec::UInt16 => 2,
        TypeSpec::Int32 | TypeSpec::UInt32 | TypeSpec::Float32 | TypeSpec::RosString
        | TypeSpec::RosBytes => 4,
        TypeSpec::Int64 | TypeSpec::UInt64 | TypeSpec::Float64 => 8,
        _ => 0,
    }
}

/// The bytes that writing value `v` as type `t` appends to `buf`, or the
/// error it fails with. `path` names the field (dotted below structures),
/// and a type mismatch is reported against the field `label` whose value has
/// the short type name `got`.
pub open spec fn write_value(
    reg: RegistrySpec,
    t: TypeSpec,
    v: Value,
    path: Seq<char>,
    label: Seq<char>,
    got: Seq<char>,
    buf: Seq<u8>,
) -> Result<Seq<u8>, ErrorSpec>
    decreases v, 1nat, 0int,
{
    match t {
        TypeSpec::Bool => match v {
            Value::Bool(x) => Ok(
                pad_to(buf, 1).push(
                    if x {
                        1u8
                    } else {
                        0u8
                    },
                ),
            ),
            _ => Err(mismatch(label, "bool"@, got)),
        },
        TypeSpec::Int8 => write_int(v, 1, -0x80, 0x7f, "int8"@, label, got, buf),
        TypeSpec::Int16 => write_int(v, 2, -0x8000, 0x7fff, "int16"@, label, got, buf),
        TypeSpec::Int32 => write_int(v, 4, -0x8000_0000, 0x7fff_ffff, "int32"@, label, got, buf),
        TypeSpec::Int64 => write_int(
            v,
            8,
            -0x8000_0000_0000_0000,
            0x7fff_ffff_ffff_ffff,
            "int64"@,
            label,
            got,
            buf,
        ),
        TypeSpec::UInt8 => write_int(v, 1, 0, 0xff, "uint8"@, label, got, buf),
        TypeSpec::UInt16 => write_int(v, 2, 0, 0xffff, "uint16"@, label, got, buf),
        TypeSpec::UInt32 => write_int(v, 4, 0, 0xffff_ffff, "uint32"@, label, got, buf),
        TypeSpec::UInt64 => write_int(v, 8, 0, 0xffff_ffff_ffff_ffff, "uint64"@, label, got, buf),
        TypeSpec::Float32 => match f32_bits_of(v) {
            Some(bits) => Ok(pad_to(buf, 4) + le_bytes(bits as int, 4)),
            None => Err(mismatch(label, "float32"@, got)),
        },
        TypeSpec::Float64 => match f64_bits_of(v) {
            Some(bits) => Ok(pad_to(buf, 8) + le_bytes(bits as int, 8)),
            None => Err(mismatch(label, "float64"@, got)),
        },
        TypeSpec::RosString => match v {
            Value::Str(s) => {
                let bytes = encode_utf8(s@);
                Ok(
                    pad_to(buf, 4) + le_bytes(
                        (((bytes.len() % 0x1_0000_0000) + 1) % 0x1_0000_0000) as int,
                        4,
                    ) + bytes.push(0u8),
                )
            },
            _ => Err(mismatch(label, "string"@, got)),
        },
        TypeSpec::RosBytes => match v {
            Value::Bytes(b) => Ok(pad_to(buf, 4) + length_word(b@.len()) + b@),
            _ => Err(mismatch(label, "bytes"@, got)),
        },
        TypeSpec::Array(inner) => match v {
            Value::List(items) => write_items(
                reg,
                *inner,
                v,
                0,
                path,
                pad_to(buf, 4) + length_word(items@.len()),
            ),
            _ => Err(mismatch(label, "array<"@ + name_of_type(*inner) + ">"@, got)),
        },
        TypeSpec::Struct(name) => match v {
            Value::Dict(_) => if reg.contains_key(name) {
                write_fields(reg, reg[name], v, 0, path, label, got, buf)
            } else {
                Err(ErrorSpec::UnknownSchema(name))
            },
            _ => Err(mismatch(label, "struct:"@ + name, got)),
        },
        TypeSpec::Time => write_stamp(v, "time"@, path, label, got, buf),
        TypeSpec::Duration => write_stamp(v, "duration"@, path, label, got, buf),
    }
}

/// The items of list `list` from position `j` on, each written as `inner`;
/// a mismatch is reported against the array field with the item's type name.
pub open spec fn write_items(
    reg: RegistrySpec,
    inner: TypeSpec,
    list: Value,
    j: int,
    path: Seq<char>,
    buf: Seq<u8>,
) -> Result<Seq<u8>, ErrorSpec>
    decreases list, 0nat, if list is List && j < list->List_0@.len() { list->List_0@.len() - j } else { 0 },
{
    match list {
        Value::List(items) => if 0 <= j < items@.len() {
            let item = items@[j];
            match write_value(reg, inner, item, path, path, kind_name(item), buf) {
                Ok(b) => write_items(reg, inner, list, j + 1, path, b),
                Err(e) => Err(e),
            }
        } else {
            Ok(buf)
        },
        _ => Ok(buf),
    }
}

/// The fields of `schema` from position `i` on, each taken by name from the
/// mapping `dict` and written in turn.
pub open spec fn write_fields(
    reg: RegistrySpec,
    schema: SchemaSpec,
    dict: Value,
    i: int,
    path: Seq<char>,
    label: Seq<char>,
    got: Seq<char>,
    buf: Seq<u8>,
) -> Result<Seq<u8>, ErrorSpec>
    decreases dict, 0nat, if i < schema.len() { schema.len() - i } else { 0 },
{
    match dict {
        Value::Dict(entries) => if 0 <= i < schema.len() {
            let fname = schema[i].0;
            match find_key(entries@, fname) {
                None => Err(
                    ErrorSpec::SerializationError(
                        "Missing nested field '"@ + path + "."@ + fname + "'"@,
                    ),
                ),
                Some(k) => match {
                    proof {
                        lemma_find_key_from(entries@, fname, 0);
                    }
                    write_value(
                    reg,
                    schema[i].1,
                    entries@[k].1,
                    path + "."@ + fname,
                    label,
                    got,
                    buf,
                )} {
                    Ok(b) => write_fields(reg, schema, dict, i + 1, path, label, got, b),
                    Err(e) => Err(e),
                },
            }
        } else {
            Ok(buf)
        },
        _ => Ok(buf),
    }
}

/// The fields of `schema` from position `i` on, each taken by name from the
/// top-level `values` and written in turn.
pub open spec fn write_message(
    reg: RegistrySpec,
    schema: SchemaSpec,
    values: Seq<(String, Value)>,
    i: int,
    buf: Seq<u8>,
) -> Result<Seq<u8>, ErrorSpec>
    decreases if i < schema.len() { schema.len() - i } else { 0 },
{
    if 0 <= i < schema.len() {
        let fname = schema[i].0;
        match find_key(values, fname) {
            None => Err(ErrorSpec::SerializationError("Missing field '"@ + fname + "'"@)),
            Some(k) => match write_value(
                reg,
                schema[i].1,
                values[k].1,
                fname,
                fname,
                kind_name(values[k].1),
                buf,
            ) {
                Ok(b) => write_message(reg, schema, values, i + 1, b),
                Err(e) => Err(e),
            },
        }
    } else {
        Ok(buf)
    }
}

/// The CDR payload of the message `values` under the schema registered as
/// `name`: the little-endian encapsulation header, then the body, which holds
/// each field of the schema in order, taken from `values` by name. Alignment
/// counts from the first byte of the body, as standard CDR does.
pub open spec fn serialize_spec(reg: RegistrySpec, name: Seq<char>, values: Seq<(String, Value)>) -> Result<
    Seq<u8>,
    ErrorSpec,
> {
    if reg.contains_key(name) {
        match write_message(reg, reg[name], values, 0, Seq::empty()) {
            Ok(body) => Ok(cdr_le_header() + body),
            Err(e) => Err(e),
        }
    } else {
        Err(ErrorSpec::UnknownSchema(name))
    }
}

/// Whether a write returned what the expected outcome says: its bytes in
/// `out`, or its error.
pub open spec fn write_matches(
    r: Result<(), MessageError>,
    out: Seq<u8>,
    expected: Result<Seq<u8>, ErrorSpec>,
) -> bool {
    match expected {
        Ok(b) => r is Ok && out == b,
        Err(e) => r matches Err(x) && x@ == e,
    }
}

/// Padding only appends.
pub proof fn lemma_pad_grows(buf: Seq<u8>, align: nat)
    ensures
        pad_to(buf, align).len() >= buf.len(),
        pad_to(buf, align).subrange(0, buf.len() as int) =~= buf,
{
}

/// Writing only appends to the buffer; anything but a structure appends at
/// least one byte.
pub proof fn lemma_write_appends(
    reg: RegistrySpec,
    t: TypeSpec,
    v: Value,
    path: Seq<char>,
    label: Seq<char>,
    got: Seq<char>,
    buf: Seq<u8>,
)
    ensures
        write_value(reg, t, v, path, label, got, buf) matches Ok(out) ==> out.len() >= buf.len()
            && out.subrange(0, buf.len() as int) =~= buf && (!(t is Struct) ==> out.len()
            > buf.len()),
    decreases v, 1nat, 0int,
{
    lemma_pad_grows(buf, 1);
    lemma_pad_grows(buf, 2);
    lemma_pad_grows(buf, 4);
    lemma_pad_grows(buf, 8);
    crate::le::lemma_le_bytes_len(0, 0);
    if let Ok(out) = write_value(reg, t, v, path, label, got, buf) {
        match t {
            TypeSpec::Array(inner) => {
                if let Value::List(items) = v {
                    let start = pad_to(buf, 4) + length_word(items@.len());
                    crate::le::lemma_le_bytes_len((items@.len() % 0x1_0000_0000) as int, 4);
                    lemma_items_append(reg, *inner, v, 0, path, start);
                }
            },
            TypeSpec::Struct(name) => {
                lemma_fields_append(reg, reg[name], v, 0, path, label, got, buf);
            },
            TypeSpec::Time | TypeSpec::Duration => {
                if let Value::Dict(entries) = v {
                    if let Some(k) = find_key(entries@, "sec"@) {
                        if let Some(sec) = int_of(entries@[k].1) {
                            let b = pad_to(buf, 4);
                            crate::le::lemma_le_bytes_len(twos(sec, 4), 4);
                            lemma_pad_grows(b + le_bytes(twos(sec, 4), 4), 4);
                            if let Some(k2) = find_key(entries@, "nanosec"@) {
                                if let Some(ns) = int_of(entries@[k2].1) {
                                    crate::le::lemma_le_bytes_len(ns, 4);
                                }
                            }
                        }
                    }
                }
            },
            TypeSpec::RosString => {
                if let Value::Str(s) = v {
                    let bytes = encode_utf8(s@);
                    crate::le::lemma_le_bytes_len(
                        (((bytes.len() % 0x1_0000_0000) + 1) % 0x1_0000_0000) as int,
                        4,
                    );
                }
            },
            TypeSpec::RosBytes => {
                if let Value::Bytes(b) = v {
                    crate::le::lemma_le_bytes_len((b@.len() % 0x1_0000_0000) as int, 4);
                }
            },
            TypeSpec::Float32 => {
                if let Some(bits) = f32_bits_of(v) {
                    crate::le::lemma_le_bytes_len(bits as int, 4);
                }
            },
            TypeSpec::Float64 => {
                if let Some(bits) = f64_bits_of(v) {
                    crate::le::lemma_le_bytes_len(bits as int, 8);
                }
            },
            _ => {
                if let Some(x) = int_of(v) {
                    crate::le::lemma_le_bytes_len(twos(x, 1), 1);
                    crate::le::lemma_le_bytes_len(twos(x, 2), 2);
                    crate::le::lemma_le_bytes_len(twos(x, 4), 4);
                    crate::le::lemma_le_bytes_len(twos(x, 8), 8);
                }
            },
        }
    }
}

pub proof fn lemma_items_append(
    reg: RegistrySpec,
    inner: TypeSpec,
    list: Value,
    j: int,
    path: Seq<char>,
    buf: Seq<u8>,
)
    ensures
        write_items(reg, inner, list, j, path, buf) matches Ok(out) ==> out.len() >= buf.len()
            && out.subrange(0, buf.len() as int) =~= buf,
    decreases list, 0nat, if list is List && j < list->List_0@.len() { list->List_0@.len() - j } else { 0 },
{
    if let Value::List(items) = list {
        if 0 <= j < items@.len() {
            let item = items@[j];
            lemma_write_appends(reg, inner, item, path, path, kind_name(item), buf);
            if let Ok(b) = write_value(reg, inner, item, path, path, kind_name(item), buf) {
                lemma_items_append(reg, inner, list, j + 1, path, b);
                if let Ok(out) = write_items(reg, inner, list, j + 1, path, b) {
                    assert(out.subrange(0, buf.len() as int) =~= out.subrange(0, b.len() as int).subrange(0, buf.len() as int));
                }
            }
        }
    }
}

pub proof fn lemma_fields_append(
    reg: RegistrySpec,
    schema: SchemaSpec,
    dict: Value,
    i: int,
    path: Seq<char>,
    label: Seq<char>,
    got: Seq<char>,
    buf: Seq<u8>,
)
    ensures
        write_fields(reg, schema, dict, i, path, label, got, buf) matches Ok(out) ==> out.len()
            >= buf.len() && out.subrange(0, buf.len() as int) =~= buf,
    decreases dict, 0nat, if i < schema.len() { schema.len() - i } else { 0 },
{
    if let Value::Dict(entries) = dict {
        if 0 <= i < schema.len() {
            let fname = schema[i].0;
            lemma_find_key_from(entries@, fname, 0);
            if let Some(k) = find_key(entries@, fname) {
                let w = entries@[k].1;
                let sub = path + "."@ + fname;
                lemma_write_appends(reg, schema[i].1, w, sub, label, got, buf);
                if let Ok(b) = write_value(reg, schema[i].1, w, sub, label, got, buf) {
                    lemma_fields_append(reg, schema, dict, i + 1, path, label, got, b);
                    if let Ok(out) = write_fields(reg, schema, dict, i + 1, path, label, got, b) {
                        assert(out.subrange(0, buf.len() as int) =~= out.subrange(0, b.len() as int).subrange(0, buf.len() as int));
                    }
                }
            }
        }
    }
}

/// A prefix of a prefix is a prefix.
pub proof fn lemma_prefix_trans(a: Seq<u8>, b: Seq<u8>, c: Seq<u8>)
    requires
        a.is_prefix_of(b),
        b.is_prefix_of(c),
    ensures
        a.is_prefix_of(c),
{
    assert(c.subrange(0, a.len() as int) =~= b.subrange(0, a.len() as int));
}

fn append_bytes(buf: &mut Vec<u8>, bytes: &[u8])
    ensures
        final(buf)@ == old(buf)@ + bytes@,
{
    let mut k: usize = 0;
    while k < bytes.len()
        invariant
            k <= bytes@.len(),
            buf@ == old(buf)@ + bytes@.subrange(0, k as int),
        decreases bytes@.len() - k,
    {
        buf.push(bytes[k]);
        k = k + 1;
        assert(buf@ =~= old(buf)@ + bytes@.subrange(0, k as int));
    }
    assert(bytes@.subrange(0, bytes@.len() as int) =~= bytes@);
}

/// Pads `buf` with zero bytes to a multiple of `align` bytes.
pub fn align_write(buf: &mut Vec<u8>, align: usize)
    requires
        align > 0,
    ensures
        final(buf)@ == pad_to(old(buf)@, align as nat),
        old(buf)@.is_prefix_of(final(buf)@),
{
    proof {
        lemma_pad_grows(buf@, align as nat);
    }
    let rem = buf.len() % align;
    if rem != 0 {
        let pad = align - rem;
        let mut k: usize = 0;
        while k < pad
            invariant
                k <= pad,
                buf@ == old(buf)@ + Seq::new(k as nat, |i: int| 0u8),
            decreases pad - k,
        {
            buf.push(0u8);
            k = k + 1;
            assert(buf@ =~= old(buf)@ + Seq::new(k as nat, |i: int| 0u8));
        }
    }
}

/// The position of the first entry of `entries` whose key is `key`.
pub fn find_entry<V>(entries: &Vec<(String, V)>, key: &str) -> (r: Option<usize>)
    ensures
        match r {
            Some(k) => find_key(entries@, key@) == Some(k as int) && k < entries@.len()
                && entries@[k as int].0@ == key@,
            None => find_key(entries@, key@) is None,
        },
{
    proof {
        lemma_find_key_from(entries@, key@, 0);
    }
    let mut i: usize = 0;
    while i < entries.len()
        invariant
            i <= entries@.len(),
            find_key(entries@, key@) == find_key_from(entries@, key@, i as int),
        decreases entries@.len() - i,
    {
        if crate::text::str_equal(entries[i].0.as_str(), key) {
            return Some(i);
        }
        i = i + 1;
    }
    None
}

fn mismatch_error(label: &str, expected: String, got: &str) -> (r: MessageError)
    ensures
        r@ == mismatch(label@, expected@, got@),
{
    MessageError::TypeMismatch { field: owned(label), expected, got: owned(got) }
}

/// Writes an integer field of `n` bytes (1, 2, 4 or 8) whose value must lie
/// in `lo..=hi`.
fn write_integer(
    v: &Value,
    n: usize,
    lo: i128,
    hi: i128,
    expected: &str,
    label: &str,
    got: &str,
    buf: &mut Vec<u8>,
) -> (r: Result<(), MessageError>)
    requires
        n == 1 || n == 2 || n == 4 || n == 8,
        -pow256(n as nat) <= lo,
        hi < pow256(n as nat),
    ensures
        write_matches(
            r,
            final(buf)@,
            write_int(*v, n as nat, lo as int, hi as int, expected@, label@, got@, old(buf)@),
        ),
        r is Err ==> final(buf)@ == pad_to(old(buf)@, n as nat),
{
    proof {
        lemma_pow256_values();
    }
    align_write(buf, n);
    let x = match int_value(v) {
        Some(x) => x,
        None => {
            return Err(mismatch_error(label, owned(expected), got));
        },
    };
    if x < lo || x > hi {
        return Err(mismatch_error(label, owned(expected), got));
    }
    let ghost before = buf@;
    let u: i128 = if x < 0 {
        if n == 1 {
            x + 0x100
        } else if n == 2 {
            x + 0x1_0000
        } else if n == 4 {
            x + 0x1_0000_0000
        } else {
            x + 0x1_0000_0000_0000_0000
        }
    } else {
        x
    };
    assert(u == twos(x as int, n as nat));
    assert(0 <= u < pow256(n as nat));
    if n == 1 {
        buf.push(u as u8);
        assert(le_bytes(u as int, 1) =~= seq![u as u8]) by {
            reveal_with_fuel(le_bytes, 2);
        }
    } else if n == 2 {
        assert(u as u16 as int == u);
        push_u16_le(buf, u as u16);
    } else if n == 4 {
        assert(u as u32 as int == u);
        push_u32_le(buf, u as u32);
    } else {
        assert(u as u64 as int == u);
        push_u64_le(buf, u as u64);
    }
    assert(buf@ == before + le_bytes(twos(x as int, n as nat), n as nat));
    Ok(())
}

/// Writes a time or duration field (see [`write_stamp`]).
fn write_time(
    v: &Value,
    tname: &str,
    path: &str,
    label: &str,
    got: &str,
    buf: &mut Vec<u8>,
) -> (r: Result<(), MessageError>)
    ensures
        write_matches(r, final(buf)@, write_stamp(*v, tname@, path@, label@, got@, old(buf)@)),
        old(buf)@.is_prefix_of(final(buf)@),
{
    proof {
        lemma_pow256_values();
    }
    let entries = match v {
        Value::Dict(entries) => entries,
        _ => {
            return Err(mismatch_error(label, owned(tname), got));
        },
    };
    align_write(buf, 4);
    let k = match find_entry(entries, "sec") {
        Some(k) => k,
        None => {
            return Err(MessageError::SerializationError(join3("Missing field '", path, ".sec'")));
        },
    };
    let sec = match int_value(&entries[k].1) {
        Some(x) => x,
        None => {
            return Err(mismatch_error(label, join2(tname, " with int32 sec"), got));
        },
    };
    if sec < -0x8000_0000 || sec > 0x7fff_ffff {
        return Err(mismatch_error(label, join2(tname, " with int32 sec"), got));
    }
    let sec_word: u32 = if sec < 0 {
        (sec + 0x1_0000_0000) as u32
    } else {
        sec as u32
    };
    assert(sec_word as int == twos(sec as int, 4));
    push_u32_le(buf, sec_word);
    align_write(buf, 4);
    let k2 = match find_entry(entries, "nanosec") {
        Some(k) => k,
        None => {
            return Err(
                MessageError::SerializationError(join3("Missing field '", path, ".nanosec'")),
            );
        },
    };
    let ns = match int_value(&entries[k2].1) {
        Some(x) => x,
        None => {
            return Err(mismatch_error(label, join2(tname, " with uint32 nanosec"), got));
        },
    };
    if ns < 0 || ns > 0xffff_ffff {
        return Err(mismatch_error(label, join2(tname, " with uint32 nanosec"), got));
    }
    push_u32_le(buf, ns as u32);
    Ok(())
}

/// Writes value `v` as type `t` to `buf` (see [`write_value`]).
pub fn write_by_type(
    reg: &SchemaRegistry,
    t: &FieldType,
    v: &Value,
    path: &str,
    label: &str,
    got: &str,
    buf: &mut Vec<u8>,
) -> (r: Result<(), MessageError>)
    ensures
        write_matches(r, final(buf)@, write_value(reg@, t@, *v, path@, label@, got@, old(buf)@)),
        old(buf)@.is_prefix_of(final(buf)@),
        r is Err && scalar_align(t@) > 0 ==> final(buf)@ == pad_to(old(buf)@, scalar_align(t@)),
    decreases v,
{
    proof {
        lemma_pow256_values();
        lemma_write_appends(reg@, t@, *v, path@, label@, got@, buf@);
        lemma_pad_grows(buf@, scalar_align(t@));
    }
    match t {
        FieldType::Bool => {
            align_write(buf, 1);
            let x = match v {
                Value::Bool(x) => *x,
                _ => {
                    return Err(mismatch_error(label, owned("bool"), got));
                },
            };
            buf.push(
                if x {
                    1u8
                } else {
                    0u8
                },
            );
            Ok(())
        },
        FieldType::Int8 => write_integer(v, 1, -0x80, 0x7f, "int8", label, got, buf),
        FieldType::Int16 => write_integer(v, 2, -0x8000, 0x7fff, "int16", label, got, buf),
        FieldType::Int32 => write_integer(
            v,
            4,
            -0x8000_0000,
            0x7fff_ffff,
            "int32",
            label,
            got,
            buf,
        ),
        FieldType::Int64 => write_integer(
            v,
            8,
            -0x8000_0000_0000_0000,
            0x7fff_ffff_ffff_ffff,
            "int64",
            label,
            got,
            buf,
        ),
        FieldType::UInt8 => write_integer(v, 1, 0, 0xff, "uint8", label, got, buf),
        FieldType::UInt16 => write_integer(v, 2, 0, 0xffff, "uint16", label, got, buf),
        FieldType::UInt32 => write_integer(v, 4, 0, 0xffff_ffff, "uint32", label, got, buf),
        FieldType::UInt64 => write_integer(
            v,
            8,
            0,
            0xffff_ffff_ffff_ffff,
            "uint64",
            label,
            got,
            buf,
        ),
        FieldType::Float32 => {
            align_write(buf, 4);
            match f32_bits(v) {
                Some(bits) => {
                    push_u32_le(buf, bits);
                    Ok(())
                },
                None => Err(mismatch_error(label, owned("float32"), got)),
            }
        },
        FieldType::Float64 => {
            align_write(buf, 8);
            match f64_bits(v) {
                Some(bits) => {
                    push_u64_le(buf, bits);
                    Ok(())
                },
                None => Err(mismatch_error(label, owned("float64"), got)),
            }
        },
        FieldType::RosString => {
            align_write(buf, 4);
            let text = match v {
                Value::Str(s) => s,
                _ => {
                    return Err(mismatch_error(label, owned("string"), got));
                },
            };
            let bytes = text.as_str().as_bytes();
            let count = (bytes.len() as u64 % 0x1_0000_0000) as u32;
            let ros_len: u32 = if count == 0xffff_ffff {
                0
            } else {
                count + 1
            };
            push_u32_le(buf, ros_len);
            append_bytes(buf, bytes);
            buf.push(0u8);
            Ok(())
        },
        FieldType::RosBytes => {
            align_write(buf, 4);
            let data = match v {
                Value::Bytes(b) => b,
                _ => {
                    return Err(mismatch_error(label, owned("bytes"), got));
                },
            };
            push_u32_le(buf, (data.len() as u64 % 0x1_0000_0000) as u32);
            append_bytes(buf, data.as_slice());
            Ok(())
        },
        FieldType::Array(inner) => {
            align_write(buf, 4);
            let items = match v {
                Value::List(items) => items,
                _ => {
                    let inner_name = inner.as_name();
                    return Err(
                        mismatch_error(label, join3("array<", inner_name.as_str(), ">"), got),
                    );
                },
            };
            push_u32_le(buf, (items.len() as u64 % 0x1_0000_0000) as u32);
            let ghost total = write_value(reg@, t@, *v, path@, label@, got@, old(buf)@);
            let mut j: usize = 0;
            while j < items.len()
                invariant
                    j <= items@.len(),
                    *v == Value::List(*items),
                    t@ == TypeSpec::Array(Box::new(inner@)),
                    total == write_value(reg@, t@, *v, path@, label@, got@, old(buf)@),
                    total == write_items(reg@, inner@, *v, j as int, path@, buf@),
                    old(buf)@.is_prefix_of(buf@),
                decreases items@.len() - j,
            {
                let item = &items[j];
                let item_got = type_name_for_value(item);
                let ghost before = buf@;
                let step = write_by_type(reg, inner, item, path, path, item_got.as_str(), buf);
                proof {
                    lemma_prefix_trans(old(buf)@, before, buf@);
                }
                match step {
                    Ok(()) => {},
                    Err(e) => {
                        return Err(e);
                    },
                }
                j = j + 1;
            }
            Ok(())
        },
        FieldType::Struct(name) => {
            let entries = match v {
                Value::Dict(entries) => entries,
                _ => {
                    return Err(mismatch_error(label, join2("struct:", name.as_str()), got));
                },
            };
            let schema = match reg.schema_ref(name.as_str()) {
                Some(s) => s,
                None => {
                    return Err(MessageError::UnknownSchema(name.clone()));
                },
            };
            let ghost total = write_value(reg@, t@, *v, path@, label@, got@, old(buf)@);
            let mut i: usize = 0;
            while i < schema.fields.len()
                invariant
                    i <= schema.fields@.len(),
                    *v == Value::Dict(*entries),
                    total == write_value(reg@, t@, *v, path@, label@, got@, old(buf)@),
                    total == write_fields(reg@, schema@, *v, i as int, path@, label@, got@, buf@),
                    old(buf)@.is_prefix_of(buf@),
                    scalar_align(t@) == 0,
                decreases schema.fields@.len() - i,
            {
                let field = &schema.fields[i];
                assert(schema@[i as int] == schema.fields@[i as int]@);
                let k = match find_entry(entries, field.name.as_str()) {
                    Some(k) => k,
                    None => {
                        let mut text = join3("Missing nested field '", path, ".");
                        text.append(field.name.as_str());
                        text.append("'");
                        return Err(MessageError::SerializationError(text));
                    },
                };
                let sub_path = join3(path, ".", field.name.as_str());
                let ghost before = buf@;
                let step = write_by_type(
                    reg,
                    &field.field_type,
                    &entries[k].1,
                    sub_path.as_str(),
                    label,
                    got,
                    buf,
                );
                proof {
                    lemma_prefix_trans(old(buf)@, before, buf@);
                }
                match step {
                    Ok(()) => {},
                    Err(e) => {
                        return Err(e);
                    },
                }
                i = i + 1;
            }
            Ok(())
        },
        FieldType::Time => write_time(v, "time", path, label, got, buf),
        FieldType::Duration => write_time(v, "duration", path, label, got, buf),
    }
}

impl SchemaRegistry {
    /// Serializes the message `values` under the schema registered as
    /// `schema_name` (see [`serialize_spec`]).
    pub fn serialize(&self, schema_name: &str, values: &Vec<(String, Value)>) -> (r: Result<
        Vec<u8>,
        MessageError,
    >)
        ensures
            match serialize_spec(self@, schema_name@, values@) {
                Ok(b) => r matches Ok(x) && x@ == b,
                Err(e) => r matches Err(x) && x@ == e,
            },
    {
        let schema = match self.schema_ref(schema_name) {
            Some(s) => s,
            None => {
                return Err(MessageError::UnknownSchema(owned(schema_name)));
            },
        };
        let mut body: Vec<u8> = Vec::new();
        let ghost total = write_message(self@, schema@, values@, 0, Seq::empty());
        let mut i: usize = 0;
        while i < schema.fields.len()
            invariant
                i <= schema.fields@.len(),
                self@.contains_key(schema_name@),
                schema@ == self@[schema_name@],
                total == write_message(self@, schema@, values@, 0, Seq::empty()),
                total == write_message(self@, schema@, values@, i as int, body@),
            decreases schema.fields@.len() - i,
        {
            let field = &schema.fields[i];
            assert(schema@[i as int] == schema.fields@[i as int]@);
            let k = match find_entry(values, field.name.as_str()) {
                Some(k) => k,
                None => {
                    return Err(
                        MessageError::SerializationError(
                            join3("Missing field '", field.name.as_str(), "'"),
                        ),
                    );
                },
            };
            let value = &values[k].1;
            let got = type_name_for_value(value);
            match write_by_type(
                self,
                &field.field_type,
                value,
                field.name.as_str(),
                field.name.as_str(),
                got.as_str(),
                &mut body,
            ) {
                Ok(()) => {},
                Err(e) => {
                    return Err(e);
                },
            }
            i = i + 1;
        }
        let mut out: Vec<u8> = Vec::new();
        out.push(0x00u8);
        out.push(0x01u8);
        out.push(0x00u8);
        out.push(0x00u8);
        assert(out@ =~= cdr_le_header());
        append_bytes(&mut out, body.as_slice());
        Ok(out)
    }
}

} // verus!
